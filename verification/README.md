# tickpack

A lossless codec for tick-data columns, verified with Verus. It finds the
decimal price grid inside doubles without being told the tick size, and falls
back to Gorilla XOR, block by block, when there is no grid. Every double comes
back bit for bit, NaN payloads and -0.0 included.

- `src/`: the verified library. Prices are doubles, held as their IEEE 754 bit
  patterns; what the codec computes with them (`v * 10^k`, rounding, `m / 10^k`)
  is written with integers and specified as correctly rounded arithmetic.
- `tests/`: its tests, which also hold that arithmetic against the machine's.
- `app/`: the `tickpack` program (`bench`, `inspect`), and the parts of the
  generator that need floating point: time gaps, artefacts and noise.

## What is proved

- Decoding gives back what was encoded, for price, timestamp and size columns,
  whatever the values and the block size (`price_column_round_trips`,
  `timestamp_column_round_trips`, `size_column_round_trips`,
  `f64_column_round_trips`).
- A column that is cut short anywhere is reported as the end of the input.
- A price column never takes more than two bits per block over the Gorilla
  baseline (`never_more_than_two_bits_per_block`), and exactly that much where
  no block takes the grid.
- A series on a decimal grid is found to be on one, and its tick is recovered
  (`on_grid_series_recover_scale_and_tick`, `tick_is_recovered`).
- The report on the blocks tiles the column and accounts for every bit.
- Generated walks stay on their grid (`every_tick_is_sound`), and a shorter
  scenario gives the first ticks of a longer one
  (`fewer_ticks_are_the_first_ticks`).
