//! How price blocks are laid out and read, field by field.

use crate::bits;
use crate::bitseq;
use crate::float;
use crate::gorilla;
use crate::gorilla::XorModel;
use crate::grid;
use crate::grid::GridFields;
use crate::price;
use crate::price::BlockInfo;
use crate::size;
use crate::wire;
use crate::words;
use crate::DecodeError;
use vstd::prelude::*;

verus! {

/// The layout "packed" holds nothing for no deltas, and for one more the bits of
/// how far it lies above the smallest.
pub proof fn packed_deltas_follow_one_another(q: Seq<i64>, d: i64, min: i64, w: nat)
    ensures
        grid::packed_bits(Seq::empty(), min, w) == Seq::<bool>::empty(),
        grid::packed_bits(q.push(d), min, w) == grid::packed_bits(q, min, w) + bitseq::bits_of(
            (d - min) as nat,
            w,
        ),
    decreases q.len(),
{
    let last = bitseq::bits_of((d - min) as nat, w);
    if q.len() == 0 {
        assert(q.push(d).skip(1) =~= Seq::empty());
        assert(grid::packed_bits(q.push(d).skip(1), min, w) =~= Seq::empty());
        assert(grid::packed_bits(q.push(d), min, w) =~= grid::packed_bits(q, min, w) + last);
    } else {
        assert(q.push(d).skip(1) =~= q.skip(1).push(d));
        packed_deltas_follow_one_another(q.skip(1), d, min, w);
        assert(grid::packed_bits(q.push(d), min, w) =~= grid::packed_bits(q, min, w) + last);
    }
}

/// The layout "zero-flag" holds a zero bit for a zero, and for another delta a one
/// bit and the bits of how far it lies above the smallest.
pub proof fn flagged_deltas_follow_one_another(q: Seq<i64>, d: i64, min: i64, w: nat)
    ensures
        grid::flagged_bits(Seq::empty(), min, w) == Seq::<bool>::empty(),
        grid::flagged_bits(q.push(d), min, w) == grid::flagged_bits(q, min, w) + if d == 0 {
            seq![false]
        } else {
            seq![true] + bitseq::bits_of((d - min) as nat, w)
        },
    decreases q.len(),
{
    let last = if d == 0 {
        seq![false]
    } else {
        seq![true] + bitseq::bits_of((d - min) as nat, w)
    };
    lemma_one_bit();
    if q.len() == 0 {
        assert(q.push(d).skip(1) =~= Seq::empty());
        assert(grid::flagged_bits(q.push(d).skip(1), min, w) =~= Seq::empty());
        assert(grid::flagged_bits(q.push(d), min, w) =~= grid::flagged_bits(q, min, w) + last);
    } else {
        assert(q.push(d).skip(1) =~= q.skip(1).push(d));
        flagged_deltas_follow_one_another(q.skip(1), d, min, w);
        assert(grid::flagged_bits(q.push(d), min, w) =~= grid::flagged_bits(q, min, w) + last);
    }
}

proof fn lemma_one_bit()
    ensures
        bitseq::bits_of(0, 1) == seq![false],
        bitseq::bits_of(1, 1) == seq![true],
{
    reveal_with_fuel(bitseq::bits_of, 2);
    assert(bitseq::bits_of(0, 1) =~= seq![false]);
    assert(bitseq::bits_of(1, 1) =~= seq![true]);
}

/// `n` zeros.
pub open spec fn zeros(n: nat) -> Seq<i64> {
    Seq::new(n, |i: int| 0i64)
}

proof fn lemma_zeros_counted(n: nat, run: nat, q: Seq<i64>, min: i64, w: nat, rw: nat)
    ensures
        grid::runs_bits(zeros(n) + q, run, min, w, rw) == grid::runs_bits(q, run + n, min, w, rw),
    decreases n,
{
    let s = zeros(n) + q;
    if n == 0 {
        assert(s =~= q);
    } else {
        assert(s.skip(1) =~= zeros((n - 1) as nat) + q);
        lemma_zeros_counted((n - 1) as nat, run + 1, q, min, w, rw);
    }
}

/// The layout "zero-runs" holds the length of a run of zeros, the bits of how far
/// the delta that ends it lies above the smallest, and then what follows it. Zeros
/// that nothing ends are their number, and none of them is nothing.
pub proof fn runs_follow_one_another(n: nat, d: i64, q: Seq<i64>, min: i64, w: nat, rw: nat)
    requires
        d != 0,
    ensures
        grid::runs_bits(zeros(n) + seq![d] + q, 0, min, w, rw) == bitseq::bits_of(n, rw)
            + bitseq::bits_of((d - min) as nat, w) + grid::runs_bits(q, 0, min, w, rw),
        n > 0 ==> grid::runs_bits(zeros(n), 0, min, w, rw) == bitseq::bits_of(n, rw),
        grid::runs_bits(Seq::empty(), 0, min, w, rw) == Seq::<bool>::empty(),
{
    let tail = seq![d] + q;
    assert(zeros(n) + seq![d] + q =~= zeros(n) + tail);
    lemma_zeros_counted(n, 0, tail, min, w, rw);
    assert(tail.skip(1) =~= q);
    lemma_zeros_counted(n, 0, Seq::empty(), min, w, rw);
    assert(zeros(n) + Seq::empty() =~= zeros(n));
}

/// The mantissa after `m`, with a field of `off` above the smallest delta: all
/// modulo `2^64`.
pub open spec fn next_after(m: i64, min: i64, off: nat, tick: i64) -> i64 {
    m.wrapping_add(min.wrapping_add((off as u64) as i64).wrapping_mul(tick))
}

/// A value in front of what a reader gives.
pub open spec fn in_front(
    v: Seq<u64>,
    read: (Result<Seq<u64>, DecodeError>, Seq<bool>),
) -> (Result<Seq<u64>, DecodeError>, Seq<bool>) {
    match read {
        (Ok(more), s) => (Ok(v + more), s),
        (Err(e), s) => (Err(e), s),
    }
}

/// How a reader goes through the layout "packed": no deltas need no bits, and each
/// takes the next mantissa from a field of the delta width, which may be any up to
/// 64. A field cut short is an error.
pub proof fn packed_deltas_are_read(
    g: GridFields,
    m: i64,
    field: Seq<bool>,
    rest: Seq<bool>,
    n: nat,
)
    requires
        g.width <= 64,
    ensures
        grid::take_packed(g, m, rest, 0) == (Ok::<Seq<u64>, DecodeError>(Seq::empty()), rest),
        field.len() == g.width ==> ({
            let next = next_after(m, g.min, bitseq::value_of(field), g.tick);
            grid::take_packed(g, m, field + rest, n + 1) == in_front(
                seq![float::grid_value(next, g.scale as nat)],
                grid::take_packed(g, next, rest, n),
            )
        }),
        field.len() < g.width ==> grid::take_packed(g, m, field, n + 1).0 == Err::<
            Seq<u64>,
            DecodeError,
        >(DecodeError::UnexpectedEof),
{
    if field.len() <= 64 {
        wire::bits_are_read_in_their_order(field, true, rest);
    }
}

/// How a reader goes through the layout "zero-flag": a zero bit repeats the
/// mantissa, and a one bit takes the next from a field of the delta width.
pub proof fn flagged_deltas_are_read(
    g: GridFields,
    m: i64,
    field: Seq<bool>,
    rest: Seq<bool>,
    n: nat,
)
    requires
        g.width <= 64,
    ensures
        grid::take_flagged(g, m, rest, 0) == (Ok::<Seq<u64>, DecodeError>(Seq::empty()), rest),
        grid::take_flagged(g, m, seq![false] + rest, n + 1) == in_front(
            seq![float::grid_value(m, g.scale as nat)],
            grid::take_flagged(g, m, rest, n),
        ),
        field.len() == g.width ==> ({
            let next = next_after(m, g.min, bitseq::value_of(field), g.tick);
            grid::take_flagged(g, m, seq![true] + field + rest, n + 1) == in_front(
                seq![float::grid_value(next, g.scale as nat)],
                grid::take_flagged(g, next, rest, n),
            )
        }),
        field.len() < g.width ==> grid::take_flagged(g, m, seq![true] + field, n + 1).0 == Err::<
            Seq<u64>,
            DecodeError,
        >(DecodeError::UnexpectedEof),
        grid::take_flagged(g, m, Seq::empty(), n + 1).0 == Err::<Seq<u64>, DecodeError>(
            DecodeError::UnexpectedEof,
        ),
{
    assert(seq![true] + field + rest =~= seq![true] + (field + rest));
    assert((seq![true] + (field + rest)).skip(1) =~= field + rest);
    assert((seq![true] + field).skip(1) =~= field);
    assert((seq![false] + rest).skip(1) =~= rest);
    if field.len() <= 64 {
        wire::bits_are_read_in_their_order(field, true, rest);
    }
}

/// The value with the mantissa `m`, `n` times.
pub open spec fn copies(m: i64, scale: nat, n: nat) -> Seq<u64> {
    Seq::new(n, |i: int| float::grid_value(m, scale))
}

/// How a reader goes through the layout "zero-runs": a field of the run width says
/// how often the mantissa is repeated, and unless that fills the block a field of
/// the delta width gives the next. A run past the end of the block is an error.
pub proof fn runs_are_read(
    g: GridFields,
    m: i64,
    length: Seq<bool>,
    field: Seq<bool>,
    rest: Seq<bool>,
    n: nat,
)
    requires
        g.width <= 64,
        g.run_width <= 64,
        length.len() == g.run_width,
    ensures
        grid::take_runs(g, m, rest, 0) == (Ok::<Seq<u64>, DecodeError>(Seq::empty()), rest),
        ({
            let run = bitseq::value_of(length);
            let next = next_after(m, g.min, bitseq::value_of(field), g.tick);
            let same = copies(m, g.scale as nat, run);
            if n > 0 && run > n {
                grid::take_runs(g, m, length + rest, n).0 == Err::<Seq<u64>, DecodeError>(
                    DecodeError::Corrupt("zero run past end of block"),
                )
            } else if n > 0 && run == n {
                grid::take_runs(g, m, length + rest, n) == (
                    Ok::<Seq<u64>, DecodeError>(same),
                    rest,
                )
            } else if n > 0 && field.len() == g.width {
                grid::take_runs(g, m, length + field + rest, n) == in_front(
                    same + seq![float::grid_value(next, g.scale as nat)],
                    grid::take_runs(g, next, rest, (n - run - 1) as nat),
                )
            } else if n > 0 && field.len() < g.width {
                grid::take_runs(g, m, length + field, n).0 == Err::<Seq<u64>, DecodeError>(
                    DecodeError::UnexpectedEof,
                )
            } else {
                true
            }
        }),
        forall|k: int|
            0 <= k < length.len() && n > 0 ==> (#[trigger] grid::take_runs(
                g,
                m,
                length.take(k),
                n,
            )).0 == Err::<Seq<u64>, DecodeError>(DecodeError::UnexpectedEof),
{
    assert(length + field + rest =~= length + (field + rest));
    wire::bits_are_read_in_their_order(length, true, field + rest);
    wire::bits_are_read_in_their_order(length, true, field);
    wire::bits_are_read_in_their_order(length, true, rest);
    if field.len() <= 64 {
        wire::bits_are_read_in_their_order(field, true, rest);
    }
    let run = bitseq::value_of(length);
    assert(grid::repeated(g.value(m), run) =~= copies(m, g.scale as nat, run));
}

/// A number in 7 bits of width and as many bits, whatever follows it.
pub open spec fn reads_as(f: Seq<bool>, v: u64) -> bool {
    forall|rest: Seq<bool>| #[trigger]
        bits::take_sized(f + rest) == (Ok::<u64, DecodeError>(v), rest)
}

proof fn lemma_header_read(
    scale: nat,
    x: u64,
    y: u64,
    z: u64,
    fields: (Seq<bool>, Seq<bool>, Seq<bool>),
    tail: Seq<bool>,
)
    requires
        scale <= 12,
        reads_as(fields.0, x),
        reads_as(fields.1, y),
        reads_as(fields.2, z),
    ensures
        grid::take_header(
            bitseq::bits_of(scale, 4) + (fields.0 + (fields.1 + (fields.2 + tail))),
        ) == grid::take_layout(
            scale as u32,
            bits::unzigzag_of(x),
            y as i64,
            bits::unzigzag_of(z),
            tail,
        ),
{
    let s3 = fields.2 + tail;
    let s2 = fields.1 + s3;
    let s1 = fields.0 + s2;
    assert(bits::take_sized(s3) == (Ok::<u64, DecodeError>(z), tail));
    assert(bits::take_sized(s2) == (Ok::<u64, DecodeError>(y), s3));
    assert(bits::take_sized(s1) == (Ok::<u64, DecodeError>(x), s2));
    words::lemma_pow2_values();
    bits::bits_read_back(scale as u64, 4, s1);
}

proof fn lemma_layout_read(
    scale: nat,
    base: i64,
    tick: i64,
    min: i64,
    width: nat,
    mode: nat,
    run_width: nat,
    rest: Seq<bool>,
)
    requires
        scale <= 12,
        width <= 64,
        mode < 4,
        run_width < 64,
        mode != 2 ==> run_width == 0,
    ensures
        ({
            let g = GridFields {
                scale: scale as u32,
                tick,
                min,
                width: width as u32,
                run_width: run_width as u32,
            };
            let runs = if mode == 2 {
                bitseq::bits_of(run_width, 6)
            } else {
                Seq::empty()
            };
            grid::take_layout(
                scale as u32,
                base,
                tick,
                min,
                bitseq::bits_of(width, 7) + (bitseq::bits_of(mode, 2) + (runs + rest)),
            ) == (Ok::<(GridFields, i64, u64), DecodeError>((g, base, mode as u64)), rest)
        }),
{
    let runs = if mode == 2 {
        bitseq::bits_of(run_width, 6)
    } else {
        Seq::empty()
    };
    let s6 = runs + rest;
    words::lemma_pow2_values();
    bits::bits_read_back(mode as u64, 2, s6);
    bits::bits_read_back(width as u64, 7, bitseq::bits_of(mode, 2) + s6);
    if mode == 2 {
        bits::bits_read_back(run_width as u64, 6, rest);
    } else {
        assert(s6 =~= rest);
    }
}

/// How a reader goes through the header of a grid block: 4 bits of scale, the
/// zigzag of the first mantissa, the tick and the zigzag of the smallest delta as
/// sized fields, 7 bits of delta width, 2 bits for the layout and, in the layout
/// "zero-runs", 6 bits of run width. The first value has the first mantissa, and
/// the deltas give the others.
pub proof fn grid_header_is_read(
    scale: nat,
    base: i64,
    tick: u64,
    min: i64,
    width: nat,
    mode: nat,
    run_width: nat,
    fields: (Seq<bool>, Seq<bool>, Seq<bool>),
    rest: Seq<bool>,
    len: nat,
)
    requires
        scale <= 12,
        reads_as(fields.0, bits::zigzag_of(base)),
        reads_as(fields.1, tick),
        reads_as(fields.2, bits::zigzag_of(min)),
        width <= 64,
        mode < 4,
        run_width < 64,
        mode != 2 ==> run_width == 0,
        len > 0,
    ensures
        ({
            let g = GridFields {
                scale: scale as u32,
                tick: tick as i64,
                min,
                width: width as u32,
                run_width: run_width as u32,
            };
            let runs = if mode == 2 {
                bitseq::bits_of(run_width, 6)
            } else {
                Seq::empty()
            };
            let first = seq![float::grid_value(base, scale)];
            let s = bitseq::bits_of(scale, 4) + (fields.0 + (fields.1 + (fields.2 + (
            bitseq::bits_of(width, 7) + (bitseq::bits_of(mode, 2) + (runs + rest))))));
            let n = (len - 1) as nat;
            if mode == 0 {
                grid::take_grid(s, len) == in_front(first, grid::take_packed(g, base, rest, n))
            } else if mode == 1 {
                grid::take_grid(s, len) == in_front(first, grid::take_flagged(g, base, rest, n))
            } else if mode == 2 {
                grid::take_grid(s, len) == in_front(first, grid::take_runs(g, base, rest, n))
            } else {
                grid::take_grid(s, len).0 == Err::<Seq<u64>, DecodeError>(
                    DecodeError::Corrupt("reserved payload mode"),
                )
            }
        }),
{
    let runs = if mode == 2 {
        bitseq::bits_of(run_width, 6)
    } else {
        Seq::empty()
    };
    let tail = bitseq::bits_of(width, 7) + (bitseq::bits_of(mode, 2) + (runs + rest));
    lemma_header_read(
        scale,
        bits::zigzag_of(base),
        tick,
        bits::zigzag_of(min),
        fields,
        tail,
    );
    lemma_layout_read(scale, base, tick as i64, min, width, mode, run_width, rest);
    bits::zigzag_is_a_bijection(base, 0);
    bits::zigzag_is_a_bijection(min, 0);
}

/// A scale above 12 is an error, and so is a delta width above 64.
pub proof fn grid_headers_are_checked(
    scale: nat,
    x: u64,
    y: u64,
    z: u64,
    width: nat,
    fields: (Seq<bool>, Seq<bool>, Seq<bool>),
    rest: Seq<bool>,
    len: nat,
)
    requires
        scale < 16,
        width < 128,
        reads_as(fields.0, x),
        reads_as(fields.1, y),
        reads_as(fields.2, z),
        len > 0,
    ensures
        scale > 12 ==> grid::take_grid(bitseq::bits_of(scale, 4) + rest, len).0 == Err::<
            Seq<u64>,
            DecodeError,
        >(DecodeError::Corrupt("scale above 12")),
        scale <= 12 && width > 64 ==> grid::take_grid(
            bitseq::bits_of(scale, 4) + (fields.0 + (fields.1 + (fields.2 + (bitseq::bits_of(
                width,
                7,
            ) + rest)))),
            len,
        ).0 == Err::<Seq<u64>, DecodeError>(DecodeError::Corrupt("delta width above 64")),
{
    words::lemma_pow2_values();
    bits::bits_read_back(scale as u64, 4, rest);
    bits::bits_read_back(width as u64, 7, rest);
    if scale <= 12 {
        lemma_header_read(scale, x, y, z, fields, bitseq::bits_of(width, 7) + rest);
    }
}

/// Two bits tell how a block is read: `00` as a grid block, whose values the XOR
/// state then passes, and `01` as XOR codes. The other tags are errors.
pub proof fn blocks_are_read_by_their_tag(st: XorModel, rest: Seq<bool>, b: bool, len: nat)
    ensures
        price::take_block(st, seq![false, false] + rest, len) == match grid::take_grid(rest, len) {
            (Ok(v), s) => (Ok::<Seq<u64>, DecodeError>(v), gorilla::xor_after(st, v), s),
            (Err(e), s) => (Err(e), st, s),
        },
        price::take_block(st, seq![false, true] + rest, len) == gorilla::xor_take_many(
            st,
            rest,
            len,
        ),
        price::take_block(st, seq![true, b] + rest, len).0 == Err::<Seq<u64>, DecodeError>(
            DecodeError::Corrupt("reserved block tag"),
        ),
        price::take_block(st, seq![b], len).0 == Err::<Seq<u64>, DecodeError>(
            DecodeError::UnexpectedEof,
        ),
        price::take_block(st, Seq::empty(), len).0 == Err::<Seq<u64>, DecodeError>(
            DecodeError::UnexpectedEof,
        ),
{
    lemma_tag_read(false, false, rest);
    lemma_tag_read(false, true, rest);
    lemma_tag_read(true, b, rest);
    reveal(price::take_block);
}

proof fn lemma_tag_read(a: bool, b: bool, rest: Seq<bool>)
    ensures
        bits::take_bits(seq![a, b] + rest, 2) == (
            Ok::<u64, DecodeError>(
                if a && b {
                    3
                } else if a {
                    2
                } else if b {
                    1
                } else {
                    0
                },
            ),
            rest,
        ),
{
    wire::bits_are_read_in_their_order(seq![a, b], true, rest);
    lemma_two_bit_value(a, b);
}

proof fn lemma_two_bit_value(a: bool, b: bool)
    ensures
        bitseq::value_of(seq![a, b]) == (if a {
            2nat
        } else {
            0nat
        }) + (if b {
            1nat
        } else {
            0nat
        }),
{
    reveal_with_fuel(bitseq::value_of, 3);
    assert(seq![a, b].drop_last() =~= seq![a]);
    assert(seq![a].drop_last() =~= Seq::empty());
}

/// A block is what is left of the column where that is shorter than a full one,
/// and after it comes the rest, read from the XOR state past its values.
pub proof fn columns_are_read_block_by_block(
    st: XorModel,
    s: Seq<bool>,
    block_size: nat,
    len: nat,
    left: nat,
)
    requires
        0 < len <= block_size,
        len < block_size ==> left == 0,
    ensures
        price::take_blocks(st, s, 0, block_size) == (
            Ok::<Seq<u64>, DecodeError>(Seq::empty()),
            s,
        ),
        price::take_blocks(st, s, len + left, block_size) == match price::take_block(st, s, len) {
            (Ok(v), after, rest) => in_front(
                v,
                price::take_blocks(after, rest, left, block_size),
            ),
            (Err(e), _, rest) => (Err(e), rest),
        },
{
    assert(size::block_len(len + left, block_size) == len);
}

/// What a price column is decoded to, from whatever follows its two counts: its
/// blocks, read from a state that knows no value. With values the block size must
/// be positive.
pub proof fn price_columns_are_read_from_the_counts(data: Seq<u8>)
    ensures
        match bits::take_varint(data) {
            (Err(e), _) => price::prices_decoded(data) == Err::<Seq<u64>, DecodeError>(e),
            (Ok(n), used) => match bits::take_varint(data.skip(used as int)) {
                (Err(e), _) => price::prices_decoded(data) == Err::<Seq<u64>, DecodeError>(e),
                (Ok(block_size), more) => price::prices_decoded(data) == if n > 0 && block_size
                    == 0 {
                    Err(DecodeError::Corrupt("zero block size"))
                } else {
                    price::take_blocks(
                        XorModel { started: false, prev: 0, window: None },
                        bitseq::byte_bits(data.skip(used as int).skip(more as int)),
                        n as nat,
                        block_size as nat,
                    ).0
                },
            },
        },
{
}

/// A price column is the varints of how many values there are and of the block
/// size, and then the bits of the blocks, from a state that knows no value, with
/// fewer than eight zero bits behind them.
pub proof fn price_column_is_counts_and_blocks(values: Seq<u64>, block_size: nat)
    ensures
        ({
            let counts = bits::varint(values.len()) + bits::varint(block_size);
            let code = price::column_code(
                XorModel { started: false, prev: 0, window: None },
                values,
                block_size,
            );
            let column = price::price_column(values, block_size);
            let fill = 8 * (column.len() - counts.len()) - code.len();
            &&& column.take(counts.len() as int) == counts
            &&& 0 <= fill < 8
            &&& bitseq::byte_bits(column.skip(counts.len() as int)) == code + Seq::new(
                fill as nat,
                |i: int| false,
            )
        }),
{
    let counts = bits::varint(values.len()) + bits::varint(block_size);
    let code = price::column_code(XorModel::fresh(), values, block_size);
    let column = price::price_column(values, block_size);
    bitseq::lemma_byte_bits_pack(code);
    assert(column.take(counts.len() as int) =~= counts);
    assert(column.skip(counts.len() as int) =~= bitseq::pack(code));
    let fill = 8 * (column.len() - counts.len()) - code.len();
    assert(bitseq::padded(code) =~= code + Seq::new(fill as nat, |i: int| false));
}

/// A block in front of other values is written and reported as it is alone, and
/// the others as they are after it: the XOR state has passed its values, however
/// they were written.
pub proof fn columns_are_written_block_by_block(
    st: XorModel,
    block: Seq<u64>,
    more: Seq<u64>,
    block_size: nat,
    start: nat,
)
    requires
        0 < block.len() <= block_size,
        block.len() < block_size ==> more.len() == 0,
        start <= usize::MAX,
        block.len() <= usize::MAX,
        price::block_code(st, block).len() <= u64::MAX,
    ensures
        price::column_code(st, Seq::empty(), block_size) == Seq::<bool>::empty(),
        price::column_code(st, block + more, block_size) == price::block_code(st, block)
            + price::column_code(gorilla::xor_after(st, block), more, block_size),
        price::column_infos(st, Seq::empty(), block_size, start) == Seq::<BlockInfo>::empty(),
        ({
            let info = BlockInfo {
                start: start as usize,
                len: block.len() as usize,
                kind: price::block_kind(st, block),
                bits: price::block_code(st, block).len() as u64,
            };
            price::column_infos(st, block + more, block_size, start) == seq![info]
                + price::column_infos(
                gorilla::xor_after(st, block),
                more,
                block_size,
                start + block.len(),
            )
        }),
{
    let n = block.len() as int;
    assert((block + more).take(n) =~= block);
    assert((block + more).skip(n) =~= more);
    assert(size::block_len((block + more).len(), block_size) == n);
}

/// The report of a column is that of its blocks, from a state that knows no value
/// and the index 0 on.
pub proof fn reports_start_at_the_first_block(values: Seq<u64>, block_size: nat)
    ensures
        price::price_infos(values, block_size) == price::column_infos(
            XorModel { started: false, prev: 0, window: None },
            values,
            block_size,
            0,
        ),
{
}

} // verus!
