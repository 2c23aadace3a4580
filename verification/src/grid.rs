//! Grid blocks: doubles as mantissas on a decimal grid, stored as tick deltas.
//!
//! A grid block is 2 bits of tag, 4 bits of scale, the sized zigzag base
//! mantissa, the sized tick, the sized zigzag frame-of-reference minimum, 7
//! bits of delta width, 2 bits of payload mode, then the tick deltas in one of
//! three layouts.

use crate::bits;
use crate::bits::{
    BitReader, BitSink, BitWriter, get_sized, put_sized, sized_cost, unzigzag, width, zigzag,
};
use crate::bitseq;
use crate::float;
use crate::float::grid_bits;
use crate::gcd;
use crate::gcd::gcd;
use crate::price;
use crate::price::{FallbackReason, MAX_SCALE, Mode, detect_scale, exact_mantissa};
use crate::size;
use crate::words;
use crate::DecodeError;
use vstd::arithmetic::div_mod::*;
use vstd::arithmetic::mul::*;
use vstd::arithmetic::power2::*;
use vstd::prelude::*;

verus! {

/// Tag of a grid block.
pub const TAG_GRID: u64 = 0;

/// The mantissas of values that are exact at the scale `k`.
pub open spec fn mantissas(values: Seq<u64>, k: nat) -> Seq<i64> {
    values.map_values(|v: u64| float::mantissa_of(v, k)->Some_0)
}

/// The differences of neighbours.
pub open spec fn differences(m: Seq<i64>) -> Seq<int> {
    Seq::new((m.len() - 1) as nat, |i: int| m[i + 1] - m[i])
}

/// Every difference fits in an i64.
pub open spec fn differences_fit(m: Seq<i64>) -> bool {
    forall|i: int|
        0 <= i < m.len() - 1 ==> i64::MIN <= #[trigger] differences(m)[i] <= i64::MAX
}

/// The tick: the greatest common divisor of the differences, or 1 if nothing
/// moves.
pub open spec fn tick_of(m: Seq<i64>) -> nat {
    let g = gcd::gcd_from(0, differences(m));
    if g == 0 {
        1
    } else {
        g
    }
}

/// The differences counted in ticks.
pub open spec fn tick_deltas(m: Seq<i64>) -> Seq<i64> {
    differences(m).map_values(|d: int| (d / tick_of(m) as int) as i64)
}

/// The smallest delta, the frame of reference (0 if there is none).
pub open spec fn smallest(q: Seq<i64>) -> i64 {
    if q.len() == 0 {
        0
    } else {
        size::minimum(q)
    }
}

/// The largest value of a non-empty list.
pub open spec fn maximum(q: Seq<i64>) -> i64
    decreases q.len(),
{
    if q.len() <= 1 {
        q[0]
    } else {
        let m = maximum(q.drop_last());
        if q.last() > m {
            q.last()
        } else {
            m
        }
    }
}

/// The largest delta (0 if there is none).
pub open spec fn largest(q: Seq<i64>) -> i64 {
    if q.len() == 0 {
        0
    } else {
        maximum(q)
    }
}

/// Bits that every delta needs above the smallest one.
pub open spec fn delta_width(q: Seq<i64>) -> nat {
    bitseq::bit_length((largest(q) - smallest(q)) as nat)
}

/// The longest run of zeros in `q` when `run` zeros come before it.
pub open spec fn longest_run(q: Seq<i64>, run: nat) -> nat
    decreases q.len(),
{
    if q.len() == 0 {
        run
    } else if q[0] == 0 {
        longest_run(q.skip(1), run + 1)
    } else {
        let later = longest_run(q.skip(1), 0);
        if run > later {
            run
        } else {
            later
        }
    }
}

/// The zeros at the end of `q` when `run` zeros come before it.
pub open spec fn last_run(q: Seq<i64>, run: nat) -> nat
    decreases q.len(),
{
    if q.len() == 0 {
        run
    } else if q[0] == 0 {
        last_run(q.skip(1), run + 1)
    } else {
        last_run(q.skip(1), 0)
    }
}

/// Number of deltas that are not zero.
pub open spec fn moves(q: Seq<i64>) -> nat
    decreases q.len(),
{
    if q.len() == 0 {
        0
    } else {
        moves(q.skip(1)) + if q[0] == 0 {
            0nat
        } else {
            1nat
        }
    }
}

/// A delta above the frame of reference, in `width` bits.
pub open spec fn offset_bits(d: i64, min: i64, width: nat) -> Seq<bool> {
    bitseq::bits_of((d - min) as nat, width)
}

/// Layout "packed": every delta in `width` bits.
pub open spec fn packed_bits(q: Seq<i64>, min: i64, width: nat) -> Seq<bool>
    decreases q.len(),
{
    if q.len() == 0 {
        Seq::empty()
    } else {
        offset_bits(q[0], min, width) + packed_bits(q.skip(1), min, width)
    }
}

/// Layout "zero-flag": 1 bit per delta, plus `width` bits for each that is not
/// zero.
pub open spec fn flagged_bits(q: Seq<i64>, min: i64, width: nat) -> Seq<bool>
    decreases q.len(),
{
    if q.len() == 0 {
        Seq::empty()
    } else if q[0] == 0 {
        bitseq::bits_of(0, 1) + flagged_bits(q.skip(1), min, width)
    } else {
        bitseq::bits_of(1, 1) + offset_bits(q[0], min, width) + flagged_bits(q.skip(1), min, width)
    }
}

/// Layout "zero-runs": the length of each run of zeros in `run_width` bits,
/// then the delta that ends it. `run` zeros come before `q`.
pub open spec fn runs_bits(q: Seq<i64>, run: nat, min: i64, width: nat, run_width: nat) -> Seq<
    bool,
>
    decreases q.len(),
{
    if q.len() == 0 {
        if run > 0 {
            bitseq::bits_of(run, run_width)
        } else {
            Seq::empty()
        }
    } else if q[0] == 0 {
        runs_bits(q.skip(1), run + 1, min, width, run_width)
    } else {
        bitseq::bits_of(run, run_width) + offset_bits(q[0], min, width) + runs_bits(
            q.skip(1),
            0,
            min,
            width,
            run_width,
        )
    }
}

/// The deltas in the layout `mode`.
pub open spec fn layout_bits(mode: Mode, q: Seq<i64>, min: i64, width: nat, run_width: nat) -> Seq<
    bool,
> {
    match mode {
        Mode::Packed => packed_bits(q, min, width),
        Mode::ZeroFlag => flagged_bits(q, min, width),
        Mode::Runs => bitseq::bits_of(run_width, 6) + runs_bits(q, 0, min, width, run_width),
    }
}

/// The deltas in the layout `mode`, with the smallest widths that hold them.
pub open spec fn payload_bits(mode: Mode, q: Seq<i64>) -> Seq<bool> {
    layout_bits(mode, q, smallest(q), delta_width(q), bitseq::bit_length(longest_run(q, 0)))
}

/// The shortest layout; of equally short ones the first.
pub open spec fn best_mode(q: Seq<i64>) -> Mode {
    let packed = payload_bits(Mode::Packed, q).len();
    let flagged = payload_bits(Mode::ZeroFlag, q).len();
    let runs = payload_bits(Mode::Runs, q).len();
    if packed <= flagged && packed <= runs {
        Mode::Packed
    } else if flagged <= runs {
        Mode::ZeroFlag
    } else {
        Mode::Runs
    }
}

/// The number that stands for a layout in the stream.
pub open spec fn mode_number(mode: Mode) -> nat {
    match mode {
        Mode::Packed => 0,
        Mode::ZeroFlag => 1,
        Mode::Runs => 2,
    }
}

/// The header of a grid block.
pub open spec fn header_bits(k: nat, base: i64, tick: u64, min: i64, width: nat, mode: Mode) -> Seq<
    bool,
> {
    bitseq::bits_of(TAG_GRID as nat, 2) + bitseq::bits_of(k, 4)
        + bits::sized(bits::zigzag_of(base)) + bits::sized(tick) + bits::sized(
        bits::zigzag_of(min),
    ) + bitseq::bits_of(width, 7) + bitseq::bits_of(mode_number(mode), 2)
}

/// The bits of a grid block with the mantissas `m` at the scale `k`.
pub open spec fn grid_code(k: nat, m: Seq<i64>) -> Seq<bool> {
    let q = tick_deltas(m);
    let mode = best_mode(q);
    header_bits(k, m[0], tick_of(m) as u64, smallest(q), delta_width(q), mode) + payload_bits(
        mode,
        q,
    )
}

/// Why a block has no grid encoding, or its scale.
pub open spec fn grid_scale(values: Seq<u64>) -> Result<u32, FallbackReason> {
    match price::scale_of(values) {
        None => Err(FallbackReason::NoDecimalScale),
        Some(k) => if differences_fit(mantissas(values, k as nat)) {
            Ok(k)
        } else {
            Err(FallbackReason::DeltaOverflow)
        },
    }
}

/// How a grid block is to be written.
pub struct GridPlan {
    pub scale: u32,
    pub base: i64,
    pub tick: u64,
    pub qmin: i64,
    pub width: u32,
    pub mode: Mode,
    pub run_width: u32,
    pub bits: u64,
}

impl GridPlan {
    /// The bits of a block with the tick deltas `q`, written by this plan.
    pub open spec fn code(self, q: Seq<i64>) -> Seq<bool> {
        header_bits(
            self.scale as nat,
            self.base,
            self.tick,
            self.qmin,
            self.width as nat,
            self.mode,
        ) + layout_bits(self.mode, q, self.qmin, self.width as nat, self.run_width as nat)
    }

    /// No delta lies below the plan's minimum, nor further above it than 64
    /// bits count.
    pub open spec fn covers(self, q: Seq<i64>) -> bool {
        &&& self.width <= 64
        &&& self.run_width <= 64
        &&& forall|i: int| 0 <= i < q.len() ==> self.qmin <= #[trigger] q[i]
    }

    /// This is the plan for the mantissas `m` at the scale `k`.
    pub open spec fn plans(self, k: nat, m: Seq<i64>) -> bool {
        let q = tick_deltas(m);
        &&& self.scale == k
        &&& self.base == m[0]
        &&& self.tick == tick_of(m)
        &&& self.qmin == smallest(q)
        &&& self.width == delta_width(q)
        &&& self.mode == best_mode(q)
        &&& self.run_width == bitseq::bit_length(longest_run(q, 0))
        &&& self.bits == grid_code(k, m).len()
    }
}

/// Every delta lies above the smallest one, by less than `delta_width` bits
/// can count.
pub proof fn lemma_offsets_fit(q: Seq<i64>)
    ensures
        delta_width(q) <= 64,
        smallest(q) <= largest(q),
        forall|i: int|
            0 <= i < q.len() ==> smallest(q) <= #[trigger] q[i] <= largest(q) && q[i] - smallest(q)
                < pow2(delta_width(q)),
{
    if q.len() > 0 {
        size::lemma_minimum(q);
        lemma_maximum(q);
        assert(smallest(q) <= q[0] <= largest(q));
    }
    let span = (largest(q) - smallest(q)) as nat;
    words::lemma_pow2_values();
    bitseq::lemma_bit_length_bound(span, 64);
    bitseq::lemma_bit_length(span);
}

pub proof fn lemma_maximum(q: Seq<i64>)
    requires
        q.len() > 0,
    ensures
        forall|i: int| 0 <= i < q.len() ==> #[trigger] q[i] <= maximum(q),
    decreases q.len(),
{
    if q.len() > 1 {
        lemma_maximum(q.drop_last());
        assert forall|i: int| 0 <= i < q.len() implies #[trigger] q[i] <= maximum(q) by {
            if i < q.len() - 1 {
                assert(q.drop_last()[i] == q[i]);
            }
        }
    }
}

proof fn lemma_packed_len(q: Seq<i64>, min: i64, width: nat)
    ensures
        packed_bits(q, min, width).len() == q.len() * width,
    decreases q.len(),
{
    if q.len() > 0 {
        bitseq::lemma_bits_of_len((q[0] - min) as nat, width);
        lemma_packed_len(q.skip(1), min, width);
        lemma_mul_is_distributive_add_other_way(width as int, 1, q.len() - 1);
    }
    lemma_mul_basics(width as int);
}

proof fn lemma_flagged_len(q: Seq<i64>, min: i64, width: nat)
    ensures
        flagged_bits(q, min, width).len() == q.len() + moves(q) * width,
        moves(q) <= q.len(),
    decreases q.len(),
{
    lemma_mul_basics(width as int);
    if q.len() > 0 {
        bitseq::lemma_bits_of_len((q[0] - min) as nat, width);
        bitseq::lemma_bits_of_len(0, 1);
        bitseq::lemma_bits_of_len(1, 1);
        lemma_flagged_len(q.skip(1), min, width);
        lemma_mul_is_distributive_add_other_way(width as int, 1, moves(q.skip(1)) as int);
    }
}

proof fn lemma_runs_len(q: Seq<i64>, run: nat, min: i64, width: nat, run_width: nat)
    ensures
        runs_bits(q, run, min, width, run_width).len() == moves(q) * (run_width + width)
            + if last_run(
            q,
            run,
        ) > 0 {
            run_width
        } else {
            0
        },
    decreases q.len(),
{
    let both = (run_width + width) as int;
    lemma_mul_basics(both);
    if q.len() == 0 {
        bitseq::lemma_bits_of_len(run, run_width);
    } else {
        bitseq::lemma_bits_of_len((q[0] - min) as nat, width);
        bitseq::lemma_bits_of_len(run, run_width);
        if q[0] == 0 {
            lemma_runs_len(q.skip(1), run + 1, min, width, run_width);
        } else {
            lemma_runs_len(q.skip(1), 0, min, width, run_width);
            lemma_mul_is_distributive_add_other_way(both, 1, moves(q.skip(1)) as int);
        }
    }
}

proof fn lemma_runs(q: Seq<i64>, run: nat)
    ensures
        run <= longest_run(q, run) <= run + q.len(),
        last_run(q, run) <= longest_run(q, run),
        moves(q) <= q.len(),
    decreases q.len(),
{
    if q.len() > 0 {
        if q[0] == 0 {
            lemma_runs(q.skip(1), run + 1);
        } else {
            lemma_runs(q.skip(1), 0);
        }
    }
}

/// Fills `m` with the mantissas of `values` at the scale `k`.
fn fill_mantissas(values: &[u64], k: u32, m: &mut Vec<i64>)
    requires
        k <= MAX_SCALE,
        price::all_exact(values@, k as nat),
    ensures
        final(m)@ == mantissas(values@, k as nat),
{
    m.clear();
    let mut i: usize = 0;
    while i < values.len()
        invariant
            i <= values@.len(),
            k <= MAX_SCALE,
            price::all_exact(values@, k as nat),
            m@ =~= mantissas(values@, k as nat).take(i as int),
        decreases values@.len() - i,
    {
        assert(float::mantissa_of(values@[i as int], k as nat) is Some);
        match exact_mantissa(values[i], k) {
            Some(v) => m.push(v),
            None => {},
        }
        i = i + 1;
    }
}

/// The distance of `d` from zero.
fn distance_of(d: i64) -> (n: u64)
    ensures
        n == gcd::distance(d as int),
{
    if d < 0 {
        (-(d as i128)) as u64
    } else {
        d as u64
    }
}

/// Fills `q` with the differences of neighbours and gives their greatest common
/// divisor, unless one is too large.
fn fill_differences(m: &[i64], q: &mut Vec<i64>) -> (res: Result<u64, FallbackReason>)
    requires
        m@.len() > 0,
    ensures
        match res {
            Ok(g) => differences_fit(m@) && g == gcd::gcd_from(0, differences(m@))
                && final(q)@.len()
                == m@.len() - 1 && forall|i: int|
                0 <= i < m@.len() - 1 ==> #[trigger] final(q)@[i] == differences(m@)[i],
            Err(e) => !differences_fit(m@) && e == FallbackReason::DeltaOverflow,
        },
{
    q.clear();
    let mut g: u64 = 0;
    let mut i: usize = 0;
    let ghost d = differences(m@);
    assert(d.skip(0) =~= d);
    while i < m.len() - 1
        invariant
            i <= m@.len() - 1,
            m@.len() > 0,
            d == differences(m@),
            q@.len() == i,
            forall|j: int| 0 <= j < i ==> #[trigger] q@[j] == d[j],
            gcd::gcd_from(g as nat, d.skip(i as int)) == gcd::gcd_from(0, d),
        decreases m@.len() - i,
    {
        match m[i + 1].checked_sub(m[i]) {
            Some(x) => {
                proof {
                    assert(d.skip(i as int)[0] == x);
                    assert(d.skip(i as int).skip(1) =~= d.skip(i + 1));
                }
                q.push(x);
                g = gcd(g, distance_of(x));
            },
            None => {
                assert(!(i64::MIN <= d[i as int] <= i64::MAX));
                return Err(FallbackReason::DeltaOverflow);
            },
        }
        i = i + 1;
    }
    proof {
        assert forall|j: int| 0 <= j < m@.len() - 1 implies i64::MIN <= #[trigger] d[j]
            <= i64::MAX by {
            assert(q@[j] == d[j]);
        }
    }
    Ok(g)
}

/// The tick divides every difference, and is at most 2^63.
pub proof fn lemma_tick(m: Seq<i64>)
    requires
        m.len() > 0,
        differences_fit(m),
    ensures
        1 <= tick_of(m) <= 0x8000_0000_0000_0000,
        tick_deltas(m).len() == differences(m).len(),
        forall|i: int|
            0 <= i < differences(m).len() ==> #[trigger] tick_deltas(m)[i] * tick_of(m)
                == differences(m)[i],
{
    let d = differences(m);
    let g = gcd::gcd_from(0, d);
    let t = tick_of(m);
    gcd::lemma_gcd_from(0, d);
    if g > 0 {
        let j = choose|j: int| 0 <= j < d.len() && #[trigger] d[j] != 0;
        assert(gcd::distance(d[j]) % g == 0);
        if gcd::distance(d[j]) < g {
            lemma_small_mod(gcd::distance(d[j]), g);
        }
    }
    assert forall|i: int| 0 <= i < d.len() implies #[trigger] tick_deltas(m)[i] * t == d[i] by {
        if g > 0 {
            assert(gcd::distance(d[i]) % g == 0);
        } else {
            lemma_div_basics(gcd::distance(d[i]) as int);
        }
        lemma_exact_quotient(d[i], t);
    }
}

/// A difference that is a multiple of `t` is exactly its quotient times `t`.
proof fn lemma_exact_quotient(d: int, t: nat)
    requires
        t >= 1,
        i64::MIN <= d <= i64::MAX,
        gcd::distance(d) % t == 0,
    ensures
        i64::MIN <= d / (t as int) <= i64::MAX,
        (d / (t as int)) * t == d,
        d >= 0 ==> d / (t as int) == gcd::distance(d) / t,
        d < 0 ==> d / (t as int) == -(gcd::distance(d) / t),
{
    let a = gcd::distance(d);
    let ti = t as int;
    let q = (a / t) as int;
    lemma_fundamental_div_mod(a as int, ti);
    assert(a == q * ti) by (nonlinear_arith)
        requires
            a == ti * q,
    ;
    assert(0 <= q <= a) by (nonlinear_arith)
        requires
            a == q * ti,
            ti >= 1,
            a >= 0,
    ;
    let s = if d < 0 {
        -q
    } else {
        q
    };
    assert(d == s * ti) by (nonlinear_arith)
        requires
            s == q && d == a || s == -q && d == -a,
            a == q * ti,
    ;
    lemma_div_multiples_vanish(s, ti);
    lemma_mul_is_commutative(s, ti);
}

/// Counts the differences in `q` in ticks.
fn count_in_ticks(q: &mut Vec<i64>, tick: u64, Ghost(m): Ghost<Seq<i64>>)
    requires
        m.len() > 0,
        differences_fit(m),
        tick == tick_of(m),
        old(q)@.len() == differences(m).len(),
        forall|i: int| 0 <= i < differences(m).len() ==> #[trigger] old(q)@[i] == differences(m)[i],
    ensures
        final(q)@ == tick_deltas(m),
{
    let mut i: usize = 0;
    let ghost d = differences(m);
    proof {
        lemma_tick(m);
    }
    while i < q.len()
        invariant
            m.len() > 0,
            d == differences(m),
            differences_fit(m),
            tick == tick_of(m),
            tick >= 1,
            q@.len() == d.len(),
            forall|j: int| i <= j < d.len() ==> #[trigger] q@[j] == d[j],
            forall|j: int| 0 <= j < i ==> #[trigger] q@[j] == tick_deltas(m)[j],
        decreases q@.len() - i,
    {
        let x: i64 = q[i];
        proof {
            assert(x == d[i as int]);
            gcd::lemma_gcd_from(0, d);
            if gcd::gcd_from(0, d) == 0 {
                lemma_div_basics(gcd::distance(x as int) as int);
            }
            assert(gcd::distance(d[i as int]) % tick_of(m) == 0);
            lemma_exact_quotient(x as int, tick as nat);
        }
        q.set(i, (x as i128 / tick as i128) as i64);
        i = i + 1;
    }
    assert(q@ =~= tick_deltas(m));
}

/// The smallest and the largest delta.
fn range_of(q: &[i64]) -> (res: (i64, i64))
    ensures
        res == (smallest(q@), largest(q@)),
{
    if q.len() == 0 {
        return (0, 0);
    }
    let mut low: i64 = q[0];
    let mut high: i64 = q[0];
    let mut i: usize = 1;
    while i < q.len()
        invariant
            1 <= i <= q@.len(),
            low == size::minimum(q@.take(i as int)),
            high == maximum(q@.take(i as int)),
        decreases q@.len() - i,
    {
        let d: i64 = q[i];
        assert(q@.take(i + 1).drop_last() =~= q@.take(i as int));
        if d < low {
            low = d;
        }
        if d > high {
            high = d;
        }
        i = i + 1;
    }
    assert(q@.take(i as int) =~= q@);
    (low, high)
}

/// How many deltas are not zero, the longest run of zeros, and the zeros at the
/// end.
fn run_lengths(q: &[i64]) -> (res: (u64, u64, u64))
    ensures
        res.0 == moves(q@),
        res.1 == longest_run(q@, 0),
        res.2 == last_run(q@, 0),
{
    let mut nonzero: u64 = 0;
    let mut run: u64 = 0;
    let mut longest: u64 = 0;
    let mut i: usize = 0;
    assert(q@.skip(0) =~= q@);
    while i < q.len()
        invariant
            i <= q@.len(),
            nonzero <= i,
            run <= i,
            nonzero + moves(q@.skip(i as int)) == moves(q@),
            longest_run(q@, 0) == (if longest > longest_run(q@.skip(i as int), run as nat) {
                longest as nat
            } else {
                longest_run(q@.skip(i as int), run as nat)
            }),
            last_run(q@.skip(i as int), run as nat) == last_run(q@, 0),
        decreases q@.len() - i,
    {
        let d: i64 = q[i];
        proof {
            assert(q@.skip(i as int)[0] == d);
            assert(q@.skip(i as int).skip(1) =~= q@.skip(i + 1));
        }
        if d == 0 {
            run = run + 1;
        } else {
            nonzero = nonzero + 1;
            if run > longest {
                longest = run;
            }
            run = 0;
        }
        i = i + 1;
    }
    assert(q@.skip(i as int) =~= Seq::empty());
    let trailing: u64 = run;
    if trailing > longest {
        longest = trailing;
    }
    (nonzero, longest, trailing)
}

/// The lengths of the three layouts, as the planner computes them.
pub proof fn lemma_payload_len(q: Seq<i64>)
    requires
        q.len() <= i64::MAX,
    ensures
        payload_bits(Mode::Packed, q).len() == q.len() * delta_width(q),
        payload_bits(Mode::ZeroFlag, q).len() == q.len() + moves(q) * delta_width(q),
        payload_bits(Mode::Runs, q).len() == 6 + moves(q) * (bitseq::bit_length(longest_run(q, 0))
            + delta_width(q)) + if last_run(q, 0) > 0 {
            bitseq::bit_length(longest_run(q, 0))
        } else {
            0
        },
        delta_width(q) <= 64,
        bitseq::bit_length(longest_run(q, 0)) < 64,
        moves(q) <= q.len(),
        q.len() * delta_width(q) <= 64 * q.len(),
        moves(q) * delta_width(q) <= 64 * q.len(),
        moves(q) * (bitseq::bit_length(longest_run(q, 0)) + delta_width(q)) <= 128 * q.len(),
{
    let min = smallest(q);
    let w = delta_width(q);
    let rw = bitseq::bit_length(longest_run(q, 0));
    lemma_offsets_fit(q);
    lemma_packed_len(q, min, w);
    lemma_flagged_len(q, min, w);
    lemma_runs_len(q, 0, min, w, rw);
    bitseq::lemma_bits_of_len(rw, 6);
    lemma_runs(q, 0);
    words::lemma_pow2_values();
    bitseq::lemma_bit_length_bound(longest_run(q, 0), 63);
    lemma_mul_upper_bound(q.len() as int, q.len() as int, w as int, 64);
    lemma_mul_upper_bound(moves(q) as int, q.len() as int, w as int, 64);
    lemma_mul_upper_bound(moves(q) as int, q.len() as int, (rw + w) as int, 128);
}

/// The length of a grid block.
pub proof fn lemma_grid_len(k: nat, m: Seq<i64>)
    requires
        tick_deltas(m).len() <= i64::MAX,
    ensures
        grid_code(k, m).len() == 15 + bits::sized(bits::zigzag_of(m[0])).len()
            + bits::sized(tick_of(m) as u64).len()
            + bits::sized(bits::zigzag_of(smallest(tick_deltas(m)))).len() + payload_bits(
            best_mode(tick_deltas(m)),
            tick_deltas(m),
        ).len(),
{
    let q = tick_deltas(m);
    bitseq::lemma_bits_of_len(TAG_GRID as nat, 2);
    bitseq::lemma_bits_of_len(k, 4);
    bitseq::lemma_bits_of_len(delta_width(q), 7);
    bitseq::lemma_bits_of_len(mode_number(best_mode(q)), 2);
}

/// Plans a grid block. `q` receives the tick deltas, `m` the mantissas.
pub(crate) fn plan_grid(values: &[u64], q: &mut Vec<i64>, m: &mut Vec<i64>) -> (res: Result<
    GridPlan,
    FallbackReason,
>)
    requires
        values@.len() > 0,
        256 * values@.len() <= u64::MAX,
    ensures
        match res {
            Ok(plan) => {
                let mantissas = mantissas(values@, plan.scale as nat);
                &&& grid_scale(values@) == Ok::<u32, FallbackReason>(plan.scale)
                &&& plan.plans(plan.scale as nat, mantissas)
                &&& final(q)@ == tick_deltas(mantissas)
                &&& final(m)@ == mantissas
            },
            Err(e) => grid_scale(values@) == Err::<u32, FallbackReason>(e),
        },
{
    let scale: u32 = match detect_scale(values) {
        Some(k) => k,
        None => {
            return Err(FallbackReason::NoDecimalScale);
        },
    };
    fill_mantissas(values, scale, m);
    let ghost ms = mantissas(values@, scale as nat);
    let g: u64 = fill_differences(m.as_slice(), q)?;
    let tick: u64 = if g == 0 {
        1
    } else {
        g
    };
    if tick > 1 {
        count_in_ticks(q, tick, Ghost(ms));
    } else {
        proof {
            lemma_tick(ms);
            assert forall|i: int| 0 <= i < q@.len() implies q@[i] == tick_deltas(ms)[i] by {
                assert(tick_deltas(ms)[i] * tick_of(ms) == differences(ms)[i]);
                lemma_mul_basics(tick_deltas(ms)[i] as int);
            }
            assert(q@ =~= tick_deltas(ms));
        }
    }
    let (qmin, qmax) = range_of(q.as_slice());
    proof {
        lemma_offsets_fit(q@);
        lemma_payload_len(q@);
        lemma_grid_len(scale as nat, ms);
        lemma_tick(ms);
    }
    let delta_width: u32 = width((qmax as i128 - qmin as i128) as u64);
    let n: u64 = q.len() as u64;
    let (nonzero, longest, trailing) = run_lengths(q.as_slice());
    let run_width: u32 = width(longest);
    let packed: u64 = n * delta_width as u64;
    let flagged: u64 = n + nonzero * delta_width as u64;
    let runs: u64 = 6 + nonzero * (run_width + delta_width) as u64 + if trailing > 0 {
        run_width as u64
    } else {
        0
    };
    let (mode, payload): (Mode, u64) = if packed <= flagged && packed <= runs {
        (Mode::Packed, packed)
    } else if flagged <= runs {
        (Mode::ZeroFlag, flagged)
    } else {
        (Mode::Runs, runs)
    };
    let header: u64 = 2 + 4 + sized_cost(zigzag(m[0])) + sized_cost(tick) + sized_cost(zigzag(qmin))
        + 7 + 2;
    Ok(
        GridPlan {
            scale,
            base: m[0],
            tick,
            qmin,
            width: delta_width,
            mode,
            run_width,
            bits: header + payload,
        },
    )
}

/// A plan for the mantissas `m` covers their deltas, and writes their block.
pub proof fn lemma_plan_covers(plan: GridPlan, m: Seq<i64>)
    requires
        plan.plans(plan.scale as nat, m),
        tick_deltas(m).len() <= i64::MAX,
    ensures
        plan.covers(tick_deltas(m)),
        plan.code(tick_deltas(m)) == grid_code(plan.scale as nat, m),
{
    lemma_offsets_fit(tick_deltas(m));
    lemma_payload_len(tick_deltas(m));
}

/// Appends to `w` the fields of the header of a grid block.
fn write_header(w: &mut BitWriter, plan: &GridPlan)
    requires
        old(w).wf(),
        old(w).count() + header_bits(
            plan.scale as nat,
            plan.base,
            plan.tick,
            plan.qmin,
            plan.width as nat,
            plan.mode,
        ).len() <= u64::MAX,
    ensures
        final(w).wf(),
        final(w).prefix() == old(w).prefix(),
        final(w)@ == old(w)@ + header_bits(
            plan.scale as nat,
            plan.base,
            plan.tick,
            plan.qmin,
            plan.width as nat,
            plan.mode,
        ),
{
    let mode: u64 = match plan.mode {
        Mode::Packed => 0,
        Mode::ZeroFlag => 1,
        Mode::Runs => 2,
    };
    let ghost start = w@;
    proof {
        bitseq::lemma_bits_of_len(TAG_GRID as nat, 2);
        bitseq::lemma_bits_of_len(plan.scale as nat, 4);
        bitseq::lemma_bits_of_len(plan.width as nat, 7);
        bitseq::lemma_bits_of_len(mode as nat, 2);
        assert(w.holds(start));
    }
    w.put(TAG_GRID, 2);
    assert(w.holds(w@));
    w.put(plan.scale as u64, 4);
    assert(w.holds(w@));
    put_sized(w, zigzag(plan.base));
    assert(w.holds(w@));
    put_sized(w, plan.tick);
    assert(w.holds(w@));
    put_sized(w, zigzag(plan.qmin));
    assert(w.holds(w@));
    w.put(plan.width as u64, 7);
    assert(w.holds(w@));
    w.put(mode, 2);
    assert(w@ =~= start + header_bits(
        plan.scale as nat,
        plan.base,
        plan.tick,
        plan.qmin,
        plan.width as nat,
        plan.mode,
    ));
}

/// A delta above the frame of reference.
fn offset_of(d: i64, min: i64) -> (off: u64)
    requires
        min <= d,
    ensures
        off == d - min,
{
    (d as i128 - min as i128) as u64
}

/// Writes the deltas in the layout "packed".
fn write_packed(w: &mut BitWriter, q: &[i64], min: i64, width: u32)
    requires
        old(w).wf(),
        width <= 64,
        forall|i: int| 0 <= i < q@.len() ==> min <= #[trigger] q@[i],
        old(w).count() + packed_bits(q@, min, width as nat).len() <= u64::MAX,
    ensures
        final(w).wf(),
        final(w).prefix() == old(w).prefix(),
        final(w)@ == old(w)@ + packed_bits(q@, min, width as nat),
{
    let ghost whole = w@ + packed_bits(q@, min, width as nat);
    let mut i: usize = 0;
    proof {
        w.lemma_count();
        assert(q@.skip(0) =~= q@);
    }
    while i < q.len()
        invariant
            i <= q@.len(),
            w.wf(),
            w.prefix() == old(w).prefix(),
            width <= 64,
            forall|i: int| 0 <= i < q@.len() ==> min <= #[trigger] q@[i],
            whole.len() <= u64::MAX,
            whole == w@ + packed_bits(q@.skip(i as int), min, width as nat),
        decreases q@.len() - i,
    {
        let d: i64 = q[i];
        let ghost before = w@;
        let ghost more = packed_bits(q@.skip(i + 1), min, width as nat);
        proof {
            w.lemma_count();
            assert(w.holds(w@));
            assert(q@.skip(i as int)[0] == d);
            assert(q@.skip(i as int).skip(1) =~= q@.skip(i + 1));
            bitseq::lemma_bits_of_len((d - min) as nat, width as nat);
        }
        w.put(offset_of(d, min), width);
        i = i + 1;
        assert(before + (offset_bits(d, min, width as nat) + more) =~= w@ + more);
    }
    assert(w@ + Seq::empty() =~= w@);
}

/// Writes the deltas in the layout "zero-flag".
fn write_flagged(w: &mut BitWriter, q: &[i64], min: i64, width: u32)
    requires
        old(w).wf(),
        width <= 64,
        forall|i: int| 0 <= i < q@.len() ==> min <= #[trigger] q@[i],
        old(w).count() + flagged_bits(q@, min, width as nat).len() <= u64::MAX,
    ensures
        final(w).wf(),
        final(w).prefix() == old(w).prefix(),
        final(w)@ == old(w)@ + flagged_bits(q@, min, width as nat),
{
    let ghost whole = w@ + flagged_bits(q@, min, width as nat);
    let mut i: usize = 0;
    proof {
        w.lemma_count();
        assert(q@.skip(0) =~= q@);
    }
    while i < q.len()
        invariant
            i <= q@.len(),
            w.wf(),
            w.prefix() == old(w).prefix(),
            width <= 64,
            forall|i: int| 0 <= i < q@.len() ==> min <= #[trigger] q@[i],
            whole.len() <= u64::MAX,
            whole == w@ + flagged_bits(q@.skip(i as int), min, width as nat),
        decreases q@.len() - i,
    {
        let d: i64 = q[i];
        let ghost before = w@;
        let ghost more = flagged_bits(q@.skip(i + 1), min, width as nat);
        proof {
            w.lemma_count();
            assert(w.holds(w@));
            assert(q@.skip(i as int)[0] == d);
            assert(q@.skip(i as int).skip(1) =~= q@.skip(i + 1));
            bitseq::lemma_bits_of_len((d - min) as nat, width as nat);
            bitseq::lemma_bits_of_len(0, 1);
            bitseq::lemma_bits_of_len(1, 1);
        }
        if d == 0 {
            w.put(0, 1);
            assert(before + (bitseq::bits_of(0, 1) + more) =~= w@ + more);
        } else {
            w.put(1, 1);
            assert(w.holds(w@));
            w.put(offset_of(d, min), width);
            assert(before + (bitseq::bits_of(1, 1) + offset_bits(d, min, width as nat)
                + more) =~= w@
                + more);
        }
        i = i + 1;
    }
    assert(w@ + Seq::empty() =~= w@);
}

/// Writes the deltas in the layout "zero-runs".
fn write_runs(w: &mut BitWriter, q: &[i64], min: i64, width: u32, run_width: u32)
    requires
        old(w).wf(),
        width <= 64,
        run_width <= 64,
        forall|i: int| 0 <= i < q@.len() ==> min <= #[trigger] q@[i],
        old(w).count() + runs_bits(q@, 0, min, width as nat, run_width as nat).len() <= u64::MAX,
    ensures
        final(w).wf(),
        final(w).prefix() == old(w).prefix(),
        final(w)@ == old(w)@ + runs_bits(q@, 0, min, width as nat, run_width as nat),
{
    let ghost whole = w@ + runs_bits(q@, 0, min, width as nat, run_width as nat);
    let mut run: u64 = 0;
    let mut i: usize = 0;
    proof {
        w.lemma_count();
        assert(q@.skip(0) =~= q@);
    }
    while i < q.len()
        invariant
            i <= q@.len(),
            run <= i,
            w.wf(),
            w.prefix() == old(w).prefix(),
            width <= 64,
            run_width <= 64,
            forall|i: int| 0 <= i < q@.len() ==> min <= #[trigger] q@[i],
            whole.len() <= u64::MAX,
            whole == w@ + runs_bits(
                q@.skip(i as int),
                run as nat,
                min,
                width as nat,
                run_width as nat,
            ),
        decreases q@.len() - i,
    {
        let d: i64 = q[i];
        let ghost before = w@;
        proof {
            w.lemma_count();
            assert(w.holds(w@));
            assert(q@.skip(i as int)[0] == d);
            assert(q@.skip(i as int).skip(1) =~= q@.skip(i + 1));
            bitseq::lemma_bits_of_len((d - min) as nat, width as nat);
            bitseq::lemma_bits_of_len(run as nat, run_width as nat);
        }
        if d == 0 {
            run = run + 1;
        } else {
            let ghost more = runs_bits(q@.skip(i + 1), 0, min, width as nat, run_width as nat);
            w.put(run, run_width);
            assert(w.holds(w@));
            w.put(offset_of(d, min), width);
            assert(before + (bitseq::bits_of(run as nat, run_width as nat) + offset_bits(
                d,
                min,
                width as nat,
            ) + more) =~= w@ + more);
            run = 0;
        }
        i = i + 1;
    }
    proof {
        w.lemma_count();
        bitseq::lemma_bits_of_len(run as nat, run_width as nat);
        assert(w.holds(w@));
        assert(w@ + Seq::empty() =~= w@);
    }
    if run > 0 {
        w.put(run, run_width);
    }
}

/// Writes a grid block: its header, then the tick deltas `q`.
pub(crate) fn write_grid(w: &mut BitWriter, plan: &GridPlan, q: &[i64])
    requires
        old(w).wf(),
        plan.covers(q@),
        old(w).count() + plan.code(q@).len() <= u64::MAX,
    ensures
        final(w).wf(),
        final(w).prefix() == old(w).prefix(),
        final(w)@ == old(w)@ + plan.code(q@),
{
    let ghost start = w@;
    proof {
        w.lemma_count();
        bitseq::lemma_bits_of_len(plan.run_width as nat, 6);
    }
    write_header(w, plan);
    let ghost head = w@;
    proof {
        w.lemma_count();
        assert(w.holds(w@));
    }
    match plan.mode {
        Mode::Packed => {
            write_packed(w, q, plan.qmin, plan.width);
        },
        Mode::ZeroFlag => {
            write_flagged(w, q, plan.qmin, plan.width);
        },
        Mode::Runs => {
            w.put(plan.run_width as u64, 6);
            proof {
                w.lemma_count();
            }
            write_runs(w, q, plan.qmin, plan.width, plan.run_width);
        },
    }
    assert(w@ =~= start + plan.code(q@));
}

/// What a grid block says of all its deltas.
pub struct GridFields {
    pub scale: u32,
    pub tick: i64,
    pub min: i64,
    pub width: u32,
    pub run_width: u32,
}

impl GridFields {
    /// The mantissa after `m` when the next delta lies `off` above the minimum.
    pub open spec fn step(self, m: i64, off: u64) -> i64 {
        m.wrapping_add(self.min.wrapping_add(off as i64).wrapping_mul(self.tick))
    }

    /// The value with the mantissa `m`.
    pub open spec fn value(self, m: i64) -> u64 {
        float::grid_value(m, self.scale as nat)
    }
}

/// The values that a reader gives for `n` deltas in the layout "packed" after
/// the mantissa `m`, and the bits it then has left.
pub open spec fn take_packed(g: GridFields, m: i64, s: Seq<bool>, n: nat) -> (
    Result<Seq<u64>, DecodeError>,
    Seq<bool>,
)
    decreases n,
{
    if n == 0 {
        (Ok(Seq::empty()), s)
    } else {
        match bits::take_bits(s, g.width as nat) {
            (Err(e), s) => (Err(e), s),
            (Ok(off), s) => {
                let next = g.step(m, off);
                match take_packed(g, next, s, (n - 1) as nat) {
                    (Err(e), s) => (Err(e), s),
                    (Ok(more), s) => (Ok(seq![g.value(next)] + more), s),
                }
            },
        }
    }
}

/// The values that a reader gives for `n` deltas in the layout "zero-flag".
pub open spec fn take_flagged(g: GridFields, m: i64, s: Seq<bool>, n: nat) -> (
    Result<Seq<u64>, DecodeError>,
    Seq<bool>,
)
    decreases n,
{
    if n == 0 {
        (Ok(Seq::empty()), s)
    } else {
        match bits::take_bit(s) {
            (Err(e), s) => (Err(e), s),
            (Ok(false), s) => match take_flagged(g, m, s, (n - 1) as nat) {
                (Err(e), s) => (Err(e), s),
                (Ok(more), s) => (Ok(seq![g.value(m)] + more), s),
            },
            (Ok(true), s) => match bits::take_bits(s, g.width as nat) {
                (Err(e), s) => (Err(e), s),
                (Ok(off), s) => {
                    let next = g.step(m, off);
                    match take_flagged(g, next, s, (n - 1) as nat) {
                        (Err(e), s) => (Err(e), s),
                        (Ok(more), s) => (Ok(seq![g.value(next)] + more), s),
                    }
                },
            },
        }
    }
}

/// The same value `n` times.
pub open spec fn repeated(v: u64, n: nat) -> Seq<u64> {
    Seq::new(n, |i: int| v)
}

/// The values that a reader gives for `n` deltas in the layout "zero-runs".
pub open spec fn take_runs(g: GridFields, m: i64, s: Seq<bool>, n: nat) -> (
    Result<Seq<u64>, DecodeError>,
    Seq<bool>,
)
    decreases n,
{
    if n == 0 {
        (Ok(Seq::empty()), s)
    } else {
        match bits::take_bits(s, g.run_width as nat) {
            (Err(e), s) => (Err(e), s),
            (Ok(run), s) => if run > n {
                (Err(DecodeError::Corrupt("zero run past end of block")), s)
            } else if run == n {
                (Ok(repeated(g.value(m), n)), s)
            } else {
                match bits::take_bits(s, g.width as nat) {
                    (Err(e), s) => (Err(e), s),
                    (Ok(off), s) => {
                        let next = g.step(m, off);
                        match take_runs(g, next, s, (n - run - 1) as nat) {
                            (Err(e), s) => (Err(e), s),
                            (Ok(more), s) => (
                                Ok(repeated(g.value(m), run as nat) + seq![g.value(next)] + more),
                                s,
                            ),
                        }
                    },
                }
            },
        }
    }
}

/// The values that a reader gives for `n` deltas in the layout with the number
/// `mode`.
pub open spec fn take_payload(g: GridFields, mode: u64, m: i64, s: Seq<bool>, n: nat) -> (
    Result<Seq<u64>, DecodeError>,
    Seq<bool>,
) {
    if mode == 0 {
        take_packed(g, m, s, n)
    } else if mode == 1 {
        take_flagged(g, m, s, n)
    } else if mode == 2 {
        take_runs(g, m, s, n)
    } else {
        (Err(DecodeError::Corrupt("reserved payload mode")), s)
    }
}

/// The fields that a reader gives for the header of a grid block after its tag:
/// those of [`GridFields`], the base mantissa and the number of the layout.
pub open spec fn take_header(s: Seq<bool>) -> (
    Result<(GridFields, i64, u64), DecodeError>,
    Seq<bool>,
) {
    match bits::take_bits(s, 4) {
        (Err(e), s) => (Err(e), s),
        (Ok(scale), s) => if scale > MAX_SCALE {
            (Err(DecodeError::Corrupt("scale above 12")), s)
        } else {
            match bits::take_sized(s) {
                (Err(e), s) => (Err(e), s),
                (Ok(base), s) => match bits::take_sized(s) {
                    (Err(e), s) => (Err(e), s),
                    (Ok(tick), s) => match bits::take_sized(s) {
                        (Err(e), s) => (Err(e), s),
                        (Ok(min), s) => take_layout(
                            scale as u32,
                            bits::unzigzag_of(base),
                            tick as i64,
                            bits::unzigzag_of(min),
                            s,
                        ),
                    },
                },
            }
        },
    }
}

/// The rest of the header of a grid block: the delta width, the layout, and the
/// width of the run lengths where there are any.
pub open spec fn take_layout(scale: u32, base: i64, tick: i64, min: i64, s: Seq<bool>) -> (
    Result<(GridFields, i64, u64), DecodeError>,
    Seq<bool>,
) {
    match bits::take_bits(s, 7) {
        (Err(e), s) => (Err(e), s),
        (Ok(width), s) => if width > 64 {
            (Err(DecodeError::Corrupt("delta width above 64")), s)
        } else {
            match bits::take_bits(s, 2) {
                (Err(e), s) => (Err(e), s),
                (Ok(mode), s) => {
                    let (run_width, s) = if mode == 2 {
                        bits::take_bits(s, 6)
                    } else {
                        (Ok(0), s)
                    };
                    match run_width {
                        Err(e) => (Err(e), s),
                        Ok(run_width) => (
                            Ok(
                                (
                                    GridFields {
                                        scale,
                                        tick,
                                        min,
                                        width: width as u32,
                                        run_width: run_width as u32,
                                    },
                                    base,
                                    mode,
                                ),
                            ),
                            s,
                        ),
                    }
                },
            }
        },
    }
}

/// The values that a reader gives for a grid block of `len` values after its
/// tag, and the bits it then has left.
pub open spec fn take_grid(s: Seq<bool>, len: nat) -> (Result<Seq<u64>, DecodeError>, Seq<bool>) {
    match take_header(s) {
        (Err(e), s) => (Err(e), s),
        (Ok((g, base, mode)), s) => match take_payload(g, mode, base, s, (len - 1) as nat) {
            (Err(e), s) => (Err(e), s),
            (Ok(more), s) => (Ok(seq![g.value(base)] + more), s),
        },
    }
}

/// The mantissa after `m` when the next delta lies `off` above the minimum.
fn next_mantissa(g: &GridFields, m: i64, off: u64) -> (next: i64)
    ensures
        next == g.step(m, off),
{
    m.wrapping_add(g.min.wrapping_add(off as i64).wrapping_mul(g.tick))
}

/// Reads `n` deltas in the layout "packed" and appends their values to `out`.
fn read_packed(r: &mut BitReader, g: &GridFields, base: i64, n: u64, out: &mut Vec<u64>) -> (res:
    Result<(), DecodeError>)
    requires
        old(r).wf(),
        g.scale <= MAX_SCALE,
    ensures
        final(r).wf(),
        match take_packed(*g, base, old(r)@, n as nat) {
            (Ok(xs), s) => res is Ok && final(r)@ == s && final(out)@ == old(out)@ + xs,
            (Err(e), s) => res == Err::<(), DecodeError>(e) && final(r)@ == s,
        },
{
    let ghost whole = take_packed(*g, base, r@, n as nat);
    let mut m: i64 = base;
    let mut i: u64 = 0;
    while i < n
        invariant
            i <= n,
            r.wf(),
            g.scale <= MAX_SCALE,
            whole == take_packed(*g, base, old(r)@, n as nat),
            match take_packed(*g, m, r@, (n - i) as nat) {
                (Ok(xs), s) => match whole {
                    (Ok(all), rest) => rest == s && old(out)@ + all == out@ + xs,
                    (Err(e), _) => false,
                },
                (Err(e), s) => whole == (Err::<Seq<u64>, DecodeError>(e), s),
            },
        decreases n - i,
    {
        let ghost before = out@;
        let off: u64 = r.read(g.width)?;
        m = next_mantissa(g, m, off);
        out.push(grid_bits(m, g.scale));
        i = i + 1;
        proof {
            if let (Ok(xs), _) = take_packed(*g, m, r@, (n - i) as nat) {
                assert(before + (seq![g.value(m)] + xs) =~= out@ + xs);
            }
        }
    }
    assert(out@ + Seq::empty() =~= out@);
    Ok(())
}

/// Reads `n` deltas in the layout "zero-flag" and appends their values to `out`.
fn read_flagged(r: &mut BitReader, g: &GridFields, base: i64, n: u64, out: &mut Vec<u64>) -> (res:
    Result<(), DecodeError>)
    requires
        old(r).wf(),
        g.scale <= MAX_SCALE,
    ensures
        final(r).wf(),
        match take_flagged(*g, base, old(r)@, n as nat) {
            (Ok(xs), s) => res is Ok && final(r)@ == s && final(out)@ == old(out)@ + xs,
            (Err(e), s) => res == Err::<(), DecodeError>(e) && final(r)@ == s,
        },
{
    let ghost whole = take_flagged(*g, base, r@, n as nat);
    let mut m: i64 = base;
    let mut i: u64 = 0;
    while i < n
        invariant
            i <= n,
            r.wf(),
            g.scale <= MAX_SCALE,
            whole == take_flagged(*g, base, old(r)@, n as nat),
            match take_flagged(*g, m, r@, (n - i) as nat) {
                (Ok(xs), s) => match whole {
                    (Ok(all), rest) => rest == s && old(out)@ + all == out@ + xs,
                    (Err(e), _) => false,
                },
                (Err(e), s) => whole == (Err::<Seq<u64>, DecodeError>(e), s),
            },
        decreases n - i,
    {
        let ghost before = out@;
        let moved: bool = r.read_bit()?;
        if moved {
            let off: u64 = r.read(g.width)?;
            m = next_mantissa(g, m, off);
        }
        out.push(grid_bits(m, g.scale));
        i = i + 1;
        proof {
            if let (Ok(xs), _) = take_flagged(*g, m, r@, (n - i) as nat) {
                assert(before + (seq![g.value(m)] + xs) =~= out@ + xs);
            }
        }
    }
    assert(out@ + Seq::empty() =~= out@);
    Ok(())
}

/// Appends `v` to `out`, `n` times.
fn push_repeated(out: &mut Vec<u64>, v: u64, n: u64)
    ensures
        final(out)@ == old(out)@ + repeated(v, n as nat),
{
    let mut i: u64 = 0;
    while i < n
        invariant
            i <= n,
            out@ =~= old(out)@ + repeated(v, i as nat),
        decreases n - i,
    {
        out.push(v);
        i = i + 1;
    }
}

/// Reads `n` deltas in the layout "zero-runs" and appends their values to `out`.
fn read_runs(r: &mut BitReader, g: &GridFields, base: i64, n: u64, out: &mut Vec<u64>) -> (res:
    Result<(), DecodeError>)
    requires
        old(r).wf(),
        g.scale <= MAX_SCALE,
    ensures
        final(r).wf(),
        match take_runs(*g, base, old(r)@, n as nat) {
            (Ok(xs), s) => res is Ok && final(r)@ == s && final(out)@ == old(out)@ + xs,
            (Err(e), s) => res == Err::<(), DecodeError>(e) && final(r)@ == s,
        },
{
    let ghost whole = take_runs(*g, base, r@, n as nat);
    let mut m: i64 = base;
    let mut i: u64 = 0;
    while i < n
        invariant
            i <= n,
            r.wf(),
            g.scale <= MAX_SCALE,
            whole == take_runs(*g, base, old(r)@, n as nat),
            match take_runs(*g, m, r@, (n - i) as nat) {
                (Ok(xs), s) => match whole {
                    (Ok(all), rest) => rest == s && old(out)@ + all == out@ + xs,
                    (Err(e), _) => false,
                },
                (Err(e), s) => whole == (Err::<Seq<u64>, DecodeError>(e), s),
            },
        decreases n - i,
    {
        let ghost before = out@;
        let run: u64 = r.read(g.run_width)?;
        if run > n - i {
            return Err(DecodeError::Corrupt("zero run past end of block"));
        }
        push_repeated(out, grid_bits(m, g.scale), run);
        let ghost flat = repeated(g.value(m), run as nat);
        if run == n - i {
            proof {
                assert(before + flat =~= out@);
            }
            return Ok(());
        }
        let off: u64 = r.read(g.width)?;
        m = next_mantissa(g, m, off);
        out.push(grid_bits(m, g.scale));
        i = i + run + 1;
        proof {
            if let (Ok(xs), _) = take_runs(*g, m, r@, (n - i) as nat) {
                assert(before + (flat + seq![g.value(m)] + xs) =~= out@ + xs);
            }
        }
    }
    assert(out@ + Seq::empty() =~= out@);
    Ok(())
}

/// Reads the header of a grid block after its tag.
fn read_header(r: &mut BitReader) -> (res: Result<(GridFields, i64, u64), DecodeError>)
    requires
        old(r).wf(),
    ensures
        final(r).wf(),
        (res, final(r)@) == take_header(old(r)@),
        res matches Ok((g, _, _)) ==> g.scale <= MAX_SCALE,
{
    let scale: u64 = r.read(4)?;
    if scale > MAX_SCALE as u64 {
        return Err(DecodeError::Corrupt("scale above 12"));
    }
    let base: i64 = unzigzag(get_sized(r)?);
    let tick: i64 = get_sized(r)? as i64;
    let min: i64 = unzigzag(get_sized(r)?);
    let width: u64 = r.read(7)?;
    if width > 64 {
        return Err(DecodeError::Corrupt("delta width above 64"));
    }
    let mode: u64 = r.read(2)?;
    let run_width: u32 = if mode == 2 {
        r.read(6)? as u32
    } else {
        0
    };
    Ok(
        (
            GridFields { scale: scale as u32, tick, min, width: width as u32, run_width },
            base,
            mode,
        ),
    )
}

/// Reads a grid block of `len` values after its tag and appends them to `out`.
pub(crate) fn decode_grid(r: &mut BitReader, len: u64, out: &mut Vec<u64>) -> (res: Result<
    (),
    DecodeError,
>)
    requires
        old(r).wf(),
        len > 0,
    ensures
        final(r).wf(),
        match take_grid(old(r)@, len as nat) {
            (Ok(xs), s) => res is Ok && final(r)@ == s && final(out)@ == old(out)@ + xs,
            (Err(e), s) => res == Err::<(), DecodeError>(e) && final(r)@ == s,
        },
{
    let (g, base, mode) = read_header(r)?;
    let ghost payload = take_payload(g, mode, base, r@, (len - 1) as nat);
    out.push(grid_bits(base, g.scale));
    let deltas: u64 = len - 1;
    if mode == 0 {
        read_packed(r, &g, base, deltas, out)?;
    } else if mode == 1 {
        read_flagged(r, &g, base, deltas, out)?;
    } else if mode == 2 {
        read_runs(r, &g, base, deltas, out)?;
    } else {
        return Err(DecodeError::Corrupt("reserved payload mode"));
    }
    proof {
        let more = payload.0->Ok_0;
        assert(old(out)@ + (seq![g.value(base)] + more) =~= old(out)@.push(g.value(base)) + more);
    }
    Ok(())
}

/// The values with the mantissas `ms`.
pub open spec fn values_of(g: GridFields, ms: Seq<i64>) -> Seq<u64> {
    Seq::new(ms.len(), |i: int| g.value(ms[i]))
}

/// The mantissas `ms` start anywhere and move by `q` ticks of `tick`, and the
/// fields `g` hold the tick, the minimum and a width for every delta.
pub open spec fn describes(g: GridFields, ms: Seq<i64>, q: Seq<i64>, tick: nat) -> bool {
    &&& tick <= u64::MAX
    &&& g.tick == tick as u64 as i64
    &&& g.width <= 64
    &&& ms.len() == q.len() + 1
    &&& forall|i: int| 0 <= i < q.len() ==> #[trigger] q[i] * tick == ms[i + 1] - ms[i]
    &&& forall|i: int|
        0 <= i < q.len() ==> g.min <= #[trigger] q[i] && q[i] - g.min < pow2(g.width as nat)
}

proof fn lemma_describes_tail(g: GridFields, ms: Seq<i64>, q: Seq<i64>, tick: nat)
    requires
        describes(g, ms, q, tick),
        q.len() > 0,
    ensures
        describes(g, ms.skip(1), q.skip(1), tick),
        q[0] * tick == ms[1] - ms[0],
        g.min <= q[0],
        q[0] - g.min < pow2(g.width as nat),
        pow2(g.width as nat) <= pow2(64),
        values_of(g, ms.skip(1)) == seq![g.value(ms[1])] + values_of(g, ms.skip(1).skip(1)),
{
    let (m1, q1) = (ms.skip(1), q.skip(1));
    assert forall|i: int| 0 <= i < q1.len() implies #[trigger] q1[i] * tick == m1[i
        + 1] - m1[i] by {
        assert(q[i + 1] * tick == ms[i + 2] - ms[i + 1]);
    }
    assert forall|i: int| 0 <= i < q1.len() implies g.min <= #[trigger] q1[i] && q1[i] - g.min
        < pow2(g.width as nat) by {
        assert(q[i + 1] == q1[i]);
    }
    words::lemma_pow2_le(g.width as nat, 64);
    assert(values_of(g, m1) =~= seq![g.value(ms[1])] + values_of(g, m1.skip(1)));
}

/// Adding the delta `d` back, from its offset, gives the next mantissa.
proof fn lemma_step(g: GridFields, m: i64, next: i64, d: i64, tick: nat)
    requires
        tick <= u64::MAX,
        g.tick == tick as u64 as i64,
        g.min <= d,
        d * tick == next - m,
    ensures
        g.step(m, (d - g.min) as u64) == next,
{
    let off = (d - g.min) as u64;
    words::lemma_as_i64(off);
    words::lemma_as_i64(tick as u64);
    assert(g.min.wrapping_add(off as i64) == d);
    let range = 0x1_0000_0000_0000_0000int;
    let (di, ti, gt) = (d as int, tick as int, g.tick as int);
    let wraps = if gt == ti {
        0int
    } else {
        -di
    };
    assert(di * gt == di * ti + wraps * range) by (nonlinear_arith)
        requires
            gt == ti && wraps == 0 || gt == ti - range && wraps == -di,
    ;
    lemma_mod_multiples_vanish(wraps, di * ti, range);
    lemma_mul_is_commutative(wraps, range);
    let move_by = next - m;
    if move_by >= 0 {
        if move_by < range {
            lemma_small_mod(move_by as nat, range as nat);
        }
    } else {
        lemma_mod_multiples_vanish(1, move_by, range);
        if move_by + range >= 0 {
            lemma_small_mod((move_by + range) as nat, range as nat);
        }
    }
}

proof fn lemma_packed_reads_back(
    g: GridFields,
    ms: Seq<i64>,
    q: Seq<i64>,
    tick: nat,
    rest: Seq<bool>,
)
    requires
        describes(g, ms, q, tick),
    ensures
        take_packed(g, ms[0], packed_bits(q, g.min, g.width as nat) + rest, q.len()) == (
            Ok::<Seq<u64>, DecodeError>(values_of(g, ms.skip(1))),
            rest,
        ),
    decreases q.len(),
{
    let w = g.width as nat;
    let s = packed_bits(q, g.min, w) + rest;
    if q.len() == 0 {
        assert(s =~= rest);
        assert(values_of(g, ms.skip(1)) =~= Seq::empty());
    } else {
        let tail = packed_bits(q.skip(1), g.min, w) + rest;
        lemma_describes_tail(g, ms, q, tick);
        words::lemma_pow2_values();
        assert(s =~= offset_bits(q[0], g.min, w) + tail);
        bits::bits_read_back((q[0] - g.min) as u64, w, tail);
        lemma_step(g, ms[0], ms[1], q[0], tick);
        lemma_packed_reads_back(g, ms.skip(1), q.skip(1), tick, rest);
    }
}

proof fn lemma_flagged_reads_back(
    g: GridFields,
    ms: Seq<i64>,
    q: Seq<i64>,
    tick: nat,
    rest: Seq<bool>,
)
    requires
        describes(g, ms, q, tick),
    ensures
        take_flagged(g, ms[0], flagged_bits(q, g.min, g.width as nat) + rest, q.len()) == (
            Ok::<Seq<u64>, DecodeError>(values_of(g, ms.skip(1))),
            rest,
        ),
    decreases q.len(),
{
    let w = g.width as nat;
    let s = flagged_bits(q, g.min, w) + rest;
    if q.len() == 0 {
        assert(s =~= rest);
        assert(values_of(g, ms.skip(1)) =~= Seq::empty());
    } else {
        let tail = flagged_bits(q.skip(1), g.min, w) + rest;
        lemma_describes_tail(g, ms, q, tick);
        words::lemma_pow2_values();
        lemma_flag_bits();
        lemma_flagged_reads_back(g, ms.skip(1), q.skip(1), tick, rest);
        if q[0] == 0 {
            lemma_mul_basics(tick as int);
            assert(s =~= seq![false] + tail);
            bits::bit_reads_back(false, tail);
        } else {
            let body = offset_bits(q[0], g.min, w) + tail;
            assert(s =~= seq![true] + body);
            bits::bit_reads_back(true, body);
            bits::bits_read_back((q[0] - g.min) as u64, w, tail);
            lemma_step(g, ms[0], ms[1], q[0], tick);
        }
    }
}

/// A flag is one bit.
proof fn lemma_flag_bits()
    ensures
        bitseq::bits_of(0, 1) == seq![false],
        bitseq::bits_of(1, 1) == seq![true],
{
    bitseq::lemma_bits_of_len(0, 0);
    bitseq::lemma_bits_of_len(1, 0);
    assert(bitseq::bits_of(0, 1) =~= seq![false]);
    assert(bitseq::bits_of(1, 1) =~= seq![true]);
}

/// Reading a run of zeros, the delta that ends it, and what follows.
proof fn lemma_take_run(
    g: GridFields,
    m: i64,
    run: nat,
    off: u64,
    s: Seq<bool>,
    left: nat,
    more: Seq<u64>,
    rest: Seq<bool>,
)
    requires
        g.width <= 64,
        g.run_width <= 64,
        run < pow2(g.run_width as nat),
        run <= u64::MAX,
        off < pow2(g.width as nat),
        take_runs(g, g.step(m, off), s, left) == (Ok::<Seq<u64>, DecodeError>(more), rest),
    ensures
        take_runs(
            g,
            m,
            bitseq::bits_of(run, g.run_width as nat) + (bitseq::bits_of(off as nat, g.width as nat)
                + s),
            run + 1 + left,
        ) == (
            Ok::<Seq<u64>, DecodeError>(
                repeated(g.value(m), run) + seq![g.value(g.step(m, off))] + more,
            ),
            rest,
        ),
{
    let body = bitseq::bits_of(off as nat, g.width as nat) + s;
    bits::bits_read_back(run as u64, g.run_width as nat, body);
    bits::bits_read_back(off, g.width as nat, s);
}

proof fn lemma_runs_read_back(
    g: GridFields,
    ms: Seq<i64>,
    q: Seq<i64>,
    tick: nat,
    run: nat,
    rest: Seq<bool>,
)
    requires
        describes(g, ms, q, tick),
        g.run_width <= 64,
        longest_run(q, run) < pow2(g.run_width as nat),
    ensures
        take_runs(
            g,
            ms[0],
            runs_bits(q, run, g.min, g.width as nat, g.run_width as nat) + rest,
            run + q.len(),
        ) == (
            Ok::<Seq<u64>, DecodeError>(
                repeated(g.value(ms[0]), run) + values_of(g, ms.skip(1)),
            ),
            rest,
        ),
    decreases q.len(),
{
    let w = g.width as nat;
    let rw = g.run_width as nat;
    let v = g.value(ms[0]);
    let s = runs_bits(q, run, g.min, w, rw) + rest;
    lemma_runs(q, run);
    assert(pow2(rw) <= pow2(64) && pow2(64) == u64::MAX + 1) by {
        words::lemma_pow2_values();
        words::lemma_pow2_le(rw, 64);
    }
    if q.len() == 0 {
        assert(values_of(g, ms.skip(1)) =~= Seq::empty());
        assert(repeated(v, run) + values_of(g, ms.skip(1)) =~= repeated(v, run));
        if run > 0 {
            bits::bits_read_back(run as u64, rw, rest);
        } else {
            assert(s =~= rest);
            assert(repeated(v, run) =~= Seq::empty());
        }
    } else {
        let (m1, q1) = (ms.skip(1), q.skip(1));
        lemma_describes_tail(g, ms, q, tick);
        if q[0] == 0 {
            lemma_mul_basics(tick as int);
            lemma_runs_read_back(g, m1, q1, tick, run + 1, rest);
            assert(repeated(v, run + 1) + values_of(g, m1.skip(1)) =~= repeated(v, run) + values_of(
                g,
                m1,
            ));
        } else {
            let off = (q[0] - g.min) as u64;
            let tail = runs_bits(q1, 0, g.min, w, rw) + rest;
            let more = repeated(g.value(ms[1]), 0) + values_of(g, m1.skip(1));
            lemma_step(g, ms[0], ms[1], q[0], tick);
            lemma_runs_read_back(g, m1, q1, tick, 0, rest);
            lemma_take_run(g, ms[0], run, off, tail, q1.len(), more, rest);
            assert(s =~= bitseq::bits_of(run, rw) + (bitseq::bits_of(off as nat, w) + tail));
            assert(repeated(v, run) + seq![g.value(ms[1])] + more =~= repeated(v, run) + values_of(
                g,
                m1,
            ));
        }
    }
}

/// The fields of the block with the tick deltas `q`, in its shortest layout.
pub open spec fn fields_of(k: nat, m: Seq<i64>) -> GridFields {
    let q = tick_deltas(m);
    GridFields {
        scale: k as u32,
        tick: tick_of(m) as u64 as i64,
        min: smallest(q),
        width: delta_width(q) as u32,
        run_width: if best_mode(q) == Mode::Runs {
            bitseq::bit_length(longest_run(q, 0)) as u32
        } else {
            0
        },
    }
}

/// The bits of a grid block that come after its tag and its header.
pub open spec fn body_bits(m: Seq<i64>) -> Seq<bool> {
    let q = tick_deltas(m);
    let (min, w, rw) = (smallest(q), delta_width(q), bitseq::bit_length(longest_run(q, 0)));
    match best_mode(q) {
        Mode::Packed => packed_bits(q, min, w),
        Mode::ZeroFlag => flagged_bits(q, min, w),
        Mode::Runs => runs_bits(q, 0, min, w, rw),
    }
}

/// The delta width, the layout and the width of the run lengths read back.
proof fn lemma_layout_reads_back(k: nat, m: Seq<i64>, rest: Seq<bool>)
    requires
        k <= 12,
        tick_deltas(m).len() <= i64::MAX,
    ensures
        take_layout(
            k as u32,
            m[0],
            tick_of(m) as u64 as i64,
            smallest(tick_deltas(m)),
            bitseq::bits_of(delta_width(tick_deltas(m)), 7) + bitseq::bits_of(
                mode_number(best_mode(tick_deltas(m))),
                2,
            ) + payload_bits(best_mode(tick_deltas(m)), tick_deltas(m)) + rest,
        ) == (
            Ok::<(GridFields, i64, u64), DecodeError>(
                (fields_of(k, m), m[0], mode_number(best_mode(tick_deltas(m))) as u64),
            ),
            body_bits(m) + rest,
        ),
{
    let q = tick_deltas(m);
    let mode = best_mode(q);
    let w = delta_width(q);
    let rw = bitseq::bit_length(longest_run(q, 0));
    let payload = payload_bits(mode, q);
    lemma_payload_len(q);
    words::lemma_pow2_values();
    let s = bitseq::bits_of(w, 7) + bitseq::bits_of(mode_number(mode), 2) + payload + rest;
    let s1 = bitseq::bits_of(mode_number(mode), 2) + (payload + rest);
    assert(s =~= bitseq::bits_of(w, 7) + s1);
    bits::bits_read_back(w as u64, 7, s1);
    bits::bits_read_back(mode_number(mode) as u64, 2, payload + rest);
    if mode == Mode::Runs {
        assert(payload + rest =~= bitseq::bits_of(rw, 6) + (body_bits(m) + rest));
        bits::bits_read_back(rw as u64, 6, body_bits(m) + rest);
    }
}

/// A list of parts, joined from the front or from the back.
proof fn lemma_regroup(
    a: Seq<bool>,
    b: Seq<bool>,
    c: Seq<bool>,
    d: Seq<bool>,
    e: Seq<bool>,
    f: Seq<bool>,
    g: Seq<bool>,
    h: Seq<bool>,
    rest: Seq<bool>,
)
    ensures
        (a + b + c + d + e + f + g) + h + rest == a + (b + (c + (d + (e + (f + g + h + rest))))),
{
    assert((a + b + c + d + e + f + g) + h + rest =~= a + (b + (c + (d + (e + (f + g + h
        + rest))))));
}

/// A header is read field by field.
proof fn lemma_header_fields(
    s: Seq<bool>,
    scale: (u64, Seq<bool>),
    base: (u64, Seq<bool>),
    tick: (u64, Seq<bool>),
    min: (u64, Seq<bool>),
)
    requires
        scale.0 <= MAX_SCALE,
        bits::take_bits(s, 4) == (Ok::<u64, DecodeError>(scale.0), scale.1),
        bits::take_sized(scale.1) == (Ok::<u64, DecodeError>(base.0), base.1),
        bits::take_sized(base.1) == (Ok::<u64, DecodeError>(tick.0), tick.1),
        bits::take_sized(tick.1) == (Ok::<u64, DecodeError>(min.0), min.1),
    ensures
        take_header(s) == take_layout(
            scale.0 as u32,
            bits::unzigzag_of(base.0),
            tick.0 as i64,
            bits::unzigzag_of(min.0),
            min.1,
        ),
{
}

/// The fields of a header up to the delta width read back.
proof fn lemma_fields_read_back(k: nat, base: u64, tick: u64, min: u64, s: Seq<bool>)
    requires
        k <= 12,
    ensures
        take_header(bitseq::bits_of(k, 4) + (bits::sized(base) + (bits::sized(tick)
            + (bits::sized(min) + s)))) == take_layout(
            k as u32,
            bits::unzigzag_of(base),
            tick as i64,
            bits::unzigzag_of(min),
            s,
        ),
{
    let s2 = bits::sized(min) + s;
    let s1 = bits::sized(tick) + s2;
    let s0 = bits::sized(base) + s1;
    let all = bitseq::bits_of(k, 4) + s0;
    assert(bits::take_bits(all, 4) == (Ok::<u64, DecodeError>(k as u64), s0)) by {
        words::lemma_pow2_values();
        bits::bits_read_back(k as u64, 4, s0);
    }
    assert(bits::take_sized(s0) == (Ok::<u64, DecodeError>(base), s1)) by {
        bits::sized_reads_back(base, s1);
    }
    assert(bits::take_sized(s1) == (Ok::<u64, DecodeError>(tick), s2)) by {
        bits::sized_reads_back(tick, s2);
    }
    assert(bits::take_sized(s2) == (Ok::<u64, DecodeError>(min), s)) by {
        bits::sized_reads_back(min, s);
    }
    lemma_header_fields(all, (k as u64, s0), (base, s1), (tick, s2), (min, s));
}

/// The tag and the header of a grid block read back.
proof fn lemma_header_reads_back(k: nat, m: Seq<i64>, rest: Seq<bool>)
    requires
        k <= 12,
        tick_deltas(m).len() <= i64::MAX,
    ensures
        bits::take_bits(grid_code(k, m) + rest, 2).0 == Ok::<u64, DecodeError>(TAG_GRID),
        take_header(bits::take_bits(grid_code(k, m) + rest, 2).1) == (
            Ok::<(GridFields, i64, u64), DecodeError>(
                (fields_of(k, m), m[0], mode_number(best_mode(tick_deltas(m))) as u64),
            ),
            body_bits(m) + rest,
        ),
{
    let q = tick_deltas(m);
    let (tag, scale) = (bitseq::bits_of(TAG_GRID as nat, 2), bitseq::bits_of(k, 4));
    let (base, tick, min) = (bits::zigzag_of(m[0]), tick_of(m) as u64,
        bits::zigzag_of(smallest(q)));
    let (width, mode) = (bitseq::bits_of(delta_width(q), 7),
        bitseq::bits_of(mode_number(best_mode(q)), 2));
    let payload = payload_bits(best_mode(q), q);
    let s = width + mode + payload + rest;
    let tail = scale + (bits::sized(base) + (bits::sized(tick) + (bits::sized(min) + s)));
    assert(grid_code(k, m) + rest == tag + tail) by {
        lemma_regroup(tag, scale, bits::sized(base), bits::sized(tick), bits::sized(min), width,
            mode, payload, rest);
    }
    assert(bits::take_bits(tag + tail, 2) == (Ok::<u64, DecodeError>(TAG_GRID), tail)) by {
        words::lemma_pow2_values();
        bits::bits_read_back(TAG_GRID, 2, tail);
    }
    lemma_fields_read_back(k, base, tick, min, s);
    bits::zigzag_is_a_bijection(m[0], 0);
    bits::zigzag_is_a_bijection(smallest(q), 0);
    lemma_layout_reads_back(k, m, rest);
}

/// The deltas of a grid block read back as the values of its mantissas.
proof fn lemma_body_reads_back(k: nat, m: Seq<i64>, rest: Seq<bool>)
    requires
        m.len() > 0,
        differences_fit(m),
        m.len() <= i64::MAX,
    ensures
        take_payload(
            fields_of(k, m),
            mode_number(best_mode(tick_deltas(m))) as u64,
            m[0],
            body_bits(m) + rest,
            (m.len() - 1) as nat,
        ) == (
            Ok::<Seq<u64>, DecodeError>(values_of(fields_of(k, m), m.skip(1))),
            rest,
        ),
{
    let q = tick_deltas(m);
    let g = fields_of(k, m);
    let tick = tick_of(m);
    lemma_tick(m);
    lemma_offsets_fit(q);
    lemma_payload_len(q);
    assert(describes(g, m, q, tick)) by {
        assert forall|i: int| 0 <= i < q.len() implies #[trigger] q[i] * tick == m[i + 1]
            - m[i] by {
            assert(q[i] * tick == differences(m)[i]);
        }
    }
    match best_mode(q) {
        Mode::Packed => {
            lemma_packed_reads_back(g, m, q, tick, rest);
        },
        Mode::ZeroFlag => {
            lemma_flagged_reads_back(g, m, q, tick, rest);
        },
        Mode::Runs => {
            bitseq::lemma_bit_length(longest_run(q, 0));
            lemma_runs_read_back(g, m, q, tick, 0, rest);
            assert(repeated(g.value(m[0]), 0) + values_of(g, m.skip(1)) =~= values_of(
                g,
                m.skip(1),
            ));
        },
    }
}

/// A grid block reads back: after its tag, reading as many values as it holds
/// gives every one of them, bit for bit.
pub proof fn grid_block_reads_back(values: Seq<u64>, rest: Seq<bool>)
    requires
        values.len() > 0,
        values.len() <= i64::MAX,
        grid_scale(values) is Ok,
    ensures
        ({
            let k = grid_scale(values)->Ok_0 as nat;
            let code = grid_code(k, mantissas(values, k)) + rest;
            &&& bits::take_bits(code, 2).0 == Ok::<u64, DecodeError>(TAG_GRID)
            &&& take_grid(bits::take_bits(code, 2).1, values.len()) == (
                Ok::<Seq<u64>, DecodeError>(values),
                rest,
            )
        }),
{
    let k = grid_scale(values)->Ok_0 as nat;
    lemma_scale(values, 0);
    let m = mantissas(values, k);
    let g = fields_of(k, m);
    lemma_header_reads_back(k, m, rest);
    lemma_body_reads_back(k, m, rest);
    assert forall|i: int| 0 <= i < values.len() implies g.value(#[trigger] m[i]) == values[i] by {
        assert(float::mantissa_of(values[i], k) is Some);
    }
    assert(seq![g.value(m[0])] + values_of(g, m.skip(1)) =~= values);
}

/// A scale that is found is one at which every value is exact.
pub proof fn lemma_scale(values: Seq<u64>, k: nat)
    ensures
        price::scale_from(values, k) matches Some(j) ==> k <= j <= 12
            && price::all_exact(values, j as nat),
    decreases 13 - k,
{
    if k <= 12 {
        lemma_scale(values, k + 1);
    }
}

/// Bits after those that are read do not change what is read.
proof fn lemma_take_packed_prefix(g: GridFields, m: i64, s: Seq<bool>, t: Seq<bool>, n: nat)
    requires
        !bits::at_end(take_packed(g, m, s, n).0),
    ensures
        take_packed(g, m, s + t, n) == (
            take_packed(g, m, s, n).0,
            take_packed(g, m, s, n).1 + t,
        ),
        take_packed(g, m, s, n).0 matches Ok(xs) ==> xs.len() == n,
    decreases n,
{
    if n > 0 {
        bits::lemma_bits_prefix(s, t, g.width as nat);
        let (off, s1) = bits::take_bits(s, g.width as nat);
        lemma_take_packed_prefix(g, g.step(m, off->Ok_0), s1, t, (n - 1) as nat);
    }
}

/// Bits after those that are read do not change what is read.
proof fn lemma_take_flagged_prefix(g: GridFields, m: i64, s: Seq<bool>, t: Seq<bool>, n: nat)
    requires
        !bits::at_end(take_flagged(g, m, s, n).0),
    ensures
        take_flagged(g, m, s + t, n) == (
            take_flagged(g, m, s, n).0,
            take_flagged(g, m, s, n).1 + t,
        ),
        take_flagged(g, m, s, n).0 matches Ok(xs) ==> xs.len() == n,
    decreases n,
{
    if n > 0 {
        bits::lemma_bit_prefix(s, t);
        let (moved, s1) = bits::take_bit(s);
        if moved->Ok_0 {
            bits::lemma_bits_prefix(s1, t, g.width as nat);
            let (off, s2) = bits::take_bits(s1, g.width as nat);
            lemma_take_flagged_prefix(g, g.step(m, off->Ok_0), s2, t, (n - 1) as nat);
        } else {
            lemma_take_flagged_prefix(g, m, s1, t, (n - 1) as nat);
        }
    }
}

/// Bits after those that are read do not change what is read.
proof fn lemma_take_runs_prefix(g: GridFields, m: i64, s: Seq<bool>, t: Seq<bool>, n: nat)
    requires
        !bits::at_end(take_runs(g, m, s, n).0),
    ensures
        take_runs(g, m, s + t, n) == (take_runs(g, m, s, n).0, take_runs(g, m, s, n).1 + t),
        take_runs(g, m, s, n).0 matches Ok(xs) ==> xs.len() == n,
    decreases n,
{
    if n > 0 {
        bits::lemma_bits_prefix(s, t, g.run_width as nat);
        let (run, s1) = bits::take_bits(s, g.run_width as nat);
        if run->Ok_0 < n {
            bits::lemma_bits_prefix(s1, t, g.width as nat);
            let (off, s2) = bits::take_bits(s1, g.width as nat);
            lemma_take_runs_prefix(
                g,
                g.step(m, off->Ok_0),
                s2,
                t,
                (n - run->Ok_0 - 1) as nat,
            );
        }
    }
}

/// Bits after those that are read do not change what is read.
proof fn lemma_take_header_prefix(s: Seq<bool>, t: Seq<bool>)
    requires
        !bits::at_end(take_header(s).0),
    ensures
        take_header(s + t) == (take_header(s).0, take_header(s).1 + t),
{
    bits::lemma_bits_prefix(s, t, 4);
    let (scale, s0) = bits::take_bits(s, 4);
    if scale->Ok_0 <= MAX_SCALE {
        bits::lemma_sized_prefix(s0, t);
        let (base, s1) = bits::take_sized(s0);
        if base is Ok {
            bits::lemma_sized_prefix(s1, t);
            let (tick, s2) = bits::take_sized(s1);
            if tick is Ok {
                bits::lemma_sized_prefix(s2, t);
                let (min, s3) = bits::take_sized(s2);
                if min is Ok {
                    lemma_take_layout_prefix(
                        scale->Ok_0 as u32,
                        bits::unzigzag_of(base->Ok_0),
                        tick->Ok_0 as i64,
                        bits::unzigzag_of(min->Ok_0),
                        s3,
                        t,
                    );
                }
            }
        }
    }
}

/// Bits after those that are read do not change what is read.
proof fn lemma_take_layout_prefix(
    scale: u32,
    base: i64,
    tick: i64,
    min: i64,
    s: Seq<bool>,
    t: Seq<bool>,
)
    requires
        !bits::at_end(take_layout(scale, base, tick, min, s).0),
    ensures
        take_layout(scale, base, tick, min, s + t) == (
            take_layout(scale, base, tick, min, s).0,
            take_layout(scale, base, tick, min, s).1 + t,
        ),
{
    bits::lemma_bits_prefix(s, t, 7);
    let (width, s1) = bits::take_bits(s, 7);
    if width->Ok_0 <= 64 {
        bits::lemma_bits_prefix(s1, t, 2);
        let (mode, s2) = bits::take_bits(s1, 2);
        if mode->Ok_0 == 2 {
            bits::lemma_bits_prefix(s2, t, 6);
        }
    }
}

/// Bits after those that are read do not change what is read.
pub proof fn lemma_take_grid_prefix(s: Seq<bool>, t: Seq<bool>, len: nat)
    requires
        !bits::at_end(take_grid(s, len).0),
        len > 0,
    ensures
        take_grid(s + t, len) == (take_grid(s, len).0, take_grid(s, len).1 + t),
        take_grid(s, len).0 matches Ok(xs) ==> xs.len() == len,
{
    lemma_take_header_prefix(s, t);
    if let (Ok((g, base, mode)), s1) = take_header(s) {
        let n = (len - 1) as nat;
        if mode == 0 {
            lemma_take_packed_prefix(g, base, s1, t, n);
        } else if mode == 1 {
            lemma_take_flagged_prefix(g, base, s1, t, n);
        } else if mode == 2 {
            lemma_take_runs_prefix(g, base, s1, t, n);
        }
    }
}

/// Mantissas that move by steps of `tick` give back a tick: `tick` times the
/// greatest common divisor of the step counts. That is `tick` itself as soon as
/// one of them moves by a single step.
pub proof fn tick_is_recovered(m: Seq<i64>, tick: nat, steps: Seq<int>)
    requires
        tick > 0,
        m.len() == steps.len() + 1,
        forall|i: int| 0 <= i < steps.len() ==> m[i + 1] - m[i] == tick * #[trigger] steps[i],
        exists|i: int| 0 <= i < steps.len() && #[trigger] steps[i] != 0,
    ensures
        tick_of(m) == tick * gcd::gcd_from(0, steps),
        (exists|i: int| 0 <= i < steps.len() && gcd::distance(#[trigger] steps[i]) == 1)
            ==> tick_of(m)
            == tick,
{
    let g = gcd::gcd_from(0, steps);
    let d = differences(m);
    assert forall|i: int| 0 <= i < d.len() implies d[i] == tick * steps[i] by {
        assert(m[i + 1] - m[i] == tick * steps[i]);
    }
    assert(d =~= steps.map_values(|x: int| tick * x));
    gcd::gcd_scales(0, steps, tick);
    lemma_mul_basics(tick as int);
    gcd::lemma_gcd_from(0, steps);
    lemma_mul_strictly_positive(tick as int, g as int);
    if exists|i: int| 0 <= i < steps.len() && gcd::distance(#[trigger] steps[i]) == 1 {
        let j = choose|i: int| 0 <= i < steps.len() && gcd::distance(#[trigger] steps[i]) == 1;
        assert(gcd::distance(steps[j]) % g == 0);
        if g > 1 {
            lemma_small_mod(1, g);
        }
    }
}

/// No layout of the deltas is shorter than the one that is taken.
pub proof fn best_mode_is_shortest(q: Seq<i64>, mode: Mode)
    ensures
        payload_bits(best_mode(q), q).len() <= payload_bits(mode, q).len(),
{
    match mode {
        Mode::Packed => {},
        Mode::ZeroFlag => {},
        Mode::Runs => {},
    }
}

/// A block of equal mantissas costs only its header: the tick is 1 and the
/// deltas take no bits.
pub proof fn equal_values_cost_only_the_header(k: nat, m: Seq<i64>)
    requires
        m.len() > 0,
        m.len() <= i64::MAX,
        forall|i: int| 0 <= i < m.len() ==> #[trigger] m[i] == m[0],
    ensures
        tick_of(m) == 1,
        best_mode(tick_deltas(m)) == Mode::Packed,
        grid_code(k, m).len() == 30 + bits::sized(bits::zigzag_of(m[0])).len(),
{
    let d = differences(m);
    let q = tick_deltas(m);
    assert forall|i: int| 0 <= i < d.len() implies #[trigger] d[i] == 0 by {
        assert(m[i] == m[0] && m[i + 1] == m[0]);
    }
    gcd::lemma_gcd_from(0, d);
    assert(differences_fit(m));
    lemma_tick(m);
    assert forall|i: int| 0 <= i < q.len() implies #[trigger] q[i] == 0 by {
        assert(q[i] * tick_of(m) == d[i]);
        lemma_mul_basics(q[i] as int);
    }
    lemma_offsets_fit(q);
    if q.len() > 0 {
        lemma_extremes_are_values(q);
    }
    assert(delta_width(q) == 0);
    lemma_payload_len(q);
    lemma_grid_len(k, m);
    lemma_mul_basics(q.len() as int);
    words::lemma_pow2_values();
    bitseq::lemma_bits_of_len(0, 7);
    bitseq::lemma_bits_of_len(0, 0);
    bitseq::lemma_bits_of_len(1, 7);
    bitseq::lemma_bits_of_len(1, 1);
    assert(bitseq::bit_length(1) == 1) by {
        reveal_with_fuel(bitseq::bit_length, 2);
    }
    assert(bits::zigzag_of(0) == 0);
}

/// The smallest and the largest delta are deltas.
pub proof fn lemma_extremes_are_values(q: Seq<i64>)
    requires
        q.len() > 0,
    ensures
        q.contains(size::minimum(q)),
        q.contains(maximum(q)),
    decreases q.len(),
{
    if q.len() == 1 {
        assert(q[0] == size::minimum(q));
    } else {
        let before = q.drop_last();
        lemma_extremes_are_values(before);
        let a = choose|a: int| 0 <= a < before.len() && before[a] == size::minimum(before);
        let b = choose|b: int| 0 <= b < before.len() && before[b] == maximum(before);
        assert(q[a] == before[a] && q[b] == before[b]);
        assert(q[q.len() - 1] == q.last());
    }
}

/// What is planned is what is written and read: a block takes exactly the bits
/// that its plan counts, starts with its tag and its scale, and after its tag
/// reading gives every value back, bit for bit, and leaves what follows it.
pub proof fn planned_block_is_exact(plan: GridPlan, values: Seq<u64>, rest: Seq<bool>)
    requires
        values.len() > 0,
        values.len() <= i64::MAX,
        grid_scale(values) == Ok::<u32, FallbackReason>(plan.scale),
        plan.plans(plan.scale as nat, mantissas(values, plan.scale as nat)),
    ensures
        ({
            let code = plan.code(tick_deltas(mantissas(values, plan.scale as nat)));
            let after_tag = bits::take_bits(code + rest, 2);
            &&& code.len() == plan.bits
            &&& code.take(6) == bitseq::bits_of(TAG_GRID as nat, 2) + bitseq::bits_of(
                plan.scale as nat,
                4,
            )
            &&& after_tag.0 == Ok::<u64, DecodeError>(TAG_GRID)
            &&& after_tag.1.len() == plan.bits - 2 + rest.len()
            &&& take_grid(after_tag.1, values.len()) == (
                Ok::<Seq<u64>, DecodeError>(values),
                rest,
            )
        }),
{
    let m = mantissas(values, plan.scale as nat);
    let q = tick_deltas(m);
    let code = plan.code(q);
    lemma_plan_covers(plan, m);
    grid_block_reads_back(values, rest);
    let (tag, scale) = (
        bitseq::bits_of(TAG_GRID as nat, 2),
        bitseq::bits_of(plan.scale as nat, 4),
    );
    bitseq::lemma_bits_of_len(TAG_GRID as nat, 2);
    bitseq::lemma_bits_of_len(plan.scale as nat, 4);
    lemma_regroup(
        tag,
        scale,
        bits::sized(bits::zigzag_of(plan.base)),
        bits::sized(plan.tick),
        bits::sized(bits::zigzag_of(plan.qmin)),
        bitseq::bits_of(plan.width as nat, 7),
        bitseq::bits_of(mode_number(plan.mode), 2),
        layout_bits(plan.mode, q, plan.qmin, plan.width as nat, plan.run_width as nat),
        Seq::empty(),
    );
    assert(code + Seq::<bool>::empty() =~= code);
    assert(code.take(6) =~= tag + scale);
}

} // verus!
