//! What a block of prices costs, and so how it is written.
//!
//! The cost of a grid block is told here from the prices alone: from their
//! mantissas at the smallest scale that holds them all, the largest tick that
//! the mantissas move by, and the least widths that hold the moves.

use crate::bits;
use crate::bitseq;
use crate::float;
use crate::gcd;
use crate::gorilla;
use crate::gorilla::XorModel;
use crate::grid;
use crate::grid::GridPlan;
use crate::price;
use crate::price::{BlockKind, FallbackReason, Mode};
use crate::size;
use crate::words;
use vstd::arithmetic::div_mod::*;
use vstd::arithmetic::mul::*;
use vstd::arithmetic::power2::*;
use vstd::prelude::*;

verus! {

/// From the index `a` on, `q` holds `n` zeros in a row.
pub open spec fn zeros_at(q: Seq<i64>, a: int, n: nat) -> bool {
    0 <= a && a + n <= q.len() && forall|i: int| a <= i < a + n ==> #[trigger] q[i] == 0
}

/// Some value of the block has no mantissa at the scale `k`.
pub open spec fn off_grid(block: Seq<u64>, k: nat) -> bool {
    exists|i: int| 0 <= i < block.len() && float::mantissa_of(#[trigger] block[i], k) is None
}

/// The mantissas `m` of the block at the scale `k` are exact, and no smaller
/// scale holds all of its values.
pub open spec fn at_smallest_scale(block: Seq<u64>, k: nat, m: Seq<i64>) -> bool {
    &&& k <= 12
    &&& m.len() == block.len()
    &&& forall|i: int|
        0 <= i < block.len() ==> float::mantissa_of(#[trigger] block[i], k) == Some(m[i])
    &&& forall|j: nat| #[trigger] off_grid(block, j) || j >= k
}

/// How far the mantissa at `i + 1` lies above the one at `i`.
pub open spec fn step(m: Seq<i64>, i: int) -> int {
    m[i + 1] - m[i]
}

/// Neighbouring mantissas differ by no more than an `i64` holds.
pub open spec fn steps_fit(m: Seq<i64>) -> bool {
    forall|i: int| 0 <= i < m.len() - 1 ==> i64::MIN <= #[trigger] step(m, i) <= i64::MAX
}

/// Every one of `q` is a multiple of `c`.
pub open spec fn divides_all(c: nat, q: Seq<i64>) -> bool {
    forall|i: int| 0 <= i < q.len() ==> #[trigger] q[i] as int % c as int == 0
}

/// The mantissas `m` move by `q` steps of `t`, and by no larger step: nothing but
/// 1 divides all of `q`. Where nothing moves the step is 1.
pub open spec fn moves_by(m: Seq<i64>, t: nat, q: Seq<i64>) -> bool {
    &&& t >= 1
    &&& m.len() == q.len() + 1
    &&& forall|i: int| 0 <= i < q.len() ==> #[trigger] q[i] * t == m[i + 1] - m[i]
    &&& (forall|i: int| 0 <= i < q.len() ==> #[trigger] q[i] == 0) ==> t == 1
    &&& forall|c: nat|
        c > 1 && #[trigger] divides_all(c, q) ==> forall|i: int|
            0 <= i < q.len() ==> #[trigger] q[i] == 0
}

/// `min` is the smallest of `q` (0 if there is none), and `w` the least number of
/// bits that hold how far each lies above it.
pub open spec fn least_width(q: Seq<i64>, min: i64, w: nat) -> bool {
    &&& q.len() == 0 ==> min == 0 && w == 0
    &&& q.len() > 0 ==> q.contains(min)
    &&& forall|i: int| 0 <= i < q.len() ==> min <= #[trigger] q[i] && q[i] - min < pow2(w)
    &&& w > 0 ==> exists|i: int|
        0 <= i < q.len() && #[trigger] q[i] - min >= pow2((w - 1) as nat)
}

/// `run` zeros stand in a row somewhere in `q`, and nowhere more.
pub open spec fn longest_zeros(q: Seq<i64>, run: nat) -> bool {
    &&& exists|a: int| #[trigger] zeros_at(q, a, run)
    &&& forall|a: int| !#[trigger] zeros_at(q, a, run + 1)
}

/// `longest_run` finds the longest run of zeros.
proof fn lemma_longest_run(q: Seq<i64>, before: nat)
    ensures
        longest_zeros(Seq::new(before, |i: int| 0i64) + q, grid::longest_run(q, before)),
    decreases q.len(),
{
    let z = Seq::new(before, |i: int| 0i64) + q;
    let n = grid::longest_run(q, before);
    if q.len() == 0 {
        assert(zeros_at(z, 0, n));
    } else if q[0] == 0 {
        lemma_longest_run(q.skip(1), before + 1);
        assert(z =~= Seq::new(before + 1, |i: int| 0i64) + q.skip(1));
    } else {
        let rest = q.skip(1);
        let later = grid::longest_run(rest, 0);
        lemma_longest_run(rest, 0);
        assert(Seq::new(0, |i: int| 0i64) + rest =~= rest);
        let b = choose|b: int| #[trigger] zeros_at(rest, b, later);
        if before > later {
            assert(zeros_at(z, 0, n));
        } else {
            let from = b + before + 1;
            assert forall|i: int| from <= i < from + later implies #[trigger] z[i] == 0 by {
                assert(rest[i - before - 1] == 0);
            }
            assert(zeros_at(z, from, n));
        }
        assert forall|a: int| !#[trigger] zeros_at(z, a, n + 1) by {
            if zeros_at(z, a, n + 1) {
                assert(z[before as int] == q[0]);
                if a <= before {
                    // The run would reach past the zeros in front.
                    assert(a + n + 1 > before);
                    assert(z[before as int] == 0);
                } else {
                    assert forall|i: int| a - before - 1 <= i < a - before - 1 + (later + 1)
                        implies #[trigger] rest[i] == 0 by {
                        assert(z[i + before + 1] == 0);
                    }
                    assert(zeros_at(rest, a - before - 1, later + 1));
                }
            }
        }
    }
}

/// There is one longest run.
proof fn lemma_longest_is_unique(q: Seq<i64>, a: nat, b: nat)
    requires
        longest_zeros(q, a),
        longest_zeros(q, b),
    ensures
        a == b,
{
    if a < b {
        let x = choose|x: int| #[trigger] zeros_at(q, x, b);
        assert(zeros_at(q, x, a + 1));
    }
    if b < a {
        let x = choose|x: int| #[trigger] zeros_at(q, x, a);
        assert(zeros_at(q, x, b + 1));
    }
}

/// The zeros at the end are there exactly if the last delta is zero.
proof fn lemma_last_run(q: Seq<i64>, before: nat)
    ensures
        q.len() > 0 ==> (grid::last_run(q, before) > 0 <==> q.last() == 0),
        q.len() == 0 ==> grid::last_run(q, before) == before,
    decreases q.len(),
{
    if q.len() > 0 {
        let next = if q[0] == 0 {
            before + 1
        } else {
            0
        };
        lemma_last_run(q.skip(1), next);
        if q.len() > 1 {
            assert(q.skip(1).last() == q.last());
        }
    }
}

/// `moves` counts the deltas that are not zero.
proof fn lemma_moves(q: Seq<i64>)
    ensures
        grid::moves(q) == q.filter(|d: i64| d != 0).len(),
    decreases q.len(),
{
    let p = |d: i64| d != 0;
    if q.len() == 0 {
        assert(q.filter(p) =~= Seq::empty()) by {
            reveal(Seq::filter);
        }
    } else {
        lemma_moves(q.skip(1));
        let one = seq![q[0]];
        assert(q =~= one + q.skip(1));
        Seq::filter_distributes_over_add(one, q.skip(1), p);
        assert(one.filter(p).len() == if q[0] == 0 {
            0nat
        } else {
            1nat
        }) by {
            reveal_with_fuel(Seq::filter, 2);
            assert(one.drop_last() =~= Seq::empty());
        }
    }
}

/// The smallest scale that holds a block is the one detected.
proof fn lemma_smallest_scale(block: Seq<u64>, k: nat, m: Seq<i64>, from: nat)
    requires
        at_smallest_scale(block, k, m),
        from <= k,
    ensures
        price::scale_from(block, from) == Some(k as u32),
        grid::mantissas(block, k) == m,
    decreases k - from,
{
    assert forall|i: int| 0 <= i < block.len() implies float::mantissa_of(
        #[trigger] block[i],
        k,
    ) is Some by {
        assert(float::mantissa_of(block[i], k) == Some(m[i]));
    }
    assert(grid::mantissas(block, k) =~= m);
    if from < k {
        assert(off_grid(block, from));
        let i = choose|i: int|
            0 <= i < block.len() && float::mantissa_of(#[trigger] block[i], from) is None;
        assert(float::mantissa_of(block[i], from) is None);
        assert(!price::all_exact(block, from));
        lemma_smallest_scale(block, k, m, from + 1);
    }
}

/// The largest step of the mantissas is the tick, and the steps are the deltas.
proof fn lemma_tick_found(m: Seq<i64>, t: nat, q: Seq<i64>)
    requires
        moves_by(m, t, q),
        steps_fit(m),
    ensures
        grid::differences_fit(m),
        grid::tick_of(m) == t,
        grid::tick_deltas(m) == q,
{
    let steps = q.map_values(|x: i64| x as int);
    let d = grid::differences(m);
    assert forall|i: int| 0 <= i < d.len() implies d[i] == t * steps[i] && i64::MIN
        <= #[trigger] d[i] <= i64::MAX by {
        assert(q[i] * t == m[i + 1] - m[i]);
        lemma_mul_is_commutative(q[i] as int, t as int);
        assert(i64::MIN <= step(m, i) <= i64::MAX);
    }
    assert(d =~= steps.map_values(|x: int| t * x));
    gcd::gcd_scales(0, steps, t);
    lemma_mul_basics(t as int);
    let g = gcd::gcd_from(0, steps);
    gcd::lemma_gcd_from(0, steps);
    if forall|i: int| 0 <= i < q.len() ==> #[trigger] q[i] == 0 {
        assert forall|i: int| 0 <= i < steps.len() implies #[trigger] steps[i] == 0 by {
            assert(q[i] == 0);
        }
        assert(g == 0);
    } else {
        let j = choose|j: int| 0 <= j < q.len() && #[trigger] q[j] != 0;
        assert(steps[j] != 0);
        assert(g > 0);
        if g > 1 {
            assert forall|i: int| 0 <= i < q.len() implies #[trigger] q[i] as int % g as int
                == 0 by {
                assert(gcd::distance(steps[i]) % g == 0);
                lemma_multiple_of(q[i] as int, g);
            }
            assert(divides_all(g, q));
        }
        lemma_mul_basics(t as int);
    }
    grid::lemma_tick(m);
    assert forall|i: int| 0 <= i < q.len() implies #[trigger] q[i] == grid::tick_deltas(m)[i] by {
        let (x, y, z) = (q[i] as int, grid::tick_deltas(m)[i] as int, t as int);
        assert(grid::tick_deltas(m)[i] * grid::tick_of(m) == d[i]);
        assert(x == y) by (nonlinear_arith)
            requires
                x * z == y * z,
                z > 0,
        ;
    }
    assert(grid::tick_deltas(m) =~= q);
}

/// A number is a multiple of `g` where its distance from zero is.
proof fn lemma_multiple_of(x: int, g: nat)
    requires
        g > 0,
        gcd::distance(x) % g == 0,
    ensures
        x % (g as int) == 0,
{
    let a = gcd::distance(x) as int;
    let gi = g as int;
    lemma_fundamental_div_mod(a, gi);
    let f = a / gi;
    assert(a == f * gi && -a == (-f) * gi) by (nonlinear_arith)
        requires
            a == gi * f,
    ;
    lemma_mod_multiples_basic(f, gi);
    lemma_mod_multiples_basic(-f, gi);
}

/// The least width of the deltas is the width planned.
proof fn lemma_width_found(q: Seq<i64>, min: i64, w: nat)
    requires
        least_width(q, min, w),
    ensures
        grid::smallest(q) == min,
        grid::delta_width(q) == w,
{
    words::lemma_pow2_values();
    if q.len() > 0 {
        size::lemma_minimum(q);
        grid::lemma_maximum(q);
        grid::lemma_extremes_are_values(q);
        let a = choose|a: int| 0 <= a < q.len() && #[trigger] q[a] == min;
        let b = choose|b: int| 0 <= b < q.len() && #[trigger] q[b] == size::minimum(q);
        let c = choose|c: int| 0 <= c < q.len() && #[trigger] q[c] == grid::maximum(q);
        assert(q[a] == min && q[b] == size::minimum(q) && q[c] == grid::maximum(q));
        let span = (q[c] - min) as nat;
        if w > 0 {
            let i = choose|i: int|
                0 <= i < q.len() && #[trigger] q[i] - min >= pow2((w - 1) as nat);
            assert(q[i] <= q[c]);
            float::lemma_bit_length_unique(span, w);
        }
    }
}

/// All that is found out of a block on a grid.
proof fn lemma_found(
    block: Seq<u64>,
    k: nat,
    m: Seq<i64>,
    t: nat,
    q: Seq<i64>,
    min: i64,
    w: nat,
    run: nat,
)
    requires
        block.len() > 0,
        at_smallest_scale(block, k, m),
        steps_fit(m),
        moves_by(m, t, q),
        least_width(q, min, w),
        longest_zeros(q, run),
    ensures
        grid::grid_scale(block) == Ok::<u32, FallbackReason>(k as u32),
        grid::mantissas(block, k) == m,
        grid::tick_of(m) == t,
        t <= u64::MAX,
        grid::tick_deltas(m) == q,
        grid::smallest(q) == min,
        grid::delta_width(q) == w,
        grid::longest_run(q, 0) == run,
{
    lemma_smallest_scale(block, k, m, 0);
    lemma_tick_found(m, t, q);
    lemma_width_found(q, min, w);
    lemma_longest_run(q, 0);
    assert(Seq::new(0, |i: int| 0i64) + q =~= q);
    lemma_longest_is_unique(q, run, grid::longest_run(q, 0));
    grid::lemma_tick(m);
}

/// How a block that has a grid encoding is written.
proof fn lemma_choice(st: XorModel, block: Seq<u64>, k: nat, m: Seq<i64>)
    requires
        k <= 12,
        grid::grid_scale(block) == Ok::<u32, FallbackReason>(k as u32),
        grid::mantissas(block, k) == m,
    ensures
        ({
            let code = grid::grid_code(k, m);
            if code.len() < 2 + gorilla::xor_codes(st, block).len() {
                &&& price::block_kind(st, block) == (BlockKind::Grid {
                    scale: k as u32,
                    tick: grid::tick_of(m) as u64,
                    mode: grid::best_mode(grid::tick_deltas(m)),
                })
                &&& price::block_code(st, block) == code
            } else {
                &&& price::block_kind(st, block) == (BlockKind::Gorilla {
                    reason: FallbackReason::Smaller,
                })
                &&& price::block_code(st, block) == seq![false, true] + gorilla::xor_codes(
                    st,
                    block,
                )
            }
        }),
{
    reveal(price::block_code);
    reveal(price::block_kind);
    lemma_tags();
}

/// How a block that has no grid encoding is written.
proof fn lemma_no_grid(st: XorModel, block: Seq<u64>)
    requires
        grid::grid_scale(block) is Err,
    ensures
        price::block_kind(st, block) == (BlockKind::Gorilla {
            reason: grid::grid_scale(block)->Err_0,
        }),
        price::block_code(st, block) == seq![false, true] + gorilla::xor_codes(st, block),
{
    reveal(price::block_code);
    reveal(price::block_kind);
    lemma_tags();
}

/// The length of a grid block, and the layout that makes it the shortest.
proof fn lemma_code_len(
    k: nat,
    m: Seq<i64>,
    t: nat,
    q: Seq<i64>,
    min: i64,
    w: nat,
    run: nat,
)
    requires
        q.len() <= i64::MAX,
        grid::tick_of(m) == t,
        t <= u64::MAX,
        grid::tick_deltas(m) == q,
        grid::smallest(q) == min,
        grid::delta_width(q) == w,
        grid::longest_run(q, 0) == run,
    ensures
        ({
            let n = q.len();
            let moved = q.filter(|d: i64| d != 0).len();
            let rw = bitseq::bit_length(run);
            let header = 36 + bitseq::bit_length(bits::zigzag_of(m[0]) as nat)
                + bitseq::bit_length(t) + bitseq::bit_length(bits::zigzag_of(min) as nat);
            let packed = n * w;
            let flagged = n + moved * w;
            let runs = 6 + moved * (rw + w) + if n > 0 && q.last() == 0 {
                rw
            } else {
                0
            };
            let (mode, payload) = if packed <= flagged && packed <= runs {
                (Mode::Packed, packed)
            } else if flagged <= runs {
                (Mode::ZeroFlag, flagged)
            } else {
                (Mode::Runs, runs)
            };
            &&& grid::best_mode(q) == mode
            &&& grid::grid_code(k, m).len() == header + payload
        }),
{
    lemma_last_run(q, 0);
    lemma_moves(q);
    grid::lemma_payload_len(q);
    grid::lemma_grid_len(k, m);
    lemma_sized_len(bits::zigzag_of(m[0]));
    lemma_sized_len(t as u64);
    lemma_sized_len(bits::zigzag_of(min));
}

/// What the encoder does with a block that is on a grid, told from its values:
/// with mantissas `m` at the smallest scale `k` that move by `q` ticks of `t`,
/// the deltas lie at least `min` and need `w` bits above it, and `run` zeros at
/// most stand in a row. The block takes the grid, in the layout that costs
/// least, exactly if that costs less than two bits and the XOR codes of its
/// values, and it takes the lesser of the two costs.
pub proof fn grid_cost_decides(
    st: XorModel,
    block: Seq<u64>,
    k: nat,
    m: Seq<i64>,
    t: nat,
    q: Seq<i64>,
    min: i64,
    w: nat,
    run: nat,
)
    requires
        0 < block.len() <= i64::MAX,
        at_smallest_scale(block, k, m),
        steps_fit(m),
        moves_by(m, t, q),
        least_width(q, min, w),
        longest_zeros(q, run),
    ensures
        ({
            let n = q.len();
            let moved = q.filter(|d: i64| d != 0).len();
            let rw = bitseq::bit_length(run);
            let header = 36 + bitseq::bit_length(bits::zigzag_of(m[0]) as nat)
                + bitseq::bit_length(t) + bitseq::bit_length(bits::zigzag_of(min) as nat);
            let packed = n * w;
            let flagged = n + moved * w;
            let runs = 6 + moved * (rw + w) + if n > 0 && q.last() == 0 {
                rw
            } else {
                0
            };
            let (mode, payload) = if packed <= flagged && packed <= runs {
                (Mode::Packed, packed)
            } else if flagged <= runs {
                (Mode::ZeroFlag, flagged)
            } else {
                (Mode::Runs, runs)
            };
            let fallback = 2 + gorilla::xor_codes(st, block).len();
            if header + payload < fallback {
                &&& price::block_kind(st, block) == (BlockKind::Grid {
                    scale: k as u32,
                    tick: t as u64,
                    mode,
                })
                &&& price::block_code(st, block).len() == header + payload
            } else {
                &&& price::block_kind(st, block) == (BlockKind::Gorilla {
                    reason: FallbackReason::Smaller,
                })
                &&& price::block_code(st, block).len() == fallback
                &&& price::block_code(st, block) == seq![false, true] + gorilla::xor_codes(
                    st,
                    block,
                )
            }
        }),
{
    lemma_found(block, k, m, t, q, min, w, run);
    lemma_choice(st, block, k, m);
    lemma_code_len(k, m, t, q, min, w, run);
}

proof fn lemma_tags()
    ensures
        bitseq::bits_of(0, 2) == seq![false, false],
        bitseq::bits_of(1, 2) == seq![false, true],
{
    reveal_with_fuel(bitseq::bits_of, 3);
    assert(bitseq::bits_of(0, 2) =~= seq![false, false]);
    assert(bitseq::bits_of(1, 2) =~= seq![false, true]);
}

/// A block on a grid takes at most the header and, for every delta, the bits of how
/// far the largest lies above the smallest.
pub proof fn no_longer_than_packed(
    st: XorModel,
    block: Seq<u64>,
    k: nat,
    m: Seq<i64>,
    t: nat,
    q: Seq<i64>,
    lo: int,
    hi: int,
    run: nat,
)
    requires
        block.len() <= i64::MAX,
        at_smallest_scale(block, k, m),
        steps_fit(m),
        moves_by(m, t, q),
        longest_zeros(q, run),
        0 <= lo < q.len(),
        0 <= hi < q.len(),
        forall|i: int| 0 <= i < q.len() ==> q[lo] <= #[trigger] q[i] <= q[hi],
    ensures
        price::block_code(st, block).len() <= 36 + bitseq::bit_length(
            bits::zigzag_of(m[0]) as nat,
        ) + bitseq::bit_length(t) + bitseq::bit_length(bits::zigzag_of(q[lo]) as nat) + q.len()
            * bitseq::bit_length((q[hi] - q[lo]) as nat),
{
    let w = bitseq::bit_length((q[hi] - q[lo]) as nat);
    bitseq::lemma_bit_length((q[hi] - q[lo]) as nat);
    assert(least_width(q, q[lo], w)) by {
        assert(q.contains(q[lo]));
        assert(w > 0 ==> q[hi] - q[lo] >= pow2((w - 1) as nat));
    }
    grid_cost_decides(st, block, k, m, t, q, q[lo], w, run);
}

/// Detection gives the smallest scale up to 12 that holds every value, and none if
/// no such scale does.
pub proof fn detection_gives_the_smallest_scale(values: Seq<u64>, k: nat, m: Seq<i64>)
    ensures
        at_smallest_scale(values, k, m) ==> price::scale_of(values) == Some(k as u32),
        (forall|j: nat| j <= 12 ==> #[trigger] off_grid(values, j)) ==> price::scale_of(
            values,
        ) is None,
{
    if at_smallest_scale(values, k, m) {
        lemma_smallest_scale(values, k, m, 0);
    }
    if forall|j: nat| j <= 12 ==> #[trigger] off_grid(values, j) {
        lemma_no_scale(values, 0);
    }
}

/// A block that no scale up to 12 holds falls back for want of a scale: two bits
/// of tag, and the XOR codes of its values.
pub proof fn no_scale_falls_back(st: XorModel, block: Seq<u64>)
    requires
        forall|k: nat| k <= 12 ==> #[trigger] off_grid(block, k),
    ensures
        price::block_kind(st, block) == (BlockKind::Gorilla {
            reason: FallbackReason::NoDecimalScale,
        }),
        price::block_code(st, block) == seq![false, true] + gorilla::xor_codes(st, block),
{
    lemma_no_scale(block, 0);
    lemma_no_grid(st, block);
}

proof fn lemma_no_scale(block: Seq<u64>, from: nat)
    requires
        forall|k: nat| k <= 12 ==> #[trigger] off_grid(block, k),
    ensures
        price::scale_from(block, from) is None,
    decreases 13 - from,
{
    if from <= 12 {
        assert(off_grid(block, from));
        let i = choose|i: int|
            0 <= i < block.len() && float::mantissa_of(#[trigger] block[i], from) is None;
        assert(float::mantissa_of(block[i], from) is None);
        assert(!price::all_exact(block, from));
        lemma_no_scale(block, from + 1);
    }
}

/// A block whose mantissas at the smallest scale have two neighbours that differ
/// by more than an `i64` holds falls back for that.
pub proof fn wide_difference_falls_back(
    st: XorModel,
    block: Seq<u64>,
    k: nat,
    m: Seq<i64>,
    i: int,
)
    requires
        at_smallest_scale(block, k, m),
        0 <= i < m.len() - 1,
        m[i + 1] - m[i] < i64::MIN || m[i + 1] - m[i] > i64::MAX,
    ensures
        price::block_kind(st, block) == (BlockKind::Gorilla {
            reason: FallbackReason::DeltaOverflow,
        }),
        price::block_code(st, block) == seq![false, true] + gorilla::xor_codes(st, block),
{
    lemma_smallest_scale(block, k, m, 0);
    assert(grid::differences(m)[i] == m[i + 1] - m[i]);
    lemma_no_grid(st, block);
}

proof fn lemma_code_fields(
    k: nat,
    m: Seq<i64>,
    t: nat,
    q: Seq<i64>,
    min: i64,
    w: nat,
    run: nat,
)
    requires
        grid::tick_of(m) == t,
        grid::tick_deltas(m) == q,
        grid::smallest(q) == min,
        grid::delta_width(q) == w,
        grid::longest_run(q, 0) == run,
    ensures
        ({
            let rw = bitseq::bit_length(run);
            let header = seq![false, false] + bitseq::bits_of(k, 4) + bits::sized(
                bits::zigzag_of(m[0]),
            ) + bits::sized(t as u64) + bits::sized(bits::zigzag_of(min)) + bitseq::bits_of(w, 7);
            match grid::best_mode(q) {
                Mode::Packed => grid::grid_code(k, m) == header + bitseq::bits_of(0, 2)
                    + grid::packed_bits(q, min, w),
                Mode::ZeroFlag => grid::grid_code(k, m) == header + bitseq::bits_of(1, 2)
                    + grid::flagged_bits(q, min, w),
                Mode::Runs => grid::grid_code(k, m) == header + bitseq::bits_of(2, 2) + (
                bitseq::bits_of(rw, 6) + grid::runs_bits(q, 0, min, w, rw)),
            }
        }),
{
    lemma_tags();
}

/// The fields of a block that takes the grid, in their order: the tag, the scale,
/// the first mantissa, the tick, the smallest delta, the width of the deltas, the
/// number of the layout, and the deltas, behind the width of the run lengths
/// where the layout has any.
pub proof fn grid_block_holds_its_fields(
    st: XorModel,
    block: Seq<u64>,
    k: nat,
    m: Seq<i64>,
    t: nat,
    q: Seq<i64>,
    min: i64,
    w: nat,
    run: nat,
)
    requires
        0 < block.len() <= i64::MAX,
        at_smallest_scale(block, k, m),
        steps_fit(m),
        moves_by(m, t, q),
        least_width(q, min, w),
        longest_zeros(q, run),
        price::block_kind(st, block) is Grid,
    ensures
        ({
            let rw = bitseq::bit_length(run);
            let header = seq![false, false] + bitseq::bits_of(k, 4) + bits::sized(
                bits::zigzag_of(m[0]),
            ) + bits::sized(t as u64) + bits::sized(bits::zigzag_of(min)) + bitseq::bits_of(w, 7);
            match price::block_kind(st, block)->mode {
                Mode::Packed => price::block_code(st, block) == header + bitseq::bits_of(0, 2)
                    + grid::packed_bits(q, min, w),
                Mode::ZeroFlag => price::block_code(st, block) == header + bitseq::bits_of(1, 2)
                    + grid::flagged_bits(q, min, w),
                Mode::Runs => price::block_code(st, block) == header + bitseq::bits_of(2, 2) + (
                bitseq::bits_of(rw, 6) + grid::runs_bits(q, 0, min, w, rw)),
            }
        }),
{
    lemma_found(block, k, m, t, q, min, w, run);
    lemma_choice(st, block, k, m);
    lemma_code_fields(k, m, t, q, min, w, run);
}

/// What is planned for the mantissas `m` at the scale `k`: the tick is the largest
/// step, the width is the least that holds the deltas, and so is that of the run
/// lengths. For every smaller width some delta lies out of reach.
pub proof fn planned_widths_are_the_least(
    plan: GridPlan,
    k: nat,
    m: Seq<i64>,
    t: nat,
    q: Seq<i64>,
    run: nat,
)
    requires
        plan.plans(k, m),
        steps_fit(m),
        moves_by(m, t, q),
        longest_zeros(q, run),
    ensures
        plan.scale == k,
        plan.base == m[0],
        plan.tick == t,
        q.len() > 0 ==> q.contains(plan.qmin),
        q.len() == 0 ==> plan.qmin == 0 && plan.width == 0,
        forall|i: int|
            0 <= i < q.len() ==> plan.qmin <= #[trigger] q[i] && q[i] - plan.qmin < pow2(
                plan.width as nat,
            ),
        forall|w: nat|
            w < plan.width ==> exists|i: int|
                0 <= i < q.len() && #[trigger] q[i] - plan.qmin >= #[trigger] pow2(w),
        run < pow2(plan.run_width as nat),
        plan.run_width > 0 ==> run >= pow2((plan.run_width - 1) as nat),
        run == 0 ==> plan.run_width == 0,
{
    lemma_tick_found(m, t, q);
    lemma_longest_run(q, 0);
    assert(Seq::new(0, |i: int| 0i64) + q =~= q);
    lemma_longest_is_unique(q, run, grid::longest_run(q, 0));
    bitseq::lemma_bit_length(run);
    grid::lemma_offsets_fit(q);
    if q.len() > 0 {
        size::lemma_minimum(q);
        grid::lemma_maximum(q);
        grid::lemma_extremes_are_values(q);
        let c = choose|c: int| 0 <= c < q.len() && #[trigger] q[c] == grid::maximum(q);
        assert(q[c] == grid::maximum(q));
        bitseq::lemma_bit_length((q[c] - plan.qmin) as nat);
        assert forall|w: nat| w < plan.width implies exists|i: int|
            0 <= i < q.len() && #[trigger] q[i] - plan.qmin >= #[trigger] pow2(w) by {
            words::lemma_pow2_le(w, (plan.width - 1) as nat);
            assert(q[c] - plan.qmin >= pow2(w));
        }
    }
}

proof fn lemma_sized_len(v: u64)
    ensures
        bits::sized(v).len() == 7 + bitseq::bit_length(v as nat),
{
    bitseq::lemma_bits_of_len(bitseq::bit_length(v as nat), 7);
    bitseq::lemma_bits_of_len(v as nat, bitseq::bit_length(v as nat));
}

} // verus!
