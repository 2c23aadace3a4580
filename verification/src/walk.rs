//! How the generator walks, draw by draw.

use crate::float;
use crate::gen;
use crate::gen::{Draw, Grid, Quote, Scenario, WalkModel};
use crate::rounding;
use crate::words;
use vstd::arithmetic::div_mod::*;
use vstd::arithmetic::mul::*;
use vstd::arithmetic::power2::*;
use vstd::prelude::*;

verus! {

/// The state of the generator after `n` numbers.
pub open spec fn after(state: u64, n: nat) -> u64 {
    ((state + n * 0x9E37_79B9_7F4A_7C15) % 0x1_0000_0000_0000_0000) as u64
}

/// Each number takes the state on by the same step, modulo `2^64`.
pub proof fn states_are_equally_far_apart(state: u64, n: nat)
    ensures
        after(state, 0) == state,
        gen::advanced(after(state, n)) == after(state, n + 1),
        gen::advanced(state) == after(state, 1),
{
    let (s, g, w) = (state as int, 0x9E37_79B9_7F4A_7C15int, 0x1_0000_0000_0000_0000int);
    let a = s + n * g;
    assert((n + 1) * g == n * g + g) by (nonlinear_arith);
    lemma_add_mod_noop(a, g, w);
    lemma_mod_twice(a, w);
    lemma_add_mod_noop(a % w, g, w);
    lemma_small_mod(state as nat, w as nat);
}

/// The number drawn from a state is that of SplitMix64: the next state, mixed by
/// two multiplications and three shifts.
pub proof fn numbers_are_split_mixed(state: u64, z: u64, a: u64, b: u64)
    requires
        z == after(state, 1),
        a == (z ^ (z >> 30u64)).wrapping_mul(0xBF58_476D_1CE4_E5B9),
        b == (a ^ (a >> 27u64)).wrapping_mul(0x94D0_49BB_1331_11EB),
    ensures
        gen::drawn(state) == b ^ (b >> 31u64),
        gen::drawn_unit(state) * 2048 <= gen::drawn(state) < (gen::drawn_unit(state) + 1) * 2048,
{
    states_are_equally_far_apart(state, 0);
}

/// When a draw of `x / 2^53` is less than a double: a finite one that is not
/// negative is compared as a number of units of `2^-1074`, a negative one and a NaN
/// never are more, and an infinity always is.
pub proof fn draws_are_compared_as_numbers(x: nat, p: u64, e: nat, f: nat)
    requires
        x < 0x20_0000_0000_0000,
        f < 0x10_0000_0000_0000,
        e < 2048,
    ensures
        p == f ==> (gen::is_below(x, p) <==> x * pow2(1021) < f),
        0 < e < 2047 && p == e * 0x10_0000_0000_0000 + f ==> (gen::is_below(x, p) <==> x * pow2(
            1021,
        ) < (f + 0x10_0000_0000_0000) * pow2((e - 1) as nat)),
        p == 0x7FF0_0000_0000_0000 ==> gen::is_below(x, p),
        0x7FF0_0000_0000_0000 < p ==> !gen::is_below(x, p),
{
    words::lemma_pow2_values();
    if p == f {
        rounding::doubles_have_three_fields(p, 0, 0, f);
        lemma_mul_basics(f as int);
    }
    if 0 < e < 2047 && p == e * 0x10_0000_0000_0000 + f {
        rounding::doubles_have_three_fields(p, 0, e, f);
    }
    if p == 0x7FF0_0000_0000_0000 {
        rounding::doubles_have_three_fields(p, 0, 2047, 0);
    }
    if 0x7FF0_0000_0000_0000 < p < 0x8000_0000_0000_0000 {
        rounding::doubles_have_three_fields(p, 0, 2047, (p - 0x7FF0_0000_0000_0000) as nat);
    }
}

/// A draw is less than another, given as a double, exactly if its number is.
pub proof fn draws_are_compared_with_draws(x: nat, y: nat)
    requires
        x < 0x20_0000_0000_0000,
        y < 0x20_0000_0000_0000,
    ensures
        gen::is_below(x, gen::unit_bits(y)) <==> x < y,
{
    gen::unit_is_exact(y);
    let (a, b, p) = (x as int, y as int, pow2(1021) as int);
    lemma_pow2_pos(1021);
    assert(a * p < b * p <==> a < b) by (nonlinear_arith)
        requires
            p > 0,
    ;
}

proof fn lemma_geometric_draws(state: u64, p: u64, k: int, start: u64, at: nat)
    requires
        1 <= k <= 1000,
        at == k - 1,
        state == after(start, at),
        forall|j: nat| j < at ==> gen::is_below(gen::drawn_unit(#[trigger] after(start, j)), p),
    ensures
        ({
            let (n, end) = gen::geometric_from(state, p, k);
            &&& k <= n <= 1000
            &&& forall|j: nat|
                j < n - 1 ==> gen::is_below(gen::drawn_unit(#[trigger] after(start, j)), p)
            &&& n < 1000 ==> !gen::is_below(gen::drawn_unit(after(start, (n - 1) as nat)), p)
            &&& n < 1000 ==> end == after(start, n as nat)
            &&& n == 1000 ==> end == after(start, 999)
        }),
    decreases 1000 - k,
{
    states_are_equally_far_apart(start, at);
    if k < 1000 && gen::is_below(gen::drawn_unit(state), p) {
        lemma_geometric_draws(gen::advanced(state), p, k + 1, start, at + 1);
    }
}

/// A geometric draw counts how many numbers it takes until one is not below `p`,
/// and stops at 1000.
pub proof fn geometric_draws_count_to_the_first_failure(state: u64, p: u64)
    ensures
        ({
            let (n, end) = gen::geometric_from(state, p, 1);
            &&& 1 <= n <= 1000
            &&& forall|j: nat|
                j < n - 1 ==> gen::is_below(gen::drawn_unit(#[trigger] after(state, j)), p)
            &&& n < 1000 ==> !gen::is_below(gen::drawn_unit(after(state, (n - 1) as nat)), p)
            &&& n < 1000 ==> end == after(state, n as nat)
            &&& n == 1000 ==> end == after(state, 999)
        }),
{
    states_are_equally_far_apart(state, 0);
    lemma_geometric_draws(state, p, 1, state, 0);
}

/// A halt is drawn for only where none goes on and its probability is above zero.
/// It lasts as many ticks as the scenario says, and it adds from 1 to 30 whole
/// minutes, by a second draw. Else nothing is drawn or only the one number.
pub proof fn halts_add_whole_minutes(s: Scenario, st: WalkModel)
    ensures
        ({
            let (next, ns) = gen::halt_drawn(s, st);
            let asked = st.halt_left == 0 && 0 < s.p_halt <= 0x7FF0_0000_0000_0000;
            let begins = asked && gen::is_below(gen::drawn_unit(st.rng), s.p_halt);
            let minutes = 1 + gen::drawn(after(st.rng, 1)) as int % 30;
            &&& 1 <= minutes <= 30
            &&& next.grid == st.grid && next.level == st.level && next.nan_left == st.nan_left
            &&& !asked ==> next == st && ns == 0
            &&& asked && !begins ==> next == (WalkModel { rng: after(st.rng, 1), ..st }) && ns == 0
            &&& begins ==> next.rng == after(st.rng, 2) && next.halt_left == s.halt_len && ns
                == minutes * 60_000_000_000
        }),
{
    states_are_equally_far_apart(st.rng, 1);
    states_are_equally_far_apart(st.rng, 0);
}

/// A halted price stays where it is, for one tick less. Else one number says
/// whether the price moves. If it does, it moves by from 1 to 1000 ticks of `u`,
/// by a geometric draw: up, or down by one more draw against a half, where more
/// than one tick is left. A level or a step that does not fit in an `i64` ends the
/// walk.
pub proof fn moves_are_whole_ticks(s: Scenario, st: WalkModel, u: i64, k: int, end: u64)
    requires
        (k, end) == gen::geometric_from(after(st.rng, 1), s.p_step, 1),
    ensures
        st.halt_left > 0 ==> gen::move_drawn(s, st, u) == Some(
            WalkModel { halt_left: (st.halt_left - 1) as nat, ..st },
        ),
        st.halt_left == 0 && !gen::is_below(gen::drawn_unit(st.rng), s.p_move) ==> gen::move_drawn(
            s,
            st,
            u,
        ) == Some(WalkModel { rng: after(st.rng, 1), ..st }),
        st.halt_left == 0 && gen::is_below(gen::drawn_unit(st.rng), s.p_move) ==> {
            let up = gen::is_below(gen::drawn_unit(end), 0x3FE0_0000_0000_0000);
            let down = st.level - k * u;
            let level = if up || down <= u {
                st.level + k * u
            } else {
                down
            };
            let fits = i64::MIN <= k * u <= i64::MAX && (up || i64::MIN <= down <= i64::MAX)
                && i64::MIN <= level <= i64::MAX;
            &&& 1 <= k <= 1000
            &&& fits ==> gen::move_drawn(s, st, u) == Some(
                WalkModel { rng: after(end, 1), level: level as i64, ..st },
            )
            &&& !fits ==> gen::move_drawn(s, st, u) is None
        },
{
    states_are_equally_far_apart(st.rng, 0);
    states_are_equally_far_apart(end, 0);
    geometric_draws_count_to_the_first_failure(after(st.rng, 1), s.p_step);
}

/// Four of five sizes are hundreds, by a geometric draw with a half, and the others
/// lie from 1 to 99.
pub proof fn sizes_are_round_or_odd_lots(rng: u64, k: int, end: u64)
    requires
        (k, end) == gen::geometric_from(after(rng, 1), 0x3FE0_0000_0000_0000, 1),
    ensures
        gen::is_below(gen::drawn_unit(rng), 0x3FE9_9999_9999_999A) ==> gen::size_drawn(rng) == (
            (100 * k) as i64,
            end,
        ) && 1 <= k <= 1000,
        !gen::is_below(gen::drawn_unit(rng), 0x3FE9_9999_9999_999A) ==> {
            let size = gen::size_drawn(rng).0;
            &&& 1 <= size <= 99
            &&& (gen::drawn(after(rng, 1)) - (size - 1)) % 99 == 0
            &&& gen::size_drawn(rng).1 == after(rng, 2)
        },
{
    states_are_equally_far_apart(rng, 0);
    states_are_equally_far_apart(rng, 1);
    geometric_draws_count_to_the_first_failure(after(rng, 1), 0x3FE0_0000_0000_0000);
    let d = gen::drawn(after(rng, 1)) as int;
    lemma_fundamental_div_mod(d, 99);
    lemma_mod_multiples_basic(d / 99, 99);
    lemma_mul_is_commutative(99, d / 99);
}

/// A gap of NaNs is drawn for only where none goes on and its probability is above
/// zero. It lasts as many ticks as the scenario says, this one too.
pub proof fn gaps_last_as_long_as_asked(s: Scenario, st: WalkModel)
    ensures
        ({
            let (next, in_gap) = gen::gap_drawn(s, st);
            let asked = st.nan_left == 0 && 0 < s.p_nan_gap <= 0x7FF0_0000_0000_0000;
            let begins = asked && gen::is_below(gen::drawn_unit(st.rng), s.p_nan_gap);
            let left = if begins {
                s.nan_gap_len as nat
            } else {
                st.nan_left
            };
            &&& next.grid == st.grid && next.level == st.level && next.halt_left == st.halt_left
            &&& next.rng == if asked {
                after(st.rng, 1)
            } else {
                st.rng
            }
            &&& in_gap == (left > 0)
            &&& left > 0 ==> next.nan_left + 1 == left
            &&& left == 0 ==> next.nan_left == 0
        }),
{
    states_are_equally_far_apart(st.rng, 0);
}

/// A quote carries its mantissa, scale and tick as they are. Whether it is an
/// artefact takes a draw only where the rate is above zero, and its noise is the
/// next draw where there is to be any.
pub proof fn quotes_are_drawn_where_asked(s: Scenario, rng: u64, mantissa: i64, g: Grid)
    ensures
        ({
            let rough = 0 < s.artefact_rate <= 0x7FF0_0000_0000_0000;
            let noisy = 0 < s.noise <= 0x7FF0_0000_0000_0000;
            let mid = if rough {
                after(rng, 1)
            } else {
                rng
            };
            gen::quote_drawn(s, rng, mantissa, g) == (
                Quote::Price {
                    mantissa,
                    scale: g.scale,
                    tick: g.tick,
                    artefact: rough && gen::is_below(gen::drawn_unit(rng), s.artefact_rate),
                    noise: if noisy {
                        Some(gen::unit_bits(gen::drawn_unit(mid)))
                    } else {
                        None
                    },
                },
                if noisy {
                    after(mid, 1)
                } else {
                    mid
                },
            )
        }),
{
    let rough = 0 < s.artefact_rate <= 0x7FF0_0000_0000_0000;
    let mid = if rough {
        after(rng, 1)
    } else {
        rng
    };
    states_are_equally_far_apart(rng, 0);
    states_are_equally_far_apart(mid, 0);
}

/// The finest scale is the largest of the grids'.
pub proof fn finest_scale_is_the_largest(grids: Seq<Grid>, i: int)
    requires
        0 <= i < grids.len(),
    ensures
        grids[i].scale <= gen::finest(grids),
        exists|j: int| 0 <= j < grids.len() && #[trigger] grids[j].scale == gen::finest(grids),
    decreases grids.len(),
{
    let n = grids.len() - 1;
    let before = grids.drop_last();
    assert(grids[n].scale == grids.last().scale);
    if n > 0 {
        finest_scale_is_the_largest(
            before,
            if i < n {
                i
            } else {
                0
            },
        );
        let j = choose|j: int|
            0 <= j < before.len() && #[trigger] before[j].scale == gen::finest(before);
        assert(grids[j].scale == before[j].scale);
        if i < n {
            assert(grids[i] == before[i]);
        }
    } else {
        assert(gen::finest(before) == 0);
    }
}

/// The tick of a grid at the finest scale is its tick with zeros appended, unless
/// that is zero or does not fit in an `i64`.
pub proof fn units_are_ticks_with_zeros(g: Grid, fine: u32)
    requires
        g.scale <= fine,
    ensures
        ({
            let u = g.tick * float::pow10((fine - g.scale) as nat);
            match gen::unit_of(g, fine) {
                Some(v) => u == v && v != 0,
                None => u == 0 || u < i64::MIN || u > i64::MAX,
            }
        }),
{
}

/// Cutting digits off a level moves it towards zero, by less than what the digits
/// can hold.
pub proof fn cut_levels_are_next_to_the_level(level: i64, zeros: nat)
    requires
        zeros <= 12,
    ensures
        ({
            let p = float::pow10(zeros);
            let m = gen::shortened(level, zeros);
            &&& level >= 0 ==> m * p <= level < m * p + p
            &&& level <= 0 ==> m * p - p < level <= m * p
        }),
{
    let p = float::pow10(zeros) as int;
    float::lemma_pow10_bounds(zeros);
    let size = if level >= 0 {
        level as int
    } else {
        -level
    };
    lemma_fundamental_div_mod(size, p);
    lemma_mod_division_less_than_divisor(size, p);
    lemma_mul_is_commutative(p, size / p);
    let c = size / p;
    assert(c <= size && c >= 0) by (nonlinear_arith)
        requires
            c == size / p,
            p >= 1,
            size >= 0,
    ;
    assert((-c) * p == -(c * p)) by (nonlinear_arith);
}

/// A later grid takes effect at its start, in turn, and not before.
pub proof fn grids_take_effect_in_turn(grids: Seq<Grid>, at: nat, level: i64, i: nat)
    requires
        at < grids.len(),
    ensures
        at + 1 == grids.len() || grids[at as int + 1].start > i ==> gen::seek(grids, at, level, i)
            == Some((at, level)),
        at + 1 < grids.len() && grids[at as int + 1].start <= i && gen::unit_of(
            grids[at as int + 1],
            gen::finest(grids),
        ) is None ==> gen::seek(grids, at, level, i) is None,
{
}

/// The walk starts on the first grid, less than a tick of it from the start price
/// and not further from zero, with the seed for its state and nothing going on.
pub proof fn walks_start_at_the_start_price(s: Scenario, u: i64)
    requires
        s.grids@.len() > 0,
        gen::unit_of(s.grids@[0], gen::finest(s.grids@)) == Some(u),
    ensures
        ({
            let price = float::scaled_to_i64(s.start_price, gen::finest(s.grids@) as nat);
            gen::walk_start(s) matches Some(st) && {
                &&& st.rng == s.seed
                &&& st.grid == 0 && st.halt_left == 0 && st.nan_left == 0
                &&& -u < price - st.level < u || u < price - st.level < -u
                &&& 0 <= st.level <= price || price <= st.level <= 0
                &&& st.level as int % u as int == 0
            }
        }),
{
    let price = float::scaled_to_i64(s.start_price, gen::finest(s.grids@) as nat);
    let ticks = gen::snapping_moves_by_less_than_a_tick(price, u);
    lemma_multiple_any_sign(ticks, u as int);
}

proof fn lemma_multiple_any_sign(c: int, u: int)
    requires
        u != 0,
    ensures
        (c * u) % u == 0,
{
    if u > 0 {
        lemma_mod_multiples_basic(c, u);
    } else {
        let r = (c * u) % u;
        assert(r == 0) by (nonlinear_arith)
            requires
                u < 0,
                r == (c * u) % u,
        ;
    }
}

/// A tick is drawn in this order: the grid in effect, a halt, a move, the time gap,
/// the size, a gap of NaNs and, outside one, the quote, at the scale of the grid.
pub proof fn ticks_are_drawn_in_order(s: Scenario, st: WalkModel, i: nat, u: i64, moved: WalkModel)
    requires
        gen::seek(s.grids@, st.grid, st.level, i) matches Some((grid, level)) && {
            &&& gen::unit_of(s.grids@[grid as int], gen::finest(s.grids@)) == Some(u)
            &&& gen::move_drawn(s, gen::halt_drawn(s, WalkModel { grid, level, ..st }).0, u)
                == Some(moved)
        },
    ensures
        ({
            let (grid, level) = gen::seek(s.grids@, st.grid, st.level, i)->Some_0;
            let g = s.grids@[grid as int];
            let (size, sized) = gen::size_drawn(after(moved.rng, 1));
            let (gapped, in_gap) = gen::gap_drawn(s, WalkModel { rng: sized, ..moved });
            let mantissa = gen::shortened(
                gapped.level,
                (gen::finest(s.grids@) - g.scale) as nat,
            );
            let (quote, end) = gen::quote_drawn(s, gapped.rng, mantissa, g);
            gen::tick_drawn(s, st, i) matches Some((next, draw)) && {
                &&& draw.halt_ns == gen::halt_drawn(s, WalkModel { grid, level, ..st }).1
                &&& draw.gap == gen::unit_bits(gen::drawn_unit(moved.rng))
                &&& draw.size == size
                &&& in_gap ==> draw.quote == Quote::Gap && next == gapped
                &&& !in_gap ==> draw.quote == quote && next == (WalkModel { rng: end, ..gapped })
                &&& next.level == moved.level && next.grid == grid
            }
        }),
{
    reveal(gen::tick_drawn);
    states_are_equally_far_apart(moved.rng, 0);
}

/// No tick is drawn where a grid on the way has no tick size that fits, or where the
/// move does not fit, and no walk starts where the first grid has none.
pub proof fn walks_end_where_a_level_does_not_fit(s: Scenario, st: WalkModel, i: nat)
    ensures
        match gen::seek(s.grids@, st.grid, st.level, i) {
            None => gen::tick_drawn(s, st, i) is None,
            Some((grid, level)) => match gen::unit_of(
                s.grids@[grid as int],
                gen::finest(s.grids@),
            ) {
                None => gen::tick_drawn(s, st, i) is None,
                Some(u) => gen::move_drawn(
                    s,
                    gen::halt_drawn(s, WalkModel { grid, level, ..st }).0,
                    u,
                ) is None <==> gen::tick_drawn(s, st, i) is None,
            },
        },
        gen::unit_of(s.grids@[0], gen::finest(s.grids@)) is None ==> gen::walk_start(s) is None,
{
    reveal(gen::tick_drawn);
}

/// Without a move the price of a tick is that of the one before, brought to the
/// grid in effect.
pub proof fn halted_ticks_keep_the_price(s: Scenario, st: WalkModel, i: nat, grid: nat, level: i64)
    requires
        gen::seek(s.grids@, st.grid, st.level, i) == Some((grid, level)),
        gen::unit_of(s.grids@[grid as int], gen::finest(s.grids@)) is Some,
        st.halt_left > 0,
    ensures
        gen::tick_drawn(s, st, i) matches Some((next, draw)) && next.level == level && next.grid
            == grid && next.halt_left == st.halt_left - 1 && draw.halt_ns == 0,
{
    let u = gen::unit_of(s.grids@[grid as int], gen::finest(s.grids@))->Some_0;
    let at = WalkModel { grid, level, ..st };
    let (k, end) = gen::geometric_from(after(at.rng, 1), s.p_step, 1);
    halts_add_whole_minutes(s, at);
    moves_are_whole_ticks(s, at, u, k, end);
    let moved = WalkModel { halt_left: (st.halt_left - 1) as nat, ..at };
    ticks_are_drawn_in_order(s, st, i, u, moved);
    let (size, sized) = gen::size_drawn(after(moved.rng, 1));
    gaps_last_as_long_as_asked(s, WalkModel { rng: sized, ..moved });
}

/// The ticks of a scenario are drawn one by one, each from the state that the one
/// before leaves, and there are none if one cannot be drawn.
pub proof fn ticks_are_drawn_one_by_one(s: Scenario, st: WalkModel, i: nat)
    ensures
        i >= s.n ==> gen::ticks_drawn(s, st, i) == Some(Seq::<Draw>::empty()),
        i < s.n ==> match gen::tick_drawn(s, st, i) {
            Some((next, draw)) => match gen::ticks_drawn(s, next, i + 1) {
                Some(more) => gen::ticks_drawn(s, st, i) == Some(seq![draw] + more),
                None => gen::ticks_drawn(s, st, i) is None,
            },
            None => gen::ticks_drawn(s, st, i) is None,
        },
        match gen::walk_start(s) {
            Some(start) => gen::scenario_drawn(s) == gen::ticks_drawn(s, start, 0),
            None => gen::scenario_drawn(s) is None,
        },
{
}

/// The clock starts where every scenario does, and each tick takes it on by its halt and
/// its gap.
pub proof fn clock_adds_halts_and_gaps(draws: Seq<Draw>, gaps_us: Seq<i64>, n: nat)
    ensures
        gen::clock(draws, gaps_us, 0) == 1_767_000_000_000_000_000,
        gen::clock(draws, gaps_us, n + 1) - gen::clock(draws, gaps_us, n) == draws[n as int].halt_ns
            + 1000 * gaps_us[n as int],
{
}

/// The price of a quote is a NaN in a gap, and else the double of its mantissa and
/// scale, unless it is an artefact or has noise.
pub proof fn clean_prices_are_grid_values(mantissa: i64, scale: u32, tick: i64, noise: u64)
    ensures
        gen::clean_price_of(Quote::Gap) == Some(0x7FF8_0000_0000_0000u64),
        gen::clean_price_of(
            Quote::Price { mantissa, scale, tick, artefact: false, noise: None },
        ) == Some(float::grid_value(mantissa, scale as nat)),
        gen::clean_price_of(
            Quote::Price { mantissa, scale, tick, artefact: true, noise: None },
        ) is None,
        gen::clean_price_of(
            Quote::Price { mantissa, scale, tick, artefact: true, noise: Some(noise) },
        ) is None,
        gen::clean_price_of(
            Quote::Price { mantissa, scale, tick, artefact: false, noise: Some(noise) },
        ) is None,
{
}

/// The time of a tick is reached within an `i64` exactly if it is one after the
/// halt, the gap is one in nanoseconds, and the sum is.
pub proof fn times_fit_in_an_i64(draws: Seq<Draw>, gaps_us: Seq<i64>, i: nat)
    ensures
        ({
            let late = gen::clock(draws, gaps_us, i) + draws[i as int].halt_ns;
            let gap = 1000 * gaps_us[i as int];
            gen::clock_fits(draws, gaps_us, i as int) <==> i64::MIN <= late <= i64::MAX && i64::MIN
                <= gap <= i64::MAX && i64::MIN <= late + gap <= i64::MAX
        }),
{
}

/// `p` is the double nearest to `n / d`, for doubles of at most 53 bits before the
/// point: `d` times its significand is at most half of `d` away from `n` in units
/// of its last bit.
pub open spec fn is_nearest(p: u64, n: nat, d: nat) -> bool {
    let exact = n * pow2((-float::exponent(p)) as nat);
    &&& !float::is_negative(p) && float::is_finite(p)
    &&& 0x10_0000_0000_0000 <= float::significand(p)
    &&& -1074 <= float::exponent(p) <= 0
    &&& 2 * exact <= 2 * (d * float::significand(p)) + d
    &&& 2 * (d * float::significand(p)) <= 2 * exact + d
}

proof fn lemma_nearest(p: u64, e: nat, f: nat, n: nat, d: nat)
    requires
        1000 <= e <= 1075,
        f < 0x10_0000_0000_0000,
        p == e * 0x10_0000_0000_0000 + f,
        2 * (n * pow2((1075 - e) as nat)) <= 2 * (d * (f + 0x10_0000_0000_0000)) + d,
        2 * (d * (f + 0x10_0000_0000_0000)) <= 2 * (n * pow2((1075 - e) as nat)) + d,
    ensures
        is_nearest(p, n, d),
{
    rounding::doubles_have_three_fields(p, 0, e, f);
}

/// The probabilities and prices of the scenarios are the doubles nearest to their
/// decimals.
pub proof fn rates_are_the_nearest_doubles()
    ensures
        is_nearest(gen::P_0_2, 2, 10),
        is_nearest(gen::P_0_3, 3, 10),
        is_nearest(gen::P_0_4, 4, 10),
        is_nearest(gen::P_0_5, 5, 10),
        is_nearest(gen::P_0_6, 6, 10),
        is_nearest(gen::P_0_8, 8, 10),
        is_nearest(gen::P_0_0001, 1, 10_000),
        is_nearest(gen::P_0_0002, 2, 10_000),
        is_nearest(gen::P_0_0005, 5, 10_000),
        is_nearest(gen::PRICE_1_0845, 10_845, 10_000),
        is_nearest(gen::PRICE_101_3, 1_013, 10),
        is_nearest(gen::PRICE_250, 250, 1),
        is_nearest(gen::PRICE_4500_25, 450_025, 100),
{
    lemma2_to64();
    lemma2_to64_rest();
    lemma_pow2_unfold(65);
    lemma_pow2_unfold(66);
    lemma_nearest(gen::P_0_2, 0x3FC, 0x9_9999_9999_999A, 2, 10);
    lemma_nearest(gen::P_0_3, 0x3FD, 0x3_3333_3333_3333, 3, 10);
    lemma_nearest(gen::P_0_4, 0x3FD, 0x9_9999_9999_999A, 4, 10);
    lemma_nearest(gen::P_0_5, 0x3FE, 0, 5, 10);
    lemma_nearest(gen::P_0_6, 0x3FE, 0x3_3333_3333_3333, 6, 10);
    lemma_nearest(gen::P_0_8, 0x3FE, 0x9_9999_9999_999A, 8, 10);
    lemma_nearest(gen::P_0_0001, 0x3F1, 0xA_36E2_EB1C_432D, 1, 10_000);
    lemma_nearest(gen::P_0_0002, 0x3F2, 0xA_36E2_EB1C_432D, 2, 10_000);
    lemma_nearest(gen::P_0_0005, 0x3F4, 0x0_624D_D2F1_A9FC, 5, 10_000);
    lemma_nearest(gen::PRICE_1_0845, 0x3FF, 0x1_5A1C_AC08_3127, 10_845, 10_000);
    lemma_nearest(gen::PRICE_101_3, 0x405, 0x9_5333_3333_3333, 1_013, 10);
    lemma_nearest(gen::PRICE_250, 0x406, 0xF_4000_0000_0000, 250, 1);
    lemma_nearest(gen::PRICE_4500_25, 0x40B, 0x1_9440_0000_0000, 450_025, 100);
}

/// A plain walk moves at four of ten ticks, goes on with three of ten, and has no
/// halts, artefacts, gaps or noise.
pub proof fn plain_walks_have_no_impairments(s: Scenario)
    requires
        s.rates() == gen::plain(),
    ensures
        is_nearest(s.p_move, 4, 10),
        is_nearest(s.p_step, 3, 10),
        s.p_halt == 0 && s.halt_len == 0,
        s.artefact_rate == 0,
        s.p_nan_gap == 0 && s.nan_gap_len == 0,
        s.noise == 0,
{
    rates_are_the_nearest_doubles();
    let r = s.rates();
    assert(r.p_move == s.p_move && r.p_step == s.p_step && r.p_halt == s.p_halt);
}

/// Two scenarios with the same rates, and the same start, are the same in every
/// field but their grids.
pub proof fn scenarios_are_told_apart_by_their_fields(s: Scenario, t: Scenario)
    ensures
        s.rates() == t.rates() <==> {
            &&& s.p_move == t.p_move && s.p_step == t.p_step
            &&& s.p_halt == t.p_halt && s.halt_len == t.halt_len
            &&& s.artefact_rate == t.artefact_rate
            &&& s.p_nan_gap == t.p_nan_gap && s.nan_gap_len == t.nan_gap_len
            &&& s.noise == t.noise
        },
        s.starts(t.name, t.seed, t.n, t.start_price) <==> {
            &&& s.name == t.name && s.seed == t.seed
            &&& s.n == t.n && s.start_price == t.start_price
        },
        s.rates().p_move == s.p_move && s.rates().p_step == s.p_step,
        s.rates().p_halt == s.p_halt && s.rates().halt_len == s.halt_len,
        s.rates().artefact_rate == s.artefact_rate && s.rates().noise == s.noise,
        s.rates().p_nan_gap == s.p_nan_gap && s.rates().nan_gap_len == s.nan_gap_len,
{
    let (a, b) = (s.rates(), t.rates());
    assert(a.p_move == s.p_move && b.p_move == t.p_move);
    assert(a.p_step == s.p_step && b.p_step == t.p_step);
    assert(a.p_halt == s.p_halt && b.p_halt == t.p_halt);
    assert(a.halt_len == s.halt_len && b.halt_len == t.halt_len);
    assert(a.artefact_rate == s.artefact_rate && b.artefact_rate == t.artefact_rate);
    assert(a.p_nan_gap == s.p_nan_gap && b.p_nan_gap == t.p_nan_gap);
    assert(a.nan_gap_len == s.nan_gap_len && b.nan_gap_len == t.nan_gap_len);
    assert(a.noise == s.noise && b.noise == t.noise);
}

} // verus!
