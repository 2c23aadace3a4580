//! Deterministic synthetic tick generator.
//!
//! Prices follow a random walk on a decimal tick grid. The walk runs on an
//! integer mantissa at the finest scale used by any segment, so a precision
//! change keeps the price level and only changes the grid it snaps to. Clean
//! prices are `mantissa / 10^scale`, which is the double a feed handler gets
//! from parsing the decimal string.
//!
//! [`generate`] makes every random draw of a scenario and gives, for each tick,
//! what the draws decide: the halt, the time gap, the size and the quote. Doubles
//! are given by their bit patterns.

use crate::bits::width;
use crate::bitseq;
use crate::decimal;
use crate::float;
use crate::float::{grid_bits, power_of_ten, scale_to_i64};
use crate::gcd;
use crate::price::MAX_SCALE;
use crate::words;
use vstd::arithmetic::div_mod::*;
use vstd::arithmetic::mul::*;
use vstd::arithmetic::power2::*;
use vstd::bits::*;
use vstd::prelude::*;

verus! {

/// What SplitMix64 adds to its state for every number.
pub const GOLDEN: u64 = 0x9E37_79B9_7F4A_7C15;

/// The state after the next number.
pub open spec fn advanced(state: u64) -> u64 {
    state.wrapping_add(GOLDEN)
}

/// The number that SplitMix64 gives for a state.
pub open spec fn mixed(state: u64) -> u64 {
    let a = (state ^ (state >> 30u64)).wrapping_mul(0xBF58_476D_1CE4_E5B9);
    let b = (a ^ (a >> 27u64)).wrapping_mul(0x94D0_49BB_1331_11EB);
    b ^ (b >> 31u64)
}

/// The next number.
pub open spec fn drawn(state: u64) -> u64 {
    mixed(advanced(state))
}

/// The next number in [0, 1), in units of `2^-53`.
pub open spec fn drawn_unit(state: u64) -> nat {
    drawn(state) as nat / 2048
}

/// The bit pattern of `x / 2^53`.
pub open spec fn unit_bits(x: nat) -> u64 {
    let l = bitseq::bit_length(x);
    if x == 0 {
        0
    } else {
        float::magnitude_bits(x * pow2((53 - l) as nat), l - 106) as u64
    }
}

/// `x / 2^53` is less than the double with the bit pattern `p`.
pub open spec fn is_below(x: nat, p: u64) -> bool {
    if float::is_negative(p) {
        false
    } else if !float::is_finite(p) {
        float::fraction_bits(p) == 0
    } else {
        x * pow2(1021) < float::significand(p) * pow2((float::exponent(p) + 1074) as nat)
    }
}

/// `geometric` from the count `k` on: the count and the state it leaves.
pub open spec fn geometric_from(state: u64, p: u64, k: int) -> (int, u64)
    decreases 1000 - k,
{
    if k >= 1000 {
        (k, state)
    } else if is_below(drawn_unit(state), p) {
        geometric_from(advanced(state), p, k + 1)
    } else {
        (k, advanced(state))
    }
}

/// SplitMix64: small, fast, and good enough for synthetic data.
#[derive(Debug, Clone)]
pub struct Rng(u64);

impl View for Rng {
    type V = u64;

    closed spec fn view(&self) -> u64 {
        self.0
    }
}

impl Rng {
    pub fn new(seed: u64) -> (rng: Self)
        ensures
            rng@ == seed,
    {
        Rng(seed)
    }

    pub fn next_u64(&mut self) -> (z: u64)
        ensures
            final(self)@ == advanced(old(self)@),
            z == drawn(old(self)@),
    {
        self.0 = self.0.wrapping_add(GOLDEN);
        let mut z: u64 = self.0;
        z = (z ^ (z >> 30u64)).wrapping_mul(0xBF58_476D_1CE4_E5B9);
        z = (z ^ (z >> 27u64)).wrapping_mul(0x94D0_49BB_1331_11EB);
        z ^ (z >> 31u64)
    }

    /// Uniform in [0, 1), in units of `2^-53`.
    fn next_unit(&mut self) -> (x: u64)
        ensures
            final(self)@ == advanced(old(self)@),
            x == drawn_unit(old(self)@),
            x < 0x20_0000_0000_0000,
    {
        let z: u64 = self.next_u64();
        proof {
            lemma_u64_shr_is_div(z, 11);
            lemma2_to64();
        }
        z >> 11u64
    }

    /// Uniform in [0, 1), as the bit pattern of a double.
    pub fn unit(&mut self) -> (b: u64)
        ensures
            final(self)@ == advanced(old(self)@),
            b == unit_bits(drawn_unit(old(self)@)),
    {
        let x: u64 = self.next_unit();
        if x == 0 {
            return 0;
        }
        let l: u32 = width(x);
        proof {
            words::lemma_pow2_values();
            bitseq::lemma_bit_length(x as nat);
            bitseq::lemma_bit_length_bound(x as nat, 53);
            lemma_pow2_adds(l as nat, (53 - l) as nat);
            let (xx, hi, c) = (x as int, pow2(l as nat) as int, pow2((53 - l) as nat) as int);
            lemma_pow2_pos((53 - l) as nat);
            assert(0 <= xx * c < hi * c) by (nonlinear_arith)
                requires
                    0 <= xx < hi,
                    c > 0,
            ;
            lemma_u64_shl_is_mul(x, (53 - l) as u64);
        }
        let q: u64 = x << (53 - l);
        (l as u64 + 968) * 0x10_0000_0000_0000 + q
    }

    /// True with the probability `p`, a double given by its bit pattern.
    pub fn chance(&mut self, p: u64) -> (yes: bool)
        ensures
            final(self)@ == advanced(old(self)@),
            yes == is_below(drawn_unit(old(self)@), p),
    {
        let x: u64 = self.next_unit();
        below(x, p)
    }

    /// 1, 2, 3, ... with P(k) = (1 - p) p^(k - 1).
    pub fn geometric(&mut self, p: u64) -> (k: i64)
        ensures
            (k as int, final(self)@) == geometric_from(old(self)@, p, 1),
            1 <= k <= 1000,
    {
        let mut k: i64 = 1;
        let ghost start = self@;
        while k < 1000
            invariant_except_break
                1 <= k <= 1000,
                geometric_from(self@, p, k as int) == geometric_from(start, p, 1),
            ensures
                1 <= k <= 1000,
                (k as int, self@) == geometric_from(start, p, 1),
            decreases 1000 - k,
        {
            if !self.chance(p) {
                break;
            }
            k = k + 1;
        }
        k
    }
}

/// Whether `x / 2^53` is less than the double with the bit pattern `p`.
fn below(x: u64, p: u64) -> (yes: bool)
    requires
        x < 0x20_0000_0000_0000,
    ensures
        yes == is_below(x as nat, p),
{
    let frac: u64 = p % 0x10_0000_0000_0000;
    if p >= 0x8000_0000_0000_0000 {
        return false;
    }
    let eb: u64 = p / 0x10_0000_0000_0000;
    if eb == 2047 {
        return frac == 0;
    }
    proof {
        words::lemma_pow2_values();
        lemma_pow2_pos(1021);
        lemma_mul_basics(pow2(1021) as int);
    }
    let ghost one = pow2(1021) as int;
    let ghost xx = x as int;
    if eb == 0 {
        proof {
            lemma_mul_basics(frac as int);
            words::lemma_pow2_le(52, 1021);
            assert(xx > 0 ==> xx * one >= one) by (nonlinear_arith)
                requires
                    one > 0,
            ;
        }
        return x == 0 && frac > 0;
    }
    let sig: u64 = frac + 0x10_0000_0000_0000;
    let ghost ss = sig as int;
    let ghost f = pow2((eb - 1) as nat) as int;
    assert(float::exponent(p) + 1074 == eb - 1);
    if eb >= 1023 {
        proof {
            // p is at least 1.
            words::lemma_pow2_le(1022, (eb - 1) as nat);
            lemma_pow2_unfold(1022);
            assert(xx * one < ss * f) by (nonlinear_arith)
                requires
                    0 <= xx < 0x20_0000_0000_0000,
                    ss >= 0x10_0000_0000_0000,
                    f >= 2 * one,
                    one > 0,
            ;
        }
        return true;
    }
    let k: u64 = 1022 - eb;
    let ghost c = pow2(k as nat) as int;
    proof {
        lemma_pow2_adds((eb - 1) as nat, k as nat);
        lemma_pow2_pos((eb - 1) as nat);
        assert((xx * one < ss * f) == (xx * c < ss)) by (nonlinear_arith)
            requires
                one == f * c,
                f > 0,
        ;
    }
    if k >= 64 {
        proof {
            words::lemma_pow2_le(64, k as nat);
            lemma_mul_basics(c);
            assert(xx > 0 ==> xx * c >= c) by (nonlinear_arith)
                requires
                    c > 0,
            ;
        }
        return x == 0;
    }
    proof {
        words::lemma_pow2_le(k as nat, 63);
        lemma_pow2_adds(53, 63);
        words::lemma_pow2_le(116, 120);
        lemma_pow2_adds(120, 8);
        assert(0 <= xx * c <= 0x20_0000_0000_0000 * pow2(63)) by (nonlinear_arith)
            requires
                0 <= xx <= 0x20_0000_0000_0000,
                0 < c <= pow2(63),
        ;
        lemma_pow2_pos(k as nat);
        words::lemma_u128_shl(x as u128, k as u128);
    }
    ((x as u128) << k) < sig as u128
}

/// The pattern that `unit` gives is the number drawn: `x / 2^53` exactly, and
/// less than 1.
pub proof fn unit_is_exact(x: nat)
    requires
        x < 0x20_0000_0000_0000,
    ensures
        float::is_finite(unit_bits(x)),
        !float::is_negative(unit_bits(x)),
        float::significand(unit_bits(x)) * pow2((float::exponent(unit_bits(x)) + 1074) as nat)
            == x * pow2(1021),
        unit_bits(x) < 0x3FF0_0000_0000_0000,
{
    words::lemma_pow2_values();
    let b = unit_bits(x);
    if x == 0 {
        lemma_mul_basics(pow2(1021) as int);
        lemma_mul_basics(pow2((float::exponent(b) + 1074) as nat) as int);
    } else {
        let l = bitseq::bit_length(x);
        let c = pow2((53 - l) as nat);
        let q = x * c;
        bitseq::lemma_bit_length(x);
        bitseq::lemma_bit_length_bound(x, 53);
        lemma_pow2_pos((53 - l) as nat);
        lemma_pow2_adds(l, (53 - l) as nat);
        lemma_pow2_adds((l - 1) as nat, (53 - l) as nat);
        let (xx, lo, hi, cc) = (x as int, pow2((l - 1) as nat) as int, pow2(l) as int, c as int);
        assert(lo * cc <= xx * cc < hi * cc) by (nonlinear_arith)
            requires
                lo <= xx < hi,
                cc > 0,
        ;
        let e = l - 106;
        assert(float::magnitude_bits(q, e) == (l + 968) * 0x10_0000_0000_0000 + q);
        decimal::lemma_magnitude_read_back(b, q, e);
        lemma_pow2_adds((53 - l) as nat, (e + 1074) as nat);
        lemma_mul_is_associative(x as int, c as int, pow2((e + 1074) as nat) as int);
    }
}

/// A tick grid in effect from `start` onwards.
#[derive(Debug, Clone, Copy, PartialEq, Eq, Structural)]
pub struct Grid {
    pub start: usize,
    /// Decimal places of the quoted price.
    pub scale: u32,
    /// Tick size in units of 10^-scale (25 at scale 2 is a 0.25 tick).
    pub tick: i64,
}

/// What to generate. The price, the probabilities and the rates are doubles,
/// given by their bit patterns.
#[derive(Debug, Clone, PartialEq)]
pub struct Scenario {
    pub name: &'static str,
    pub seed: u64,
    pub n: usize,
    pub start_price: u64,
    /// Grids sorted by `start`; the first must start at 0.
    pub grids: Vec<Grid>,
    /// Probability that a tick moves the price.
    pub p_move: u64,
    /// Continuation probability of the geometric move size, in ticks.
    pub p_step: u64,
    /// Probability per tick that a halt (flat price, then a time gap) begins.
    pub p_halt: u64,
    pub halt_len: usize,
    /// Fraction of prices recomputed as `mantissa * 10^-scale`, which yields
    /// artefacts such as 101.30000000000001.
    pub artefact_rate: u64,
    /// Probability per tick that a gap of NaN prices begins.
    pub p_nan_gap: u64,
    pub nan_gap_len: usize,
    /// Uniform off-grid noise added to every price, as a fraction of a tick.
    pub noise: u64,
}

/// The price of a tick.
#[derive(Debug, Clone, Copy, PartialEq, Eq, Structural)]
pub enum Quote {
    /// No price: a NaN.
    Gap,
    /// The price `mantissa / 10^scale`.
    Price {
        mantissa: i64,
        scale: u32,
        /// The tick of the grid in effect, in units of 10^-scale.
        tick: i64,
        /// It is recomputed as `mantissa * 10^-scale`.
        artefact: bool,
        /// The draw in [0, 1) behind its noise, a bit pattern, if it has any.
        noise: Option<u64>,
    },
}

/// What is drawn for one tick.
#[derive(Debug, Clone, Copy, PartialEq, Eq, Structural)]
pub struct Draw {
    /// Nanoseconds that a halt adds before the tick.
    pub halt_ns: i64,
    /// The draw in [0, 1) behind the time gap before the tick, a bit pattern.
    pub gap: u64,
    pub size: i64,
    pub quote: Quote,
}

/// The columns of a scenario.
#[derive(Debug, Clone, PartialEq)]
pub struct Ticks {
    /// Nanoseconds since the Unix epoch.
    pub ts: Vec<i64>,
    /// Bit patterns of doubles.
    pub price: Vec<u64>,
    pub size: Vec<i64>,
}

/// The double 0.2.
pub const P_0_2: u64 = 0x3FC9_9999_9999_999A;

/// The double 0.3.
pub const P_0_3: u64 = 0x3FD3_3333_3333_3333;

/// The double 0.4.
pub const P_0_4: u64 = 0x3FD9_9999_9999_999A;

/// The double 0.5.
pub const P_0_5: u64 = 0x3FE0_0000_0000_0000;

/// The double 0.6.
pub const P_0_6: u64 = 0x3FE3_3333_3333_3333;

/// The double 0.8.
pub const P_0_8: u64 = 0x3FE9_9999_9999_999A;

/// The double 0.0001.
pub const P_0_0001: u64 = 0x3F1A_36E2_EB1C_432D;

/// The double 0.0002.
pub const P_0_0002: u64 = 0x3F2A_36E2_EB1C_432D;

/// The double 0.0005.
pub const P_0_0005: u64 = 0x3F40_624D_D2F1_A9FC;

/// The double 1.0845.
pub const PRICE_1_0845: u64 = 0x3FF1_5A1C_AC08_3127;

/// The double 101.3.
pub const PRICE_101_3: u64 = 0x4059_5333_3333_3333;

/// The double 250.
pub const PRICE_250: u64 = 0x406F_4000_0000_0000;

/// The double 4500.25.
pub const PRICE_4500_25: u64 = 0x40B1_9440_0000_0000;

/// The largest scale of any grid.
pub open spec fn finest(grids: Seq<Grid>) -> u32
    decreases grids.len(),
{
    if grids.len() == 0 {
        0
    } else {
        let before = finest(grids.drop_last());
        if grids.last().scale > before {
            grids.last().scale
        } else {
            before
        }
    }
}

/// The first grid starts at 0 and no scale is above 12.
pub open spec fn grids_valid(grids: Seq<Grid>) -> bool {
    grids.len() > 0 && grids[0].start == 0 && finest(grids) <= MAX_SCALE
}

/// The tick of a grid at the scale `fine`, if it is not 0 and fits in an i64.
pub open spec fn unit_of(g: Grid, fine: u32) -> Option<i64> {
    let u = g.tick * float::pow10((fine - g.scale) as nat);
    if u != 0 && i64::MIN <= u <= i64::MAX {
        Some(u as i64)
    } else {
        None
    }
}

/// `level` brought to a multiple of `u`, towards zero.
pub open spec fn snapped(level: i64, u: i64) -> i64 {
    let a = gcd::distance(u as int) as int;
    if level >= 0 {
        (level - level as int % a) as i64
    } else {
        (level + (-level) % a) as i64
    }
}

/// The state of the walk.
pub struct WalkModel {
    pub rng: u64,
    /// The grid in effect.
    pub grid: nat,
    /// The price, at the finest scale.
    pub level: i64,
    /// Ticks left of a halt.
    pub halt_left: nat,
    /// Ticks left of a gap of NaNs.
    pub nan_left: nat,
}

/// The state before the first tick.
pub open spec fn walk_start(s: Scenario) -> Option<WalkModel> {
    let fine = finest(s.grids@);
    match unit_of(s.grids@[0], fine) {
        None => None,
        Some(u) => Some(
            WalkModel {
                rng: s.seed,
                grid: 0,
                level: snapped(float::scaled_to_i64(s.start_price, fine as nat), u),
                halt_left: 0,
                nan_left: 0,
            },
        ),
    }
}

/// The grid in effect at the tick `i`, reached from the grid `at`, and the level
/// snapped to every grid on the way.
pub open spec fn seek(grids: Seq<Grid>, at: nat, level: i64, i: nat) -> Option<(nat, i64)>
    decreases grids.len() - at,
{
    if at + 1 < grids.len() && grids[at as int + 1].start <= i {
        match unit_of(grids[at as int + 1], finest(grids)) {
            None => None,
            Some(u) => seek(grids, at + 1, snapped(level, u), i),
        }
    } else {
        Some((at, level))
    }
}

/// The double with the bit pattern `p` is above 0.
pub open spec fn is_positive(p: u64) -> bool {
    0 < p <= 0x7FF0_0000_0000_0000
}

/// A halt may begin: the state after the draws, and the time it adds.
pub open spec fn halt_drawn(s: Scenario, st: WalkModel) -> (WalkModel, i64) {
    if st.halt_left == 0 && is_positive(s.p_halt) {
        let next = advanced(st.rng);
        if is_below(drawn_unit(st.rng), s.p_halt) {
            (
                WalkModel { rng: advanced(next), halt_left: s.halt_len as nat, ..st },
                (60_000_000_000 * (1 + drawn(next) as int % 30)) as i64,
            )
        } else {
            (WalkModel { rng: next, ..st }, 0)
        }
    } else {
        (st, 0)
    }
}

/// `x` if it fits in an i64.
pub open spec fn fitting(x: int) -> Option<i64> {
    if i64::MIN <= x <= i64::MAX {
        Some(x as i64)
    } else {
        None
    }
}

/// The level after a move of `k` ticks of `u`: up if `up`, or if going down
/// would leave at most one tick, and down otherwise.
pub open spec fn level_moved(level: i64, k: int, u: i64, up: bool) -> Option<i64> {
    match fitting(k * u) {
        None => None,
        Some(step) => if up {
            fitting(level + step)
        } else {
            match fitting(level - step) {
                None => None,
                Some(down) => if down <= u {
                    fitting(level + step)
                } else {
                    Some(down)
                },
            }
        },
    }
}

/// The price may move, unless there is a halt.
pub open spec fn move_drawn(s: Scenario, st: WalkModel, u: i64) -> Option<WalkModel> {
    if st.halt_left > 0 {
        Some(WalkModel { halt_left: (st.halt_left - 1) as nat, ..st })
    } else if is_below(drawn_unit(st.rng), s.p_move) {
        let (k, rng) = geometric_from(advanced(st.rng), s.p_step, 1);
        match level_moved(st.level, k, u, is_below(drawn_unit(rng), P_0_5)) {
            None => None,
            Some(level) => Some(WalkModel { rng: advanced(rng), level, ..st }),
        }
    } else {
        Some(WalkModel { rng: advanced(st.rng), ..st })
    }
}

/// The size of a tick, a round lot or an odd one, and the state it leaves.
pub open spec fn size_drawn(rng: u64) -> (i64, u64) {
    let next = advanced(rng);
    if is_below(drawn_unit(rng), P_0_8) {
        let (k, after) = geometric_from(next, P_0_5, 1);
        ((100 * k) as i64, after)
    } else {
        ((1 + drawn(next) as int % 99) as i64, advanced(next))
    }
}

/// A gap of NaNs may begin: the state after the draw, and whether the tick is
/// in a gap.
pub open spec fn gap_drawn(s: Scenario, st: WalkModel) -> (WalkModel, bool) {
    let begun = if st.nan_left == 0 && is_positive(s.p_nan_gap) {
        let rng = advanced(st.rng);
        if is_below(drawn_unit(st.rng), s.p_nan_gap) {
            WalkModel { rng, nan_left: s.nan_gap_len as nat, ..st }
        } else {
            WalkModel { rng, ..st }
        }
    } else {
        st
    };
    if begun.nan_left > 0 {
        (WalkModel { nan_left: (begun.nan_left - 1) as nat, ..begun }, true)
    } else {
        (begun, false)
    }
}

/// The quote of a tick that is not in a gap, and the state it leaves.
pub open spec fn quote_drawn(s: Scenario, rng: u64, mantissa: i64, g: Grid) -> (Quote, u64) {
    let (artefact, rng) = if is_positive(s.artefact_rate) {
        (is_below(drawn_unit(rng), s.artefact_rate), advanced(rng))
    } else {
        (false, rng)
    };
    let (noise, rng) = if is_positive(s.noise) {
        (Some(unit_bits(drawn_unit(rng))), advanced(rng))
    } else {
        (None, rng)
    };
    (Quote::Price { mantissa, scale: g.scale, tick: g.tick, artefact, noise }, rng)
}

/// `level` without its last `zeros` decimal digits.
pub open spec fn shortened(level: i64, zeros: nat) -> i64 {
    if level >= 0 {
        (level as int / float::pow10(zeros) as int) as i64
    } else {
        (-((-level) / float::pow10(zeros) as int)) as i64
    }
}

/// One tick: the state it leaves and what is drawn for it.
#[verifier::opaque]
pub open spec fn tick_drawn(s: Scenario, st: WalkModel, i: nat) -> Option<(WalkModel, Draw)> {
    let grids = s.grids@;
    let fine = finest(grids);
    match seek(grids, st.grid, st.level, i) {
        None => None,
        Some((grid, level)) => match unit_of(grids[grid as int], fine) {
            None => None,
            Some(u) => {
                let (st, halt_ns) = halt_drawn(s, WalkModel { grid, level, ..st });
                match move_drawn(s, st, u) {
                    None => None,
                    Some(st) => {
                        let gap = unit_bits(drawn_unit(st.rng));
                        let (size, rng) = size_drawn(advanced(st.rng));
                        let (st, in_gap) = gap_drawn(s, WalkModel { rng, ..st });
                        let g = grids[grid as int];
                        let (quote, rng) = if in_gap {
                            (Quote::Gap, st.rng)
                        } else {
                            quote_drawn(
                                s,
                                st.rng,
                                shortened(st.level, (fine - g.scale) as nat),
                                g,
                            )
                        };
                        Some((WalkModel { rng, ..st }, Draw { halt_ns, gap, size, quote }))
                    },
                }
            },
        },
    }
}

/// The ticks from the index `i` on.
pub open spec fn ticks_drawn(s: Scenario, st: WalkModel, i: nat) -> Option<Seq<Draw>>
    decreases s.n - i,
{
    if i >= s.n {
        Some(Seq::empty())
    } else {
        match tick_drawn(s, st, i) {
            None => None,
            Some((st, draw)) => match ticks_drawn(s, st, i + 1) {
                None => None,
                Some(more) => Some(seq![draw] + more),
            },
        }
    }
}

/// All ticks of a scenario. There are none if a tick size is 0, or if one or a
/// level does not fit in an i64.
pub open spec fn scenario_drawn(s: Scenario) -> Option<Seq<Draw>> {
    match walk_start(s) {
        None => None,
        Some(st) => ticks_drawn(s, st, 0),
    }
}

/// How a scenario impairs its walk.
pub struct Rates {
    pub p_move: u64,
    pub p_step: u64,
    pub p_halt: u64,
    pub halt_len: usize,
    pub artefact_rate: u64,
    pub p_nan_gap: u64,
    pub nan_gap_len: usize,
    pub noise: u64,
}

/// The rates of a plain walk: it moves at 0.4 of the ticks, goes on moving with
/// the probability 0.3, and has no impairments.
pub open spec fn plain() -> Rates {
    Rates {
        p_move: P_0_4,
        p_step: P_0_3,
        p_halt: 0,
        halt_len: 0,
        artefact_rate: 0,
        p_nan_gap: 0,
        nan_gap_len: 0,
        noise: 0,
    }
}

impl Scenario {
    /// The rates of this scenario.
    pub open spec fn rates(self) -> Rates {
        Rates {
            p_move: self.p_move,
            p_step: self.p_step,
            p_halt: self.p_halt,
            halt_len: self.halt_len,
            artefact_rate: self.artefact_rate,
            p_nan_gap: self.p_nan_gap,
            nan_gap_len: self.nan_gap_len,
            noise: self.noise,
        }
    }

    /// This scenario starts as given.
    pub open spec fn starts(self, name: &'static str, seed: u64, n: usize,
        start_price: u64) -> bool {
        &&& self.name == name
        &&& self.seed == seed
        &&& self.n == n
        &&& self.start_price == start_price
    }

    /// A plain random walk on one grid with no impairments.
    pub fn walk(
        name: &'static str,
        seed: u64,
        n: usize,
        start_price: u64,
        scale: u32,
        tick: i64,
    ) -> (s: Self)
        ensures
            s.starts(name, seed, n, start_price),
            s.grids@ == seq![Grid { start: 0, scale, tick }],
            s.rates() == plain(),
    {
        let mut grids: Vec<Grid> = Vec::new();
        grids.push(Grid { start: 0, scale, tick });
        Scenario {
            name,
            seed,
            n,
            start_price,
            grids,
            p_move: P_0_4,
            p_step: P_0_3,
            p_halt: 0,
            halt_len: 0,
            artefact_rate: 0,
            p_nan_gap: 0,
            nan_gap_len: 0,
            noise: 0,
        }
    }
}

/// The six scenarios of the benchmark, with their seeds.
pub fn bench_scenarios(n: usize) -> (all: Vec<Scenario>)
    ensures
        all@.len() == 6,
        all@[0].starts("equities-0.01", 1, n, PRICE_101_3),
        all@[0].grids@ == seq![Grid { start: 0, scale: 2, tick: 1 }],
        all@[0].rates() == (Rates { p_halt: P_0_0002, halt_len: 400, ..plain() }),
        all@[1].starts("futures-0.25", 2, n, PRICE_4500_25),
        all@[1].grids@ == seq![Grid { start: 0, scale: 2, tick: 25 }],
        all@[1].rates() == (Rates { p_move: P_0_3, p_step: P_0_2, ..plain() }),
        all@[2].starts("fx-0.00001", 3, n, PRICE_1_0845),
        all@[2].grids@ == seq![Grid { start: 0, scale: 5, tick: 1 }],
        all@[2].rates() == (Rates { p_move: P_0_8, p_step: P_0_6, ..plain() }),
        all@[3].starts("precision-change", 4, n, PRICE_250),
        all@[3].grids@ == seq![
            Grid { start: 0, scale: 2, tick: 5 },
            Grid { start: (n / 2 + 377) as usize, scale: 3, tick: 1 },
        ],
        all@[3].rates() == plain(),
        all@[4].starts("adversarial-noise", 5, n, PRICE_101_3),
        all@[4].grids@ == seq![Grid { start: 0, scale: 2, tick: 1 }],
        all@[4].rates() == (Rates { noise: P_0_5, ..plain() }),
        all@[5].starts("artefacts+nan-gaps", 6, n, PRICE_101_3),
        all@[5].grids@ == seq![Grid { start: 0, scale: 2, tick: 1 }],
        all@[5].rates() == (Rates {
            artefact_rate: P_0_0005,
            p_nan_gap: P_0_0001,
            nan_gap_len: 20,
            ..plain()
        }),
        forall|i: int| 0 <= i < 6 ==> grids_valid((#[trigger] all@[i]).grids@),
{
    let mut equities = Scenario::walk("equities-0.01", 1, n, PRICE_101_3, 2, 1);
    equities.p_halt = P_0_0002;
    equities.halt_len = 400;
    let mut futures = Scenario::walk("futures-0.25", 2, n, PRICE_4500_25, 2, 25);
    futures.p_move = P_0_3;
    futures.p_step = P_0_2;
    let mut fx = Scenario::walk("fx-0.00001", 3, n, PRICE_1_0845, 5, 1);
    fx.p_move = P_0_8;
    fx.p_step = P_0_6;
    let mut precision = Scenario::walk("precision-change", 4, n, PRICE_250, 2, 5);
    precision.grids.push(Grid { start: n / 2 + 377, scale: 3, tick: 1 });
    let mut adversarial = Scenario::walk("adversarial-noise", 5, n, PRICE_101_3, 2, 1);
    adversarial.noise = P_0_5;
    let mut dirty = Scenario::walk("artefacts+nan-gaps", 6, n, PRICE_101_3, 2, 1);
    dirty.artefact_rate = P_0_0005;
    dirty.p_nan_gap = P_0_0001;
    dirty.nan_gap_len = 20;
    proof {
        reveal_with_fuel(finest, 3);
        assert(equities.grids@.drop_last() =~= Seq::empty());
        assert(futures.grids@.drop_last() =~= Seq::empty());
        assert(fx.grids@.drop_last() =~= Seq::empty());
        assert(precision.grids@.drop_last().drop_last() =~= Seq::empty());
        assert(adversarial.grids@.drop_last() =~= Seq::empty());
        assert(dirty.grids@.drop_last() =~= Seq::empty());
        assert(precision.grids@ =~= seq![
            Grid { start: 0, scale: 2, tick: 5 },
            Grid { start: (n / 2 + 377) as usize, scale: 3, tick: 1 },
        ]);
    }
    let mut all: Vec<Scenario> = Vec::new();
    all.push(equities);
    all.push(futures);
    all.push(fx);
    all.push(precision);
    all.push(adversarial);
    all.push(dirty);
    all
}

/// No scale is above the finest.
proof fn lemma_finest(grids: Seq<Grid>)
    ensures
        forall|i: int| 0 <= i < grids.len() ==> (#[trigger] grids[i]).scale <= finest(grids),
    decreases grids.len(),
{
    if grids.len() > 0 {
        let before = grids.drop_last();
        lemma_finest(before);
        assert forall|i: int| 0 <= i < grids.len() implies (#[trigger] grids[i]).scale <= finest(
            grids,
        ) by {
            if i < grids.len() - 1 {
                assert(before[i] == grids[i]);
            }
        }
    }
}

/// The largest scale of any grid.
pub fn finest_scale(grids: &[Grid]) -> (fine: u32)
    ensures
        fine == finest(grids@),
{
    let mut fine: u32 = 0;
    let mut i: usize = 0;
    while i < grids.len()
        invariant
            i <= grids@.len(),
            fine == finest(grids@.take(i as int)),
        decreases grids@.len() - i,
    {
        assert(grids@.take(i + 1).drop_last() =~= grids@.take(i as int));
        if grids[i].scale > fine {
            fine = grids[i].scale;
        }
        i = i + 1;
    }
    assert(grids@.take(i as int) =~= grids@);
    fine
}

/// The tick of a grid at the scale `fine`.
fn unit_at(g: &Grid, fine: u32) -> (u: Option<i64>)
    requires
        g.scale <= fine <= MAX_SCALE,
    ensures
        u == unit_of(*g, fine),
{
    proof {
        float::lemma_pow10_bounds((fine - g.scale) as nat);
    }
    match g.tick.checked_mul(power_of_ten(fine - g.scale) as i64) {
        Some(u) => if u == 0 {
            None
        } else {
            Some(u)
        },
        None => None,
    }
}

/// `level` brought to a multiple of `u`, towards zero.
fn snap(level: i64, u: i64) -> (snapped: i64)
    requires
        u != 0,
    ensures
        snapped == self::snapped(level, u),
{
    let a: u64 = if u < 0 {
        (-(u as i128)) as u64
    } else {
        u as u64
    };
    if level >= 0 {
        let rest: u64 = level as u64 % a;
        proof {
            lemma_mod_decreases(level as nat, a as nat);
        }
        (level as u64 - rest) as i64
    } else {
        let size: u64 = (-(level as i128)) as u64;
        let rest: u64 = size % a;
        proof {
            lemma_mod_decreases(size as nat, a as nat);
        }
        (-((size - rest) as i128)) as i64
    }
}

/// The walk of a scenario.
struct Walk {
    rng: Rng,
    grid: usize,
    unit: i64,
    level: i64,
    halt_left: usize,
    nan_left: usize,
}

impl Walk {
    spec fn model(self) -> WalkModel {
        WalkModel {
            rng: self.rng@,
            grid: self.grid as nat,
            level: self.level,
            halt_left: self.halt_left as nat,
            nan_left: self.nan_left as nat,
        }
    }

    /// The grid in effect is one of `grids`, and `unit` is its tick.
    spec fn wf(self, grids: Seq<Grid>) -> bool {
        &&& self.grid < grids.len()
        &&& unit_of(grids[self.grid as int], finest(grids)) == Some(self.unit)
    }

    /// The walk before the first tick.
    fn start(s: &Scenario, fine: u32) -> (w: Option<Walk>)
        requires
            grids_valid(s.grids@),
            fine == finest(s.grids@),
        ensures
            match w {
                Some(w) => walk_start(*s) == Some(w.model()) && w.wf(s.grids@),
                None => walk_start(*s) is None,
            },
    {
        proof {
            lemma_finest(s.grids@);
        }
        match unit_at(&s.grids[0], fine) {
            None => None,
            Some(unit) => Some(
                Walk {
                    rng: Rng::new(s.seed),
                    grid: 0,
                    unit,
                    level: snap(scale_to_i64(s.start_price, fine), unit),
                    halt_left: 0,
                    nan_left: 0,
                },
            ),
        }
    }

    /// Moves on to the grid in effect at the tick `i`.
    fn change_grid(&mut self, grids: &Vec<Grid>, fine: u32, i: usize) -> (ok: bool)
        requires
            old(self).wf(grids@),
            grids_valid(grids@),
            fine == finest(grids@),
        ensures
            match seek(grids@, old(self).grid as nat, old(self).level, i as nat) {
                Some((grid, level)) => {
                    &&& ok
                    &&& final(self).wf(grids@)
                    &&& final(self).model() == WalkModel { grid, level, ..old(self).model() }
                },
                None => !ok,
            },
    {
        proof {
            lemma_finest(grids@);
        }
        while self.grid < grids.len() - 1 && grids[self.grid + 1].start <= i
            invariant
                self.wf(grids@),
                grids_valid(grids@),
                fine == finest(grids@),
                forall|j: int| 0 <= j < grids@.len() ==> (#[trigger] grids@[j]).scale <= fine,
                seek(grids@, self.grid as nat, self.level, i as nat) == seek(
                    grids@,
                    old(self).grid as nat,
                    old(self).level,
                    i as nat,
                ),
                self.model() == (WalkModel {
                    grid: self.grid as nat,
                    level: self.level,
                    ..old(self).model()
                }),
            decreases grids@.len() - self.grid,
        {
            match unit_at(&grids[self.grid + 1], fine) {
                None => {
                    return false;
                },
                Some(unit) => {
                    self.grid = self.grid + 1;
                    self.unit = unit;
                    self.level = snap(self.level, unit);
                },
            }
        }
        true
    }

    /// Begins a halt, perhaps, and gives the time it adds.
    fn draw_halt(&mut self, s: &Scenario) -> (halt_ns: i64)
        ensures
            (final(self).model(), halt_ns) == halt_drawn(*s, old(self).model()),
            final(self).grid == old(self).grid,
            final(self).unit == old(self).unit,
    {
        if self.halt_left == 0 && above_zero(s.p_halt) && self.rng.chance(s.p_halt) {
            self.halt_left = s.halt_len;
            let minutes: u64 = 1 + self.rng.next_u64() % 30;
            60_000_000_000 * minutes as i64
        } else {
            0
        }
    }

    /// Moves the price, perhaps.
    fn draw_move(&mut self, s: &Scenario) -> (ok: bool)
        ensures
            match move_drawn(*s, old(self).model(), old(self).unit) {
                Some(st) => ok && final(self).model() == st && final(self).unit == old(self).unit,
                None => !ok,
            },
    {
        if self.halt_left > 0 {
            self.halt_left = self.halt_left - 1;
            return true;
        }
        if !self.rng.chance(s.p_move) {
            return true;
        }
        let k: i64 = self.rng.geometric(s.p_step);
        let up: bool = self.rng.chance(P_0_5);
        match move_level(self.level, k, self.unit, up) {
            None => false,
            Some(level) => {
                self.level = level;
                true
            },
        }
    }

    /// Begins a gap of NaNs, perhaps, and tells whether the tick is in one.
    fn draw_gap(&mut self, s: &Scenario) -> (in_gap: bool)
        ensures
            (final(self).model(), in_gap) == gap_drawn(*s, old(self).model()),
            final(self).unit == old(self).unit,
    {
        if self.nan_left == 0 && above_zero(s.p_nan_gap) && self.rng.chance(s.p_nan_gap) {
            self.nan_left = s.nan_gap_len;
        }
        if self.nan_left > 0 {
            self.nan_left = self.nan_left - 1;
            true
        } else {
            false
        }
    }

    /// The next tick, unless a number does not fit in an i64.
    fn next(&mut self, s: &Scenario, fine: u32, i: usize) -> (draw: Option<Draw>)
        requires
            old(self).wf(s.grids@),
            grids_valid(s.grids@),
            fine == finest(s.grids@),
        ensures
            match draw {
                Some(draw) => {
                    &&& final(self).wf(s.grids@)
                    &&& tick_drawn(*s, old(self).model(), i as nat) == Some(
                        (final(self).model(), draw),
                    )
                },
                None => tick_drawn(*s, old(self).model(), i as nat) is None,
            },
    {
        proof {
            reveal(tick_drawn);
            lemma_finest(s.grids@);
        }
        if !self.change_grid(&s.grids, fine, i) {
            return None;
        }
        let g: Grid = s.grids[self.grid];
        let halt_ns: i64 = self.draw_halt(s);
        if !self.draw_move(s) {
            return None;
        }
        let gap: u64 = self.rng.unit();
        let size: i64 = draw_size(&mut self.rng);
        let quote: Quote = if self.draw_gap(s) {
            Quote::Gap
        } else {
            let mantissa: i64 = shorten(self.level, fine - g.scale);
            draw_quote(&mut self.rng, s, mantissa, g)
        };
        Some(Draw { halt_ns, gap, size, quote })
    }
}

/// Whether the double with the bit pattern `p` is above 0.
fn above_zero(p: u64) -> (yes: bool)
    ensures
        yes == is_positive(p),
{
    0 < p && p <= 0x7FF0_0000_0000_0000
}

/// The level after a move of `k` ticks of `u`.
fn move_level(level: i64, k: i64, u: i64, up: bool) -> (res: Option<i64>)
    ensures
        res == level_moved(level, k as int, u, up),
{
    let step: i64 = match k.checked_mul(u) {
        Some(step) => step,
        None => {
            return None;
        },
    };
    if !up {
        match level.checked_sub(step) {
            None => {
                return None;
            },
            Some(down) => {
                if down > u {
                    return Some(down);
                }
            },
        }
    }
    level.checked_add(step)
}

/// The size of a tick: a round lot or an odd one.
fn draw_size(rng: &mut Rng) -> (size: i64)
    ensures
        (size, final(rng)@) == size_drawn(old(rng)@),
{
    if rng.chance(P_0_8) {
        100 * rng.geometric(P_0_5)
    } else {
        1 + (rng.next_u64() % 99) as i64
    }
}

/// `level` without its last `zeros` decimal digits.
fn shorten(level: i64, zeros: u32) -> (m: i64)
    requires
        zeros <= MAX_SCALE,
    ensures
        m == shortened(level, zeros as nat),
{
    let p: u64 = power_of_ten(zeros);
    proof {
        float::lemma_pow10_bounds(zeros as nat);
    }
    if level >= 0 {
        let size: u64 = level as u64;
        proof {
            lemma_div_is_ordered_by_denominator(size as int, 1, p as int);
            lemma_div_basics(size as int);
        }
        (size / p) as i64
    } else {
        let size: u64 = (-(level as i128)) as u64;
        proof {
            lemma_div_is_ordered_by_denominator(size as int, 1, p as int);
            lemma_div_basics(size as int);
        }
        (-((size / p) as i128)) as i64
    }
}

/// The quote of a tick that is not in a gap.
fn draw_quote(rng: &mut Rng, s: &Scenario, mantissa: i64, g: Grid) -> (quote: Quote)
    ensures
        (quote, final(rng)@) == quote_drawn(*s, old(rng)@, mantissa, g),
{
    let artefact: bool = above_zero(s.artefact_rate) && rng.chance(s.artefact_rate);
    let noise: Option<u64> = if above_zero(s.noise) {
        Some(rng.unit())
    } else {
        None
    };
    Quote::Price { mantissa, scale: g.scale, tick: g.tick, artefact, noise }
}

/// Makes the draws of a scenario, whose first grid must start at 0 and whose
/// scales must not be above 12. Identical scenarios give identical draws. There
/// are none if a tick size is 0, or if one or a level does not fit in an i64.
pub fn generate(s: &Scenario) -> (res: Option<Vec<Draw>>)
    requires
        grids_valid(s.grids@),
    ensures
        match res {
            Some(draws) => scenario_drawn(*s) == Some(draws@),
            None => scenario_drawn(*s) is None,
        },
{
    let fine: u32 = finest_scale(s.grids.as_slice());
    let mut walk = match Walk::start(s, fine) {
        Some(walk) => walk,
        None => {
            return None;
        },
    };
    let mut draws: Vec<Draw> = Vec::new();
    let mut i: usize = 0;
    let ghost whole = ticks_drawn(*s, walk.model(), 0);
    proof {
        if let Some(all) = whole {
            assert(draws@ + all =~= all);
        }
    }
    while i < s.n
        invariant
            i <= s.n,
            grids_valid(s.grids@),
            fine == finest(s.grids@),
            walk.wf(s.grids@),
            scenario_drawn(*s) == whole,
            match ticks_drawn(*s, walk.model(), i as nat) {
                Some(more) => whole == Some(draws@ + more),
                None => whole is None,
            },
        decreases s.n - i,
    {
        let ghost before = draws@;
        match walk.next(s, fine, i) {
            None => {
                return None;
            },
            Some(draw) => {
                draws.push(draw);
                proof {
                    if let Some(more) = ticks_drawn(*s, walk.model(), i as nat + 1) {
                        assert(before + (seq![draw] + more) =~= draws@ + more);
                    }
                }
            },
        }
        i = i + 1;
    }
    assert(draws@ + Seq::empty() =~= draws@);
    Some(draws)
}

/// When the first tick of every scenario is due, before its gap: nanoseconds
/// since the Unix epoch.
pub const START_NS: i64 = 1_767_000_000_000_000_000;

/// The time of the tick `n - 1`, with the time gaps `gaps_us` in microseconds.
pub open spec fn clock(draws: Seq<Draw>, gaps_us: Seq<i64>, n: nat) -> int
    decreases n,
{
    if n == 0 {
        START_NS as int
    } else {
        clock(draws, gaps_us, (n - 1) as nat) + draws[n - 1].halt_ns + gaps_us[n - 1] * 1000
    }
}

/// The time of the tick `i` is reached within an i64: after its halt, and after
/// its gap.
pub open spec fn clock_fits(draws: Seq<Draw>, gaps_us: Seq<i64>, i: int) -> bool {
    &&& fitting(clock(draws, gaps_us, i as nat) + draws[i].halt_ns) is Some
    &&& fitting(gaps_us[i] * 1000) is Some
    &&& fitting(clock(draws, gaps_us, (i + 1) as nat)) is Some
}

/// The timestamps of the draws of a scenario, with the time gaps `gaps_us` in
/// microseconds, unless one does not fit in an i64.
pub fn timestamps(draws: &[Draw], gaps_us: &[i64]) -> (res: Option<Vec<i64>>)
    requires
        draws@.len() == gaps_us@.len(),
    ensures
        match res {
            Some(ts) => {
                &&& ts@.len() == draws@.len()
                &&& forall|i: int|
                    0 <= i < ts@.len() ==> #[trigger] ts@[i] == clock(
                        draws@,
                        gaps_us@,
                        (i + 1) as nat,
                    )
                &&& forall|i: int|
                    0 <= i < draws@.len() ==> #[trigger] clock_fits(draws@, gaps_us@, i)
            },
            None => exists|i: int|
                0 <= i < draws@.len() && !#[trigger] clock_fits(draws@, gaps_us@, i),
        },
{
    let mut ts: Vec<i64> = Vec::new();
    let mut t: i64 = START_NS;
    let mut i: usize = 0;
    while i < draws.len()
        invariant
            i <= draws@.len() == gaps_us@.len(),
            ts@.len() == i,
            t == clock(draws@, gaps_us@, i as nat),
            forall|j: int|
                0 <= j < i ==> #[trigger] ts@[j] == clock(draws@, gaps_us@, (j + 1) as nat),
            forall|j: int| 0 <= j < i ==> #[trigger] clock_fits(draws@, gaps_us@, j),
        decreases draws@.len() - i,
    {
        let due: Option<i64> = match (
            t.checked_add(draws[i].halt_ns),
            gaps_us[i].checked_mul(1000),
        ) {
            (Some(late), Some(gap)) => late.checked_add(gap),
            _ => None,
        };
        match due {
            Some(next) => {
                assert(clock_fits(draws@, gaps_us@, i as int));
                t = next;
                ts.push(t);
            },
            None => {
                assert(!clock_fits(draws@, gaps_us@, i as int));
                return None;
            },
        }
        i = i + 1;
    }
    Some(ts)
}

/// The sizes of the draws of a scenario.
pub fn sizes(draws: &[Draw]) -> (out: Vec<i64>)
    ensures
        out@ == draws@.map_values(|d: Draw| d.size),
{
    let mut out: Vec<i64> = Vec::new();
    let mut i: usize = 0;
    while i < draws.len()
        invariant
            i <= draws@.len(),
            out@ =~= draws@.map_values(|d: Draw| d.size).take(i as int),
        decreases draws@.len() - i,
    {
        out.push(draws[i].size);
        i = i + 1;
    }
    out
}

/// The NaN of a gap.
pub const NAN: u64 = 0x7FF8_0000_0000_0000;

/// The price of a quote that is neither an artefact nor noisy, as a bit pattern.
pub open spec fn clean_price_of(quote: Quote) -> Option<u64> {
    match quote {
        Quote::Gap => Some(NAN),
        Quote::Price { mantissa, scale, artefact, noise, .. } => if artefact || noise is Some {
            None
        } else {
            Some(float::grid_value(mantissa, scale as nat))
        },
    }
}

/// The price of a quote that is neither an artefact nor noisy, as a bit pattern.
pub fn clean_price(quote: Quote) -> (res: Option<u64>)
    requires
        quote matches Quote::Price { scale, .. } ==> scale <= MAX_SCALE,
    ensures
        res == clean_price_of(quote),
{
    match quote {
        Quote::Gap => Some(NAN),
        Quote::Price { mantissa, scale, artefact, noise, .. } => if artefact || noise.is_some() {
            None
        } else {
            Some(grid_bits(mantissa, scale))
        },
    }
}

/// Timestamps never go back when no gap does.
pub proof fn timestamps_never_go_back(draws: Seq<Draw>, gaps_us: Seq<i64>, i: nat, j: nat)
    requires
        draws.len() == gaps_us.len(),
        i <= j <= draws.len(),
        forall|k: int| 0 <= k < draws.len() ==> (#[trigger] draws[k]).halt_ns >= 0,
        forall|k: int| 0 <= k < draws.len() ==> #[trigger] gaps_us[k] >= 0,
    ensures
        clock(draws, gaps_us, i) <= clock(draws, gaps_us, j),
    decreases j,
{
    if i < j {
        timestamps_never_go_back(draws, gaps_us, i, (j - 1) as nat);
        assert(draws[j - 1].halt_ns >= 0);
        assert(gaps_us[j - 1] >= 0);
    }
}

/// The grid in effect at the tick `i`, from the grid `at` on.
pub open spec fn grid_at(grids: Seq<Grid>, at: nat, i: nat) -> nat
    decreases grids.len() - at,
{
    if at + 1 < grids.len() && grids[at as int + 1].start <= i {
        grid_at(grids, at + 1, i)
    } else {
        at
    }
}

/// `x` is a multiple of `u`.
pub open spec fn is_multiple(x: int, u: int) -> bool {
    x % (gcd::distance(u) as int) == 0
}

/// `level` is a whole number of ticks of the grid `g`.
pub open spec fn on_tick(level: i64, g: Grid, fine: u32) -> bool {
    unit_of(g, fine) matches Some(u) && is_multiple(level as int, u as int)
}

/// No grid has a negative tick.
pub open spec fn ticks_positive(grids: Seq<Grid>) -> bool {
    forall|k: int| 0 <= k < grids.len() ==> (#[trigger] grids[k]).tick > 0
}

/// What holds of the walk before every tick: the level is on the grid, and not
/// negative unless it started so. On one grid alone a level that started above
/// zero stays there.
pub open spec fn walk_keeps(s: Scenario, grid: nat, level: i64) -> bool {
    let grids = s.grids@;
    let first = walk_start(s)->Some_0.level;
    &&& grid < grids.len()
    &&& on_tick(level, grids[grid as int], finest(grids))
    &&& ticks_positive(grids) && first >= 0 ==> level >= 0
    &&& ticks_positive(grids) && first > 0 && grids.len() == 1 ==> level > 0
}

/// Snapping moves a level by less than one tick: what comes out is a whole number
/// of ticks, lies between zero and the level, and is less than a tick away from
/// the level. No other number does. So a level on the grid stays where it is.
pub proof fn snapping_moves_by_less_than_a_tick(level: i64, u: i64) -> (ticks: int)
    requires
        u != 0,
    ensures
        snapped(level, u) == ticks * u,
        level >= 0 ==> 0 <= snapped(level, u) <= level,
        level < 0 ==> level <= snapped(level, u) <= 0,
        u > 0 ==> -u < level - snapped(level, u) < u,
        u < 0 ==> u < level - snapped(level, u) < -u,
        forall|c: int|
            (0 <= #[trigger] (c * u) <= level || level <= c * u <= 0) && (-u < level - c * u < u
                || u < level - c * u < -u) ==> c == ticks,
{
    let a = gcd::distance(u as int) as int;
    let size = gcd::distance(level as int) as int;
    let q = size / a;
    lemma_fundamental_div_mod(size, a);
    lemma_mod_division_less_than_divisor(size, a);
    let ticks = if (level >= 0) == (u > 0) {
        q
    } else {
        -q
    };
    assert(ticks * u == if level >= 0 {
        a * q
    } else {
        -(a * q)
    }) by (nonlinear_arith)
        requires
            u == a || u == -a,
            ticks == q || ticks == -q,
            (ticks == q) == ((level >= 0) == (u == a)) || q == 0,
    ;
    assert(a * q >= 0) by (nonlinear_arith)
        requires
            a > 0,
            size >= 0,
            q == size / a,
    ;
    assert forall|c: int|
        (0 <= #[trigger] (c * u) <= level || level <= c * u <= 0) && (-u < level - c * u < u || u
            < level - c * u < -u) implies c == ticks by {
        let (l, v) = (level as int, u as int);
        assert(c == ticks) by (nonlinear_arith)
            requires
                0 <= c * v <= l || l <= c * v <= 0,
                -v < l - c * v < v || v < l - c * v < -v,
                0 <= ticks * v <= l || l <= ticks * v <= 0,
                -v < l - ticks * v < v || v < l - ticks * v < -v,
        ;
    }
    ticks
}

proof fn lemma_snapped(level: i64, u: i64)
    requires
        u != 0,
    ensures
        is_multiple(snapped(level, u) as int, u as int),
        level >= 0 ==> 0 <= snapped(level, u) <= level,
        level < 0 ==> level <= snapped(level, u) <= 0,
{
    let ticks = snapping_moves_by_less_than_a_tick(level, u);
    lemma_small_mod(0, gcd::distance(u as int));
    lemma_moved(0, ticks, u as int);
}

/// Whole ticks added to a multiple of the tick keep it one.
proof fn lemma_moved(level: int, k: int, u: int)
    requires
        u != 0,
        is_multiple(level, u),
    ensures
        is_multiple(level + k * u, u),
        is_multiple(level - k * u, u),
        u > 0 && k >= 1 ==> k * u >= u,
{
    let a = gcd::distance(u) as int;
    let f = if u > 0 {
        k
    } else {
        -k
    };
    assert(k * u == a * f && -(k * u) == a * (-f)) by (nonlinear_arith)
        requires
            u == a && f == k || u == -a && f == -k,
    ;
    lemma_mod_multiples_vanish(f, level, a);
    lemma_mod_multiples_vanish(-f, level, a);
    assert(u > 0 && k >= 1 ==> k * u >= u) by (nonlinear_arith);
}

/// A geometric draw is at least 1.
proof fn lemma_geometric(state: u64, p: u64, k: int)
    requires
        k <= 1000,
    ensures
        k <= geometric_from(state, p, k).0 <= 1000,
    decreases 1000 - k,
{
    if k < 1000 {
        lemma_geometric(advanced(state), p, k + 1);
    }
}

/// At a change of grid the level differs from the one before by less than a tick
/// of the new grid, `u` at the finest scale, and not at all if it is a whole
/// number of these ticks already.
pub proof fn change_of_grid_moves_by_less_than_a_tick(
    grids: Seq<Grid>,
    at: nat,
    level: i64,
    i: nat,
    u: i64,
) -> (moved: i64)
    requires
        at + 1 < grids.len(),
        grids[at as int + 1].start <= i,
        u != 0,
        u == grids[at as int + 1].tick * float::pow10(
            (finest(grids) - grids[at as int + 1].scale) as nat,
        ),
    ensures
        seek(grids, at, level, i) == seek(grids, at + 1, moved, i),
        at + 2 == grids.len() || grids[at as int + 2].start > i ==> seek(grids, at, level, i)
            == Some((at + 1, moved)),
        u > 0 ==> -u < level - moved < u,
        u < 0 ==> u < level - moved < -u,
        0 <= moved <= level || level <= moved <= 0,
        exists|c: int| #[trigger] (c * u) == moved,
        forall|c: int| #[trigger] (c * u) == level ==> moved == level,
{
    let ticks = snapping_moves_by_less_than_a_tick(level, u);
    assert forall|c: int| #[trigger] (c * u) == level implies snapped(level, u) == level by {
        assert(c == ticks);
    }
    reveal_with_fuel(seek, 2);
    snapped(level, u)
}

/// Moving on to another grid keeps what the walk keeps.
proof fn lemma_seek(s: Scenario, at: nat, level: i64, i: nat)
    requires
        grids_valid(s.grids@),
        walk_keeps(s, at, level),
    ensures
        seek(s.grids@, at, level, i) matches Some((grid, level)) ==> grid == grid_at(
            s.grids@,
            at,
            i,
        ) && walk_keeps(s, grid, level),
    decreases s.grids@.len() - at,
{
    let grids = s.grids@;
    if at + 1 < grids.len() && grids[at as int + 1].start <= i {
        if let Some(u) = unit_of(grids[at as int + 1], finest(grids)) {
            lemma_snapped(level, u);
            lemma_seek(s, at + 1, snapped(level, u), i);
        }
    }
}

/// The mantissa of a level on the grid is a whole number of ticks, and as far
/// from zero as the level.
proof fn lemma_shortened(level: i64, g: Grid, fine: u32)
    requires
        g.scale <= fine <= 12,
        on_tick(level, g, fine),
    ensures
        ({
            let m = shortened(level, (fine - g.scale) as nat);
            &&& g.tick != 0
            &&& is_multiple(m as int, g.tick as int)
            &&& m * float::pow10((fine - g.scale) as nat) == level
            &&& level >= 0 ==> m >= 0
            &&& level > 0 ==> m > 0
        }),
{
    let zeros = (fine - g.scale) as nat;
    let p = float::pow10(zeros) as int;
    let t = gcd::distance(g.tick as int) as int;
    let u = unit_of(g, fine)->Some_0 as int;
    let a = gcd::distance(u) as int;
    let size = gcd::distance(level as int) as int;
    float::lemma_pow10_bounds(zeros);
    lemma_mul_basics(p);
    assert(a == t * p && t > 0) by (nonlinear_arith)
        requires
            u == g.tick * p,
            u != 0,
            p >= 1,
            a == gcd::distance(u),
            t == gcd::distance(g.tick as int),
    ;
    // The size of the level is a multiple of the tick too.
    let c = level as int / a;
    lemma_fundamental_div_mod(level as int, a);
    let d = if level >= 0 {
        c
    } else {
        -c
    };
    assert(size == (d * t) * p) by (nonlinear_arith)
        requires
            level == a * c,
            a == t * p,
            size == level && d == c || size == -level && d == -c,
    ;
    lemma_div_multiples_vanish(d * t, p);
    lemma_mul_is_commutative(p, d * t);
    let m = shortened(level, zeros) as int;
    assert(d * t >= 0 && d * t <= size) by (nonlinear_arith)
        requires
            size == (d * t) * p,
            size >= 0,
            p >= 1,
    ;
    assert(m == d * t || m == (-d) * t) by (nonlinear_arith)
        requires
            m == d * t || m == -(d * t),
    ;
    lemma_mod_multiples_basic(d, t);
    lemma_mod_multiples_basic(-d, t);
    assert((-(d * t)) * p == -((d * t) * p)) by (nonlinear_arith);
    if level > 0 {
        assert(d * t > 0) by (nonlinear_arith)
            requires
                size == (d * t) * p,
                size > 0,
                d * t >= 0,
        ;
    }
}

/// What holds of the tick `i`.
pub open spec fn draw_sound(s: Scenario, draw: Draw, i: nat) -> bool {
    let grids = s.grids@;
    let g = grids[grid_at(grids, 0, i) as int];
    let first = walk_start(s)->Some_0.level;
    &&& draw.size >= 1
    &&& 0 <= draw.halt_ns <= 1_800_000_000_000
    &&& draw.halt_ns > 0 ==> is_positive(s.p_halt)
    &&& draw.gap < 0x3FF0_0000_0000_0000
    &&& match draw.quote {
        Quote::Gap => is_positive(s.p_nan_gap),
        Quote::Price { mantissa, scale, tick, artefact, noise } => {
            &&& scale == g.scale
            &&& tick == g.tick
            &&& is_multiple(mantissa as int, g.tick as int)
            &&& ticks_positive(grids) && first >= 0 ==> mantissa >= 0
            &&& ticks_positive(grids) && first > 0 && grids.len() == 1 ==> mantissa > 0
            &&& artefact ==> is_positive(s.artefact_rate)
            &&& noise is Some <==> is_positive(s.noise)
        },
    }
}

/// A halt keeps the price, and adds time only where the scenario asks for it.
proof fn lemma_halt(s: Scenario, st: WalkModel)
    ensures
        ({
            let (next, halt_ns) = halt_drawn(s, st);
            &&& next.grid == st.grid
            &&& next.level == st.level
            &&& next.nan_left == st.nan_left
            &&& 0 <= halt_ns <= 1_800_000_000_000
            &&& halt_ns > 0 ==> is_positive(s.p_halt)
        }),
{
}

/// A move keeps what the walk keeps.
proof fn lemma_move(s: Scenario, st: WalkModel)
    requires
        grids_valid(s.grids@),
        walk_keeps(s, st.grid, st.level),
    ensures
        ({
            let u = unit_of(s.grids@[st.grid as int], finest(s.grids@))->Some_0;
            move_drawn(s, st, u) matches Some(next) ==> walk_keeps(s, next.grid, next.level)
                && next.grid == st.grid && next.nan_left == st.nan_left
        }),
{
    let g = s.grids@[st.grid as int];
    let u = unit_of(g, finest(s.grids@))->Some_0;
    lemma_finest(s.grids@);
    float::lemma_pow10_bounds((finest(s.grids@) - g.scale) as nat);
    if g.tick > 0 {
        lemma_mul_strictly_positive(
            g.tick as int,
            float::pow10((finest(s.grids@) - g.scale) as nat) as int,
        );
    }
    let k = geometric_from(advanced(st.rng), s.p_step, 1).0;
    lemma_geometric(advanced(st.rng), s.p_step, 1);
    lemma_moved(st.level as int, k, u as int);
}

/// A gap keeps the price, and appears only where the scenario asks for it.
proof fn lemma_gap(s: Scenario, st: WalkModel)
    requires
        st.nan_left > 0 ==> is_positive(s.p_nan_gap),
    ensures
        ({
            let (next, in_gap) = gap_drawn(s, st);
            &&& next.grid == st.grid
            &&& next.level == st.level
            &&& next.nan_left > 0 ==> is_positive(s.p_nan_gap)
            &&& in_gap ==> is_positive(s.p_nan_gap)
        }),
{
}

/// Every size is positive.
proof fn lemma_size(rng: u64)
    ensures
        size_drawn(rng).0 >= 1,
{
    lemma_geometric(advanced(rng), P_0_5, 1);
}

/// One tick keeps what the walk keeps.
proof fn lemma_tick_drawn(s: Scenario, st: WalkModel, i: nat)
    requires
        grids_valid(s.grids@),
        walk_keeps(s, st.grid, st.level),
        st.nan_left > 0 ==> is_positive(s.p_nan_gap),
        grid_at(s.grids@, st.grid, i) == grid_at(s.grids@, 0, i),
    ensures
        tick_drawn(s, st, i) matches Some((next, draw)) ==> {
            &&& walk_keeps(s, next.grid, next.level)
            &&& next.nan_left > 0 ==> is_positive(s.p_nan_gap)
            &&& next.grid == grid_at(s.grids@, 0, i)
            &&& draw_sound(s, draw, i)
        },
{
    reveal(tick_drawn);
    let grids = s.grids@;
    let fine = finest(grids);
    lemma_seek(s, st.grid, st.level, i);
    if let Some((grid, level)) = seek(grids, st.grid, st.level, i) {
        lemma_finest(grids);
        let st0 = WalkModel { grid, level, ..st };
        let (st1, halt_ns) = halt_drawn(s, st0);
        lemma_halt(s, st0);
        lemma_move(s, st1);
        let u = unit_of(grids[grid as int], fine)->Some_0;
        if let Some(st2) = move_drawn(s, st1, u) {
            unit_is_exact(drawn_unit(st2.rng));
            let (size, rng) = size_drawn(advanced(st2.rng));
            lemma_size(advanced(st2.rng));
            let st3 = WalkModel { rng, ..st2 };
            lemma_gap(s, st3);
            lemma_shortened(st2.level, grids[grid as int], fine);
        }
    }
}

/// The grid at a later tick is the same from the grid at an earlier one as from
/// the first.
proof fn lemma_grid_at(grids: Seq<Grid>, at: nat, i: nat, j: nat)
    requires
        i <= j,
    ensures
        grid_at(grids, grid_at(grids, at, i), j) == grid_at(grids, at, j),
    decreases grids.len() - at,
{
    if at + 1 < grids.len() && grids[at as int + 1].start <= i {
        lemma_grid_at(grids, at + 1, i, j);
    }
}

proof fn lemma_ticks_drawn(s: Scenario, st: WalkModel, i: nat, j: int)
    requires
        grids_valid(s.grids@),
        walk_keeps(s, st.grid, st.level),
        st.nan_left > 0 ==> is_positive(s.p_nan_gap),
        grid_at(s.grids@, st.grid, i) == grid_at(s.grids@, 0, i),
        i <= s.n,
    ensures
        ticks_drawn(s, st, i) matches Some(draws) ==> draws.len() == s.n - i && (0 <= j < s.n - i
            ==> draw_sound(s, draws[j], (i + j) as nat)),
    decreases s.n - i,
{
    if i < s.n {
        lemma_tick_drawn(s, st, i);
        if let Some((next, draw)) = tick_drawn(s, st, i) {
            lemma_grid_at(s.grids@, 0, i, i + 1);
            lemma_ticks_drawn(s, next, i + 1, j - 1);
        }
    }
}

/// Every tick of a scenario is sound: its size is positive, its halt adds time
/// and takes none, its price is a whole number of ticks of the grid in effect,
/// and an impairment appears only where the scenario asks for it. With positive
/// ticks and a start price that is not negative no price is negative. On one
/// grid a walk that starts above zero stays above zero.
pub proof fn every_tick_is_sound(s: Scenario, i: int)
    requires
        grids_valid(s.grids@),
        scenario_drawn(s) is Some,
        0 <= i < s.n,
    ensures
        scenario_drawn(s)->Some_0.len() == s.n,
        draw_sound(s, scenario_drawn(s)->Some_0[i], i as nat),
{
    let grids = s.grids@;
    let fine = finest(grids);
    let st = walk_start(s)->Some_0;
    let u = unit_of(grids[0], fine)->Some_0;
    lemma_snapped(float::scaled_to_i64(s.start_price, fine as nat), u);
    assert(walk_keeps(s, st.grid, st.level));
    lemma_ticks_drawn(s, st, 0, i);
}

/// The scenarios differ at most in their names and in how many ticks they have.
pub open spec fn same_walk(s: Scenario, t: Scenario) -> bool {
    &&& s.seed == t.seed
    &&& s.start_price == t.start_price
    &&& s.grids@ == t.grids@
    &&& s.rates() == t.rates()
}

/// A tick does not depend on how many come after it.
proof fn lemma_same_tick(s: Scenario, t: Scenario, st: WalkModel, i: nat)
    requires
        same_walk(s, t),
    ensures
        tick_drawn(s, st, i) == tick_drawn(t, st, i),
{
    reveal(tick_drawn);
    let rates = s.rates();
    assert(rates.p_move == t.rates().p_move && rates.p_step == t.rates().p_step);
    assert(rates.p_halt == t.rates().p_halt && rates.halt_len == t.rates().halt_len);
    assert(rates.p_nan_gap == t.rates().p_nan_gap && rates.nan_gap_len == t.rates().nan_gap_len);
    assert(rates.artefact_rate == t.rates().artefact_rate && rates.noise == t.rates().noise);
}

proof fn lemma_fewer_ticks(s: Scenario, t: Scenario, st: WalkModel, i: nat)
    requires
        same_walk(s, t),
        i <= t.n <= s.n,
    ensures
        ticks_drawn(s, st, i) matches Some(all) ==> all.len() == s.n - i && ticks_drawn(t, st, i)
            == Some(all.take(t.n - i)),
    decreases s.n - i,
{
    if i >= t.n {
        lemma_ticks_len(s, st, i);
        if let Some(all) = ticks_drawn(s, st, i) {
            assert(all.take(0) =~= Seq::empty());
        }
    } else {
        lemma_same_tick(s, t, st, i);
        if let Some((next, draw)) = tick_drawn(s, st, i) {
            lemma_fewer_ticks(s, t, next, i + 1);
            if let Some(more) = ticks_drawn(s, next, i + 1) {
                assert((seq![draw] + more).take(t.n - i) =~= seq![draw] + more.take(
                    t.n - (i + 1),
                ));
            }
        }
    }
}

proof fn lemma_ticks_len(s: Scenario, st: WalkModel, i: nat)
    requires
        i <= s.n,
    ensures
        ticks_drawn(s, st, i) matches Some(all) ==> all.len() == s.n - i,
    decreases s.n - i,
{
    if i < s.n {
        if let Some((next, draw)) = tick_drawn(s, st, i) {
            lemma_ticks_len(s, next, i + 1);
        }
    }
}

/// The time of a tick does not depend on how many come after it.
proof fn lemma_same_clock(draws: Seq<Draw>, gaps_us: Seq<i64>, n: int, i: nat)
    requires
        i <= n <= draws.len(),
        n <= gaps_us.len(),
    ensures
        clock(draws.take(n), gaps_us.take(n), i) == clock(draws, gaps_us, i),
    decreases i,
{
    if i > 0 {
        lemma_same_clock(draws, gaps_us, n, (i - 1) as nat);
    }
}

/// A scenario with fewer ticks gives the first ticks of the longer one, in every
/// column: the same draws, and so the same quotes, sizes and times. With as many
/// ticks it gives the same output.
pub proof fn fewer_ticks_are_the_first_ticks(s: Scenario, t: Scenario, gaps_us: Seq<i64>)
    requires
        same_walk(s, t),
        t.n <= s.n,
        scenario_drawn(s) is Some,
        gaps_us.len() == s.n,
    ensures
        ({
            let all = scenario_drawn(s)->Some_0;
            let n = t.n as int;
            &&& all.len() == s.n
            &&& scenario_drawn(t) == Some(all.take(n))
            &&& all.take(n).map_values(|d: Draw| d.size) == all.map_values(
                |d: Draw| d.size,
            ).take(n)
            &&& all.take(n).map_values(|d: Draw| clean_price_of(d.quote)) == all.map_values(
                |d: Draw| clean_price_of(d.quote),
            ).take(n)
            &&& forall|i: nat|
                i <= n ==> #[trigger] clock(all.take(n), gaps_us.take(n), i) == clock(
                    all,
                    gaps_us,
                    i,
                )
        }),
{
    let all = scenario_drawn(s)->Some_0;
    let n = t.n as int;
    lemma_fewer_ticks(s, t, walk_start(s)->Some_0, 0);
    assert(all.take(n).map_values(|d: Draw| d.size) =~= all.map_values(|d: Draw| d.size).take(n));
    assert(all.take(n).map_values(|d: Draw| clean_price_of(d.quote)) =~= all.map_values(
        |d: Draw| clean_price_of(d.quote),
    ).take(n));
    assert forall|i: nat| i <= n implies #[trigger] clock(all.take(n), gaps_us.take(n), i) == clock(
        all,
        gaps_us,
        i,
    ) by {
        lemma_same_clock(all, gaps_us, n, i);
    }
}

} // verus!
