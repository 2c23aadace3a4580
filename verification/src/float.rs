//! The double precision arithmetic of the price grid, on bit patterns.
//!
//! A price is a double, held as its IEEE 754 bit pattern. Moving it to and from
//! a decimal grid takes four operations of double precision arithmetic:
//! `v * 10^k`, rounding to an integer, converting an integer to a double, and
//! `m / 10^k`. They are written here with integers, from the definition of a
//! correctly rounded operation: the exact result rounded to 53 significant
//! bits, ties to even.

use crate::bits::width;
use crate::bitseq;
use crate::price::MAX_SCALE;
use crate::words;
use vstd::arithmetic::div_mod::*;
use vstd::arithmetic::mul::*;
use vstd::arithmetic::power2::*;
use vstd::bits::*;
use vstd::prelude::*;

verus! {

/// `10^k`.
pub open spec fn pow10(k: nat) -> nat
    decreases k,
{
    if k == 0 {
        1
    } else {
        10 * pow10((k - 1) as nat)
    }
}

/// `n / d` rounded to the nearest integer, ties to the even one.
pub open spec fn round_half_even(n: nat, d: nat) -> nat {
    let q = n / d;
    let r = n % d;
    if 2 * r > d || (2 * r == d && q % 2 == 1) {
        q + 1
    } else {
        q
    }
}

/// `n / d` rounded to the nearest integer, ties away from zero.
pub open spec fn round_half_up(n: nat, d: nat) -> nat {
    (2 * n + d) / (2 * d)
}

/// Binary digits of `n` beyond the 53 that a double holds.
pub open spec fn excess(n: nat) -> nat {
    if bitseq::bit_length(n) > 53 {
        (bitseq::bit_length(n) - 53) as nat
    } else {
        0
    }
}

/// The significand of the double nearest to `n`: `n` rounded to 53 significant
/// bits, in units of `2^excess(n)`.
pub open spec fn rounded(n: nat) -> nat {
    round_half_even(n, pow2(excess(n)))
}

/// The bit pattern `b` has its sign bit set.
pub open spec fn is_negative(b: u64) -> bool {
    b >= 0x8000_0000_0000_0000
}

/// The 11 exponent bits of `b`.
pub open spec fn exponent_bits(b: u64) -> nat {
    (b as nat / 0x10_0000_0000_0000) % 2048
}

/// The 52 fraction bits of `b`.
pub open spec fn fraction_bits(b: u64) -> nat {
    b as nat % 0x10_0000_0000_0000
}

/// `b` is neither an infinity nor a NaN.
pub open spec fn is_finite(b: u64) -> bool {
    exponent_bits(b) != 2047
}

/// A finite `b` is the number `significand(b) * 2^exponent(b)`, up to its sign.
pub open spec fn significand(b: u64) -> nat {
    if exponent_bits(b) == 0 {
        fraction_bits(b)
    } else {
        fraction_bits(b) + 0x10_0000_0000_0000
    }
}

/// See [`significand`].
pub open spec fn exponent(b: u64) -> int {
    if exponent_bits(b) == 0 {
        -1074
    } else {
        exponent_bits(b) - 1075
    }
}

/// The bit pattern of the number `q * 2^e`, up to its sign, for `q` of 53 bits
/// or `q == 2^53`.
pub open spec fn magnitude_bits(q: nat, e: int) -> int {
    (e + 1074) * 0x10_0000_0000_0000 + q
}

/// The product `|v| * 10^k` as a double is `product(v, k) *
/// 2^product_exponent(v, k)`. (A product past the largest double is an
/// infinity instead; it is past every integer of 64 bits either way.)
pub open spec fn product(v: u64, k: nat) -> nat {
    rounded(significand(v) * pow10(k))
}

/// See [`product`].
pub open spec fn product_exponent(v: u64, k: nat) -> int {
    exponent(v) + excess(significand(v) * pow10(k))
}

/// `|v| * 10^k`, computed in doubles, then rounded to an integer, ties away
/// from zero.
pub open spec fn scaled_magnitude(v: u64, k: nat) -> nat {
    let e = product_exponent(v, k);
    if e >= 0 {
        product(v, k) * pow2(e as nat)
    } else {
        round_half_up(product(v, k), pow2((-e) as nat))
    }
}

/// `v * 10^k`, computed in doubles, then rounded to an integer, ties away from
/// zero.
pub open spec fn scaled(v: u64, k: nat) -> int {
    if is_negative(v) {
        -(scaled_magnitude(v, k) as int)
    } else {
        scaled_magnitude(v, k) as int
    }
}

/// Fraction bits kept of a quotient before it is rounded.
pub open spec fn quotient_bits() -> nat {
    128
}

/// Number of binary digits of `n / d` when `quotient_bits()` fraction bits are
/// kept.
pub open spec fn quotient_length(n: nat, d: nat) -> nat {
    bitseq::bit_length((n * pow2(quotient_bits())) / d)
}

/// The significand of the double nearest to `n / d`: `n / d` rounded to 53
/// significant bits.
pub open spec fn quotient(n: nat, d: nat) -> nat {
    round_half_even(
        n * pow2(quotient_bits()),
        d * pow2((quotient_length(n, d) - 53) as nat),
    )
}

/// The integer `a` as a double.
pub open spec fn integer_as_double(a: nat) -> nat {
    rounded(a) * pow2(excess(a))
}

/// The distance of `m` from zero.
pub open spec fn magnitude(m: i64) -> nat {
    if m < 0 {
        (-m) as nat
    } else {
        m as nat
    }
}

/// The bit pattern of `m / 10^k`, computed in doubles: `m` as a double, divided
/// by `10^k`.
pub open spec fn grid_value(m: i64, k: nat) -> u64 {
    let n = integer_as_double(magnitude(m));
    let d = pow10(k);
    if m == 0 {
        0
    } else {
        let e = quotient_length(n, d) - 53 - quotient_bits();
        (magnitude_bits(quotient(n, d), e) + if m < 0 {
            0x8000_0000_0000_0000int
        } else {
            0int
        }) as u64
    }
}

/// The mantissa of `v` on the grid of `k` decimal places, if the grid gives `v`
/// back bit for bit.
pub open spec fn mantissa_of(v: u64, k: nat) -> Option<i64> {
    let m = scaled(v, k);
    if is_finite(v) && i64::MIN <= m <= i64::MAX && grid_value(m as i64, k) == v {
        Some(m as i64)
    } else {
        None
    }
}

pub proof fn lemma_pow10_bounds(k: nat)
    requires
        k <= 12,
    ensures
        1 <= pow10(k) <= 1_000_000_000_000,
{
    reveal_with_fuel(pow10, 13);
}

/// `10^k` for a scale of the grid.
pub(crate) fn power_of_ten(k: u32) -> (p: u64)
    requires
        k <= MAX_SCALE,
    ensures
        p == pow10(k as nat),
{
    proof {
        reveal_with_fuel(pow10, 13);
    }
    match k {
        0 => 1,
        1 => 10,
        2 => 100,
        3 => 1_000,
        4 => 10_000,
        5 => 100_000,
        6 => 1_000_000,
        7 => 10_000_000,
        8 => 100_000_000,
        9 => 1_000_000_000,
        10 => 10_000_000_000,
        11 => 100_000_000_000,
        _ => 1_000_000_000_000,
    }
}

/// A number between `2^(l - 1)` and `2^l` has `l` digits.
pub proof fn lemma_bit_length_unique(n: nat, l: nat)
    requires
        l > 0,
        pow2((l - 1) as nat) <= n < pow2(l),
    ensures
        bitseq::bit_length(n) == l,
{
    lemma_pow2_pos((l - 1) as nat);
    bitseq::lemma_bit_length(n);
    bitseq::lemma_bit_length_bound(n, l);
    if bitseq::bit_length(n) < l {
        words::lemma_pow2_le(bitseq::bit_length(n), (l - 1) as nat);
    }
}

fn width_u128(v: u128) -> (w: u32)
    ensures
        w == bitseq::bit_length(v as nat),
        w <= 128,
{
    let high: u64 = (v >> 64u32) as u64;
    proof {
        words::lemma_pow2_values();
        lemma_u128_shr_is_div(v, 64);
    }
    if high == 0 {
        assert(v < 0x1_0000_0000_0000_0000);
        width(v as u64)
    } else {
        let w: u32 = width(high);
        proof {
            let l = w as nat;
            bitseq::lemma_bit_length(high as nat);
            lemma_pow2_adds((l - 1) as nat, 64);
            lemma_pow2_adds(l, 64);
            assert(v as nat / 0x1_0000_0000_0000_0000 == high);
            lemma_bit_length_unique(v as nat, l + 64);
        }
        w + 64
    }
}

/// `n / 2^s` rounded, ties to even.
fn round_shift(n: u128, s: u32) -> (q: u128)
    requires
        s < 128,
    ensures
        q == round_half_even(n as nat, pow2(s as nat)),
{
    proof {
        words::lemma_pow2_values();
        lemma_u128_shr_is_div(n, s as u128);
        words::lemma_u128_mask(n, s as u128);
        lemma_div_basics(n as int);
    }
    if s == 0 {
        return n;
    }
    let q: u128 = n >> s;
    let r: u128 = n & ((1u128 << s) - 1);
    let half: u128 = 1u128 << (s - 1);
    proof {
        words::lemma_u128_one_shl((s - 1) as u128);
        lemma_pow2_unfold(s as nat);
        lemma_pow2_pos(s as nat);
        lemma_fundamental_div_mod(n as int, pow2(s as nat) as int);
        let (nn, p, qq) = (n as int, pow2(s as nat) as int, q as int);
        words::lemma_pow2_le(1, s as nat);
        assert(2 * qq <= nn) by (nonlinear_arith)
            requires
                nn >= p * qq,
                p >= 2,
                qq >= 0,
        ;
    }
    if r > half || (r == half && q % 2 == 1) {
        q + 1
    } else {
        q
    }
}

/// Rounding to 53 bits gives at most `2^53`.
pub proof fn lemma_rounded_bound(n: nat)
    ensures
        rounded(n) <= 0x20_0000_0000_0000,
        n > 0 ==> rounded(n) > 0,
        bitseq::bit_length(n) >= 53 ==> rounded(n) >= 0x10_0000_0000_0000,
        excess(n) == 0 ==> rounded(n) == n,
{
    let x = excess(n);
    let p = pow2(x);
    words::lemma_pow2_values();
    lemma_pow2_pos(x);
    bitseq::lemma_bit_length(n);
    lemma_fundamental_div_mod(n as int, p as int);
    let q = n / p;
    if x == 0 {
        lemma_div_basics(n as int);
        words::lemma_pow2_le(bitseq::bit_length(n), 53);
        if bitseq::bit_length(n) >= 53 {
            words::lemma_pow2_le(52, (bitseq::bit_length(n) - 1) as nat);
        }
    } else {
        lemma_pow2_adds(53, x);
        lemma_pow2_adds(52, x);
        let (nn, pp, qq) = (n as int, p as int, q as int);
        assert(0x10_0000_0000_0000 <= qq < 0x20_0000_0000_0000) by (nonlinear_arith)
            requires
                pp * qq <= nn < pp * qq + pp,
                0x10_0000_0000_0000 * pp <= nn < 0x20_0000_0000_0000 * pp,
                pp > 0,
        ;
    }
}

/// The magnitude of `v * 10^k` rounded to an integer, if it is at most `2^63`.
fn scaled_magnitude_of(v: u64, k: u32) -> (res: Option<u64>)
    requires
        k <= MAX_SCALE,
        is_finite(v),
    ensures
        match res {
            Some(n) => n == scaled_magnitude(v, k as nat) && n <= 0x8000_0000_0000_0000,
            None => scaled_magnitude(v, k as nat) > 0x8000_0000_0000_0000,
        },
{
    let ghost kk = k as nat;
    let p: u64 = power_of_ten(k);
    let field: u64 = (v >> 52) & 0x7ff;
    let fraction: u64 = v & 0xf_ffff_ffff_ffff;
    proof {
        assert((v >> 52) & 0x7ff == (v / 0x10_0000_0000_0000) % 2048) by (bit_vector);
        assert(v & 0xf_ffff_ffff_ffff == v % 0x10_0000_0000_0000) by (bit_vector);
        lemma_pow10_bounds(kk);
        words::lemma_pow2_values();
    }
    let sig: u64 = if field == 0 {
        fraction
    } else {
        fraction + 0x10_0000_0000_0000
    };
    let exp: i32 = if field == 0 {
        -1074
    } else {
        field as i32 - 1075
    };
    assert(sig * p <= 0x20_0000_0000_0000 * 1_000_000_000_000) by (nonlinear_arith)
        requires
            sig <= 0x20_0000_0000_0000,
            p <= 1_000_000_000_000,
    ;
    let prod: u128 = sig as u128 * p as u128;
    let w: u32 = width_u128(prod);
    let extra: u32 = if w > 53 {
        w - 53
    } else {
        0
    };
    let q: u128 = round_shift(prod, extra);
    let e: i32 = exp + extra as i32;
    let ghost big = scaled_magnitude(v, kk);
    proof {
        lemma_rounded_bound(prod as nat);
        assert(q == product(v, kk));
        assert(e == product_exponent(v, kk));
    }
    if e >= 0 {
        proof {
            lemma_mul_basics(pow2(e as nat) as int);
        }
        if q == 0 {
            return Some(0);
        }
        proof {
            lemma_pow2_pos(e as nat);
        }
        if e > 63 {
            proof {
                words::lemma_pow2_le(64, e as nat);
                assert(big >= pow2(e as nat)) by (nonlinear_arith)
                    requires
                        big == q * pow2(e as nat),
                        q >= 1,
                ;
            }
            return None;
        }
        proof {
            words::lemma_pow2_le(e as nat, 63);
            assert(q * pow2(e as nat) <= 0x20_0000_0000_0000 * 0x8000_0000_0000_0000)
                by (nonlinear_arith)
                requires
                    q <= 0x20_0000_0000_0000,
                    pow2(e as nat) <= 0x8000_0000_0000_0000,
            ;
            words::lemma_u128_shl(q, e as u128);
        }
        let n: u128 = q << (e as u32);
        if n > 0x8000_0000_0000_0000 {
            return None;
        }
        Some(n as u64)
    } else {
        let s: u32 = (-e) as u32;
        let ghost d = pow2(s as nat);
        proof {
            lemma_pow2_pos(s as nat);
            lemma_pow2_unfold(s as nat);
        }
        if s > 64 {
            proof {
                words::lemma_pow2_le(64, s as nat);
                lemma_basic_div((2 * q + d) as int, (2 * d) as int);
            }
            return Some(0);
        }
        let half: u128 = 1u128 << (s - 1);
        proof {
            words::lemma_u128_one_shl((s - 1) as u128);
            words::lemma_pow2_le((s - 1) as nat, 63);
            lemma_u128_shr_is_div((q + half) as u128, s as u128);
            let (qq, h) = (q as int, half as int);
            assert(2 * qq + d == 2 * (qq + h));
            lemma_div_denominator(2 * (qq + h), 2, d as int);
            lemma_div_multiples_vanish(qq + h, 2);
        }
        let n: u128 = (q + half) >> s;
        proof {
            let (x, y) = ((q + half) as int, d as int);
            lemma_fundamental_div_mod(x, y);
            words::lemma_pow2_le(1, s as nat);
            assert(n <= x) by (nonlinear_arith)
                requires
                    x >= y * n,
                    y >= 2,
                    n >= 0,
            ;
        }
        if n > 0x8000_0000_0000_0000 {
            return None;
        }
        Some(n as u64)
    }
}

/// Scaling numerator and denominator alike does not change a rounded quotient.
pub proof fn lemma_round_half_even_scaled(n: nat, d: nat, c: nat)
    requires
        d > 0,
        c > 0,
    ensures
        round_half_even(n * c, d * c) == round_half_even(n, d),
{
    let q = n / d;
    let r = n % d;
    lemma_fundamental_div_mod(n as int, d as int);
    let (nn, dd, cc, qq, rr) = (n as int, d as int, c as int, q as int, r as int);
    assert(nn * cc == qq * (dd * cc) + rr * cc && rr * cc < dd * cc && rr * cc >= 0)
        by (nonlinear_arith)
        requires
            nn == dd * qq + rr,
            0 <= rr < dd,
            cc > 0,
    ;
    lemma_fundamental_div_mod_converse(nn * cc, dd * cc, qq, rr * cc);
    assert((2 * (rr * cc) > dd * cc) == (2 * rr > dd)) by (nonlinear_arith)
        requires
            cc > 0,
    ;
    assert((2 * (rr * cc) == dd * cc) == (2 * rr == dd)) by (nonlinear_arith)
        requires
            cc > 0,
    ;
}

/// When `n / d` has `l` digits, `n * 2^j / d` has `l + j`.
proof fn lemma_quotient_digits(n: nat, d: nat, l: nat, j: nat)
    requires
        d > 0,
        l > 0,
        pow2((l - 1) as nat) <= n / d < pow2(l),
    ensures
        bitseq::bit_length((n * pow2(j)) / d) == l + j,
{
    let q = n / d;
    let c = pow2(j);
    let y = (n * c) / d;
    let (lo, hi) = (pow2((l - 1) as nat), pow2(l));
    lemma_pow2_pos(j);
    lemma_fundamental_div_mod(n as int, d as int);
    lemma_fundamental_div_mod((n * c) as int, d as int);
    lemma_pow2_adds((l - 1) as nat, j);
    lemma_pow2_adds(l, j);
    let (nn, dd, cc, qq, yy) = (n as int, d as int, c as int, q as int, y as int);
    assert(lo * cc <= yy < hi * cc) by (nonlinear_arith)
        requires
            dd * qq <= nn < dd * qq + dd,
            dd * yy <= nn * cc < dd * yy + dd,
            lo <= qq,
            qq + 1 <= hi,
            cc > 0,
            dd > 0,
    ;
    lemma_bit_length_unique(y, l + j);
}

/// The integer `a` as a double, for `a` of at most 64 bits.
fn integer_rounded(a: u64) -> (n: u128)
    ensures
        n == integer_as_double(a as nat),
        n <= 0x1_0000_0000_0000_0000,
        a > 0 ==> n > 0,
{
    let w: u32 = width(a);
    let extra: u32 = if w > 53 {
        w - 53
    } else {
        0
    };
    let q: u128 = round_shift(a as u128, extra);
    proof {
        words::lemma_pow2_values();
        lemma_rounded_bound(a as nat);
        words::lemma_pow2_le(extra as nat, 11);
        lemma_pow2_adds(53, 11);
        assert(0 <= q * pow2(extra as nat) <= 0x20_0000_0000_0000 * pow2(11)) by (nonlinear_arith)
            requires
                0 <= q <= 0x20_0000_0000_0000,
                0 < pow2(extra as nat) <= pow2(11),
        ;
        if a > 0 {
            assert(q * pow2(extra as nat) > 0) by (nonlinear_arith)
                requires
                    q > 0,
                    pow2(extra as nat) > 0,
            ;
        }
        words::lemma_u128_shl(q, extra as u128);
    }
    q << extra
}

/// `n / d` as a double: its significand, and the number of digits of the
/// quotient with [`quotient_bits`] fraction bits.
fn divide(n: u128, d: u64) -> (res: (u64, u32))
    requires
        0 < n <= 0x1_0000_0000_0000_0000,
        0 < d <= 1_000_000_000_000,
    ensures
        res.0 == quotient(n as nat, d as nat),
        res.1 == quotient_length(n as nat, d as nat),
        0x10_0000_0000_0000 <= res.0 <= 0x20_0000_0000_0000,
        88 <= res.1 <= 193,
{
    let w: u32 = width_u128(n);
    proof {
        words::lemma_pow2_values();
        bitseq::lemma_bit_length(n as nat);
        lemma_pow2_unfold(65);
        bitseq::lemma_bit_length_bound(n as nat, 65);
    }
    let t: u32 = 127 - w;
    let ghost c = pow2(t as nat);
    proof {
        lemma_pow2_pos(t as nat);
        lemma_pow2_adds(w as nat, t as nat);
        lemma_pow2_adds((w - 1) as nat, t as nat);
        lemma_pow2_unfold(128);
        lemma_pow2_unfold(127);
        let (nn, lo, hi) = (n as int, pow2((w - 1) as nat) as int, pow2(w as nat) as int);
        assert(lo * c <= nn * c < hi * c) by (nonlinear_arith)
            requires
                lo <= nn < hi,
                c > 0,
        ;
        words::lemma_u128_shl(n, t as u128);
    }
    // The numerator, moved up to 127 digits.
    let num: u128 = n << t;
    let first: u128 = num / d as u128;
    let l: u32 = width_u128(first);
    proof {
        let (x, y, z) = (num as int, d as int, first as int);
        lemma_fundamental_div_mod(x, y);
        lemma_pow2_adds(86, 40);
        lemma_pow2_adds(8, 32);
        assert(z >= pow2(86)) by (nonlinear_arith)
            requires
                x < y * z + y,
                x >= pow2(86) * 0x100_0000_0000,
                y <= 0x100_0000_0000,
                y > 0,
        ;
        assert(z <= x) by (nonlinear_arith)
            requires
                y * z <= x,
                y >= 1,
                z >= 0,
        ;
        bitseq::lemma_bit_length(first as nat);
        bitseq::lemma_bit_length_bound(first as nat, 127);
        if l <= 86 {
            words::lemma_pow2_le(l as nat, 86);
        }
    }
    let s: u32 = l - 53;
    let ghost g = pow2(s as nat);
    proof {
        lemma_pow2_pos(s as nat);
        words::lemma_pow2_le(s as nat, 74);
        lemma_pow2_adds(74, 40);
        words::lemma_pow2_le(114, 120);
        lemma_pow2_adds(120, 8);
        assert(0 < d * g <= 0x100_0000_0000 * pow2(74)) by (nonlinear_arith)
            requires
                0 < d <= 0x100_0000_0000,
                0 < g <= pow2(74),
        ;
        words::lemma_u128_shl(d as u128, s as u128);
    }
    let den: u128 = (d as u128) << s;
    let q: u128 = num / den;
    let r: u128 = num % den;
    let ghost j = (128 - t) as nat;
    proof {
        // The quotient has 53 digits.
        lemma_pow2_adds(52, s as nat);
        lemma_pow2_adds(53, s as nat);
        let (x, y, z, dd, gg) = (num as int, q as int, first as int, d as int, g as int);
        lemma_fundamental_div_mod(x, (d * g) as int);
        lemma_fundamental_div_mod(x, dd);
        assert(0x10_0000_0000_0000 <= y < 0x20_0000_0000_0000) by (nonlinear_arith)
            requires
                dd * gg * y <= x < dd * gg * y + dd * gg,
                dd * z <= x < dd * z + dd,
                0x10_0000_0000_0000 * gg <= z,
                z + 1 <= 0x20_0000_0000_0000 * gg,
                dd > 0,
                gg > 0,
        ;
        // The same quotient, with 128 fraction bits.
        lemma_quotient_digits(num as nat, d as nat, l as nat, j);
        lemma_pow2_adds(t as nat, j);
        let h = pow2(j);
        lemma_pow2_pos(j);
        lemma_mul_is_associative(n as int, c as int, h as int);
        assert(num as nat * h == n as nat * pow2(128));
        lemma_pow2_adds(s as nat, j);
        lemma_mul_is_associative(d as int, g as int, h as int);
        lemma_round_half_even_scaled(num as nat, (d * g) as nat, h);
    }
    let up: bool = r > den - r || (r == den - r && q % 2 == 1);
    let sig: u64 = if up {
        q as u64 + 1
    } else {
        q as u64
    };
    (sig, l + 128 - t)
}

/// The bit pattern of `m / 10^k`, computed in doubles.
pub fn grid_bits(m: i64, k: u32) -> (b: u64)
    requires
        k <= MAX_SCALE,
    ensures
        b == grid_value(m, k as nat),
{
    if m == 0 {
        return 0;
    }
    let a: u64 = if m < 0 {
        (-(m as i128)) as u64
    } else {
        m as u64
    };
    let p: u64 = power_of_ten(k);
    let n: u128 = integer_rounded(a);
    proof {
        lemma_pow10_bounds(k as nat);
    }
    let (sig, len) = divide(n, p);
    let bits: u64 = (len as u64 + 893) * 0x10_0000_0000_0000 + sig;
    if m < 0 {
        bits + 0x8000_0000_0000_0000
    } else {
        bits
    }
}

/// The mantissa of the double `v` on the grid of `k` decimal places, if the
/// grid gives `v` back bit for bit.
pub fn grid_mantissa(v: u64, k: u32) -> (res: Option<i64>)
    requires
        k <= MAX_SCALE,
    ensures
        res == mantissa_of(v, k as nat),
{
    proof {
        assert((v >> 52) & 0x7ff == (v / 0x10_0000_0000_0000) % 2048) by (bit_vector);
    }
    if (v >> 52) & 0x7ff == 0x7ff {
        return None;
    }
    let size: u64 = match scaled_magnitude_of(v, k) {
        Some(n) => n,
        None => {
            return None;
        },
    };
    let negative: bool = v >= 0x8000_0000_0000_0000;
    if !negative && size == 0x8000_0000_0000_0000 {
        return None;
    }
    let m: i64 = if negative {
        (-(size as i128)) as i64
    } else {
        size as i64
    };
    if grid_bits(m, k) == v {
        Some(m)
    } else {
        None
    }
}

/// Rounding half to even gives an integer that is nearest to `n / d`, and an
/// even one where two are equally near.
pub proof fn round_half_even_is_nearest(n: nat, d: nat)
    requires
        d > 0,
    ensures
        2 * n <= 2 * (round_half_even(n, d) * d) + d,
        2 * (round_half_even(n, d) * d) <= 2 * n + d,
        2 * n == 2 * (round_half_even(n, d) * d) + d || 2 * (round_half_even(n, d) * d) == 2 * n + d
            ==> round_half_even(n, d) % 2 == 0,
{
    let q = n / d;
    lemma_fundamental_div_mod(n as int, d as int);
    lemma_mul_is_commutative(d as int, q as int);
    lemma_mul_is_distributive_add_other_way(d as int, q as int, 1);
    lemma_mul_basics(d as int);
}

/// Rounding half up gives an integer that is nearest to `n / d`, the larger one
/// where two are equally near.
pub proof fn round_half_up_is_nearest(n: nat, d: nat)
    requires
        d > 0,
    ensures
        2 * n < 2 * (round_half_up(n, d) * d) + d,
        2 * (round_half_up(n, d) * d) <= 2 * n + d,
{
    let q = round_half_up(n, d);
    lemma_fundamental_div_mod((2 * n + d) as int, (2 * d) as int);
    assert((2 * d) * q == 2 * (q * d)) by (nonlinear_arith);
}

/// A quotient that a grid value is made of has 53 significant bits, and is
/// neither too small nor too large for a normal double.
pub proof fn lemma_quotient_bounds(n: nat, d: nat)
    requires
        0 < n <= 0x1_0000_0000_0000_0000,
        0 < d <= 1_000_000_000_000,
    ensures
        88 <= quotient_length(n, d) <= 193,
        0x10_0000_0000_0000 <= quotient(n, d) <= 0x20_0000_0000_0000,
{
    let whole = n * pow2(128);
    let y = whole / d;
    let l = quotient_length(n, d);
    words::lemma_pow2_values();
    lemma_pow2_adds(88, 40);
    lemma_pow2_adds(8, 32);
    lemma_pow2_adds(64, 128);
    lemma_fundamental_div_mod(whole as int, d as int);
    let (ww, dd, yy) = (whole as int, d as int, y as int);
    assert(ww >= pow2(128)) by (nonlinear_arith)
        requires
            ww == n * pow2(128),
            n >= 1,
            pow2(128) > 0,
    ;
    assert(ww <= pow2(192)) by (nonlinear_arith)
        requires
            ww == n * pow2(128),
            n <= pow2(64),
            pow2(192) == pow2(64) * pow2(128),
            pow2(128) > 0,
    ;
    assert(yy >= pow2(88)) by (nonlinear_arith)
        requires
            ww < dd * yy + dd,
            ww >= pow2(88) * 0x100_0000_0000,
            dd <= 0x100_0000_0000,
            dd > 0,
    ;
    assert(yy <= ww) by (nonlinear_arith)
        requires
            dd * yy <= ww,
            dd >= 1,
            yy >= 0,
    ;
    bitseq::lemma_bit_length(y);
    lemma_pow2_unfold(193);
    lemma_pow2_pos(192);
    bitseq::lemma_bit_length_bound(y, 193);
    if l < 88 {
        words::lemma_pow2_le(l, 88);
    }
    let s = (l - 53) as nat;
    let g = pow2(s);
    lemma_pow2_pos(s);
    lemma_pow2_adds(52, s);
    lemma_pow2_adds(53, s);
    let q = whole / (d * g);
    lemma_mul_strictly_positive(d as int, g as int);
    lemma_fundamental_div_mod(whole as int, (d * g) as int);
    let (qq, gg) = (q as int, g as int);
    assert(0x10_0000_0000_0000 <= qq < 0x20_0000_0000_0000) by (nonlinear_arith)
        requires
            dd * gg * qq <= ww < dd * gg * qq + dd * gg,
            dd * yy <= ww < dd * yy + dd,
            0x10_0000_0000_0000 * gg <= yy,
            yy + 1 <= 0x20_0000_0000_0000 * gg,
            dd > 0,
            gg > 0,
    ;
}

/// A positive integer of 64 bits is a double between 1 and 2^64.
pub proof fn lemma_integer_as_double(a: nat)
    requires
        0 < a <= u64::MAX,
    ensures
        0 < integer_as_double(a) <= 0x1_0000_0000_0000_0000,
{
    let x = excess(a);
    words::lemma_pow2_values();
    bitseq::lemma_bit_length_bound(a, 64);
    lemma_rounded_bound(a);
    words::lemma_pow2_le(x, 11);
    lemma_pow2_pos(x);
    lemma_pow2_adds(53, 11);
    assert(0 < rounded(a) * pow2(x) <= 0x20_0000_0000_0000 * pow2(11)) by (nonlinear_arith)
        requires
            0 < rounded(a) <= 0x20_0000_0000_0000,
            0 < pow2(x) <= pow2(11),
    ;
}

/// `b` is a subnormal double.
pub open spec fn is_subnormal(b: u64) -> bool {
    exponent_bits(b) == 0 && fraction_bits(b) > 0
}

/// Every value of the grid is zero or a normal double, and negative exactly
/// when its mantissa is.
pub proof fn grid_values_are_normal(m: i64, k: nat)
    requires
        k <= 12,
    ensures
        is_finite(grid_value(m, k)),
        m == 0 <==> grid_value(m, k) == 0,
        m != 0 ==> exponent_bits(grid_value(m, k)) > 0,
        m < 0 <==> is_negative(grid_value(m, k)),
{
    if m != 0 {
        let n = integer_as_double(magnitude(m));
        let d = pow10(k);
        lemma_integer_as_double(magnitude(m));
        lemma_pow10_bounds(k);
        lemma_quotient_bounds(n, d);
        let l = quotient_length(n, d);
        let q = quotient(n, d);
        assert(magnitude_bits(q, l - 53 - quotient_bits()) == (l + 893) * 0x10_0000_0000_0000 + q);
    }
}

/// A mantissa that is found reconstructs its value, bit for bit, with the
/// arithmetic of the decoder.
pub proof fn found_mantissas_reconstruct(v: u64, k: nat)
    ensures
        mantissa_of(v, k) matches Some(m) ==> grid_value(m, k) == v,
{
}

/// NaNs, infinities, negative zero and subnormals are on no grid.
pub proof fn special_values_have_no_mantissa(v: u64, k: nat)
    requires
        k <= 12,
        !is_finite(v) || v == 0x8000_0000_0000_0000 || is_subnormal(v),
    ensures
        mantissa_of(v, k) is None,
{
    let m = scaled(v, k);
    if i64::MIN <= m <= i64::MAX {
        grid_values_are_normal(m as i64, k);
    }
}

/// `v * 10^k` in doubles, rounded to an integer and brought into the range of an
/// i64, as a cast does: past either end it is that end, and a NaN is 0.
pub open spec fn scaled_to_i64(v: u64, k: nat) -> i64 {
    if !is_finite(v) && fraction_bits(v) > 0 {
        0
    } else if !is_finite(v) {
        if is_negative(v) {
            i64::MIN
        } else {
            i64::MAX
        }
    } else if scaled(v, k) > i64::MAX {
        i64::MAX
    } else if scaled(v, k) < i64::MIN {
        i64::MIN
    } else {
        scaled(v, k) as i64
    }
}

/// `v * 10^k` in doubles, rounded to an integer and cast to an i64.
pub fn scale_to_i64(v: u64, k: u32) -> (m: i64)
    requires
        k <= MAX_SCALE,
    ensures
        m == scaled_to_i64(v, k as nat),
{
    let negative: bool = v >= 0x8000_0000_0000_0000;
    proof {
        assert((v >> 52) & 0x7ff == (v / 0x10_0000_0000_0000) % 2048) by (bit_vector);
    }
    let size: Option<u64> = if (v >> 52) & 0x7ff == 0x7ff {
        if v % 0x10_0000_0000_0000 > 0 {
            return 0;
        }
        None
    } else {
        scaled_magnitude_of(v, k)
    };
    match size {
        Some(n) => if negative {
            (-(n as i128)) as i64
        } else if n == 0x8000_0000_0000_0000 {
            i64::MAX
        } else {
            n as i64
        },
        None => if negative {
            i64::MIN
        } else {
            i64::MAX
        },
    }
}

} // verus!
