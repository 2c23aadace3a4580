//! What double precision does, told by inequalities between integers: which
//! number each operation gives is the nearest one, and which of two that are
//! equally near.

use crate::bitseq;
use crate::float;
use crate::words;
use vstd::arithmetic::div_mod::*;
use vstd::arithmetic::mul::*;
use vstd::arithmetic::power2::*;
use vstd::prelude::*;

verus! {

/// The powers of ten.
pub proof fn powers_of_ten(k: nat)
    ensures
        float::pow10(0) == 1,
        float::pow10(k + 1) == 10 * float::pow10(k),
{
}

/// The fields of a double: one bit of sign, 11 of exponent and 52 of fraction.
/// With an exponent of 2047 it is no number, with 0 it counts by `2^-1074`, and
/// with another the fraction has a leading one.
pub proof fn doubles_have_three_fields(v: u64, sign: nat, e: nat, f: nat)
    requires
        sign <= 1,
        e < 2048,
        f < 0x10_0000_0000_0000,
        v == sign * 0x8000_0000_0000_0000 + e * 0x10_0000_0000_0000 + f,
    ensures
        float::is_negative(v) == (sign == 1),
        float::is_finite(v) == (e != 2047),
        float::fraction_bits(v) == f,
        e == 0 ==> float::significand(v) == f && float::exponent(v) == -1074,
        e > 0 ==> float::significand(v) == f + 0x10_0000_0000_0000,
        e > 0 ==> float::exponent(v) == e - 1075,
        float::is_subnormal(v) == (e == 0 && f > 0),
{
    lemma_fundamental_div_mod_converse(
        v as int,
        0x10_0000_0000_0000,
        (sign * 2048 + e) as int,
        f as int,
    );
    assert((sign * 2048 + e) % 2048 == e);
}

/// Rounding to 53 significant bits: `excess` low bits are dropped, as many as
/// there are beyond 53 and no more, and what is left is the nearest, and the even
/// one of two that are equally near.
pub proof fn rounding_keeps_53_bits(n: nat)
    ensures
        ({
            let x = float::excess(n);
            let r = float::rounded(n);
            &&& n < pow2(53 + x)
            &&& x > 0 ==> pow2(52 + x) <= n
            &&& 2 * n <= 2 * (r * pow2(x)) + pow2(x)
            &&& 2 * (r * pow2(x)) <= 2 * n + pow2(x)
            &&& 2 * n == 2 * (r * pow2(x)) + pow2(x) || 2 * (r * pow2(x)) == 2 * n + pow2(x)
                ==> r % 2 == 0
            &&& x == 0 ==> r == n
        }),
{
    let x = float::excess(n);
    let l = bitseq::bit_length(n);
    lemma_pow2_pos(x);
    float::round_half_even_is_nearest(n, pow2(x));
    float::lemma_rounded_bound(n);
    bitseq::lemma_bit_length(n);
    words::lemma_pow2_le(l, 53 + x);
}

/// An integer becomes the nearest double, the even one of two that are equally
/// near: `r * 2^x` with `r` of at most 53 bits.
pub proof fn integers_become_the_nearest_double(a: nat) -> (rx: (nat, nat))
    ensures
        ({
            let (r, x) = rx;
            &&& float::integer_as_double(a) == r * pow2(x)
            &&& a < pow2(53 + x)
            &&& x > 0 ==> pow2(52 + x) <= a
            &&& 2 * a <= 2 * (r * pow2(x)) + pow2(x)
            &&& 2 * (r * pow2(x)) <= 2 * a + pow2(x)
            &&& 2 * a == 2 * (r * pow2(x)) + pow2(x) || 2 * (r * pow2(x)) == 2 * a + pow2(x)
                ==> r % 2 == 0
            &&& x == 0 ==> r == a
        }),
{
    rounding_keeps_53_bits(a);
    (float::rounded(a), float::excess(a))
}

/// The value of a mantissa is the nearest double to its quotient, the even one of
/// two that are equally near: with `n` for the distance of the mantissa from zero
/// as a double and `d` for the power of ten, `q * 2^(g - 128)` with `q` of 53 bits
/// lies next to `n / d`, and `q` and `g` are the fields of the result.
pub proof fn grid_values_are_the_nearest_quotient(m: i64, k: nat) -> (qg: (nat, nat))
    requires
        m != 0,
        k <= 12,
    ensures
        ({
            let (q, g) = qg;
            let size = if m < 0 {
                -m as int
            } else {
                m as int
            };
            let whole = float::integer_as_double(size as nat) * pow2(128);
            let d = float::pow10(k);
            &&& 0x10_0000_0000_0000 <= q <= 0x20_0000_0000_0000
            &&& pow2(52 + g) * d <= whole < pow2(53 + g) * d
            &&& 2 * whole <= 2 * (q * (d * pow2(g))) + d * pow2(g)
            &&& 2 * (q * (d * pow2(g))) <= 2 * whole + d * pow2(g)
            &&& 2 * whole == 2 * (q * (d * pow2(g))) + d * pow2(g) || 2 * (q * (d * pow2(g))) == 2
                * whole + d * pow2(g) ==> q % 2 == 0
            &&& float::grid_value(m, k) == (g + 946) * 0x10_0000_0000_0000 + q + if m < 0 {
                0x8000_0000_0000_0000int
            } else {
                0int
            }
        }),
{
    let n = float::integer_as_double(float::magnitude(m));
    let d = float::pow10(k);
    let whole = n * pow2(128);
    float::lemma_pow10_bounds(k);
    float::lemma_integer_as_double(float::magnitude(m));
    float::lemma_quotient_bounds(n, d);
    let l = float::quotient_length(n, d);
    let q = float::quotient(n, d);
    let g = (l - 53) as nat;
    let y = whole / d;
    lemma_pow2_pos(g);
    lemma_mul_strictly_positive(d as int, pow2(g) as int);
    float::round_half_even_is_nearest(whole, d * pow2(g));
    bitseq::lemma_bit_length(y);
    lemma_fundamental_div_mod(whole as int, d as int);
    let (lo, hi, yy, dd, ww) = (
        pow2(52 + g) as int,
        pow2(53 + g) as int,
        y as int,
        d as int,
        whole as int,
    );
    assert(lo * dd <= ww < hi * dd) by (nonlinear_arith)
        requires
            dd * yy <= ww < dd * yy + dd,
            lo <= yy,
            yy + 1 <= hi,
            dd > 0,
    ;
    assert(float::magnitude_bits(q, g - 128) == (g + 946) * 0x10_0000_0000_0000 + q);
    (q, g)
}

/// Zero is the double zero at every scale, and turning the sign of a mantissa
/// turns that of its value.
pub proof fn grid_values_carry_the_sign(m: i64, k: nat)
    requires
        m > 0,
        k <= 12,
    ensures
        float::grid_value(0, k) == 0,
        float::grid_value((-m) as i64, k) == float::grid_value(m, k) + 0x8000_0000_0000_0000,
{
    let n = float::integer_as_double(float::magnitude(m));
    float::lemma_pow10_bounds(k);
    float::lemma_integer_as_double(float::magnitude(m));
    float::lemma_quotient_bounds(n, float::pow10(k));
    assert(float::magnitude((-m) as i64) == float::magnitude(m));
}

/// Scaling a double by a power of ten gives an integer in two steps. The product
/// of its significand and the power is rounded to `p * 2^x`, with `p` of at most
/// 53 bits: the nearest, the even one of two that are equally near. That is rounded
/// to an integer: the nearest, the one further from zero of two that are equally
/// near.
pub proof fn scaling_rounds_twice(v: u64, k: nat) -> (px: (nat, nat))
    ensures
        ({
            let (p, x) = px;
            let exact = float::significand(v) * float::pow10(k);
            let e = float::exponent(v) + x;
            let size = if float::is_negative(v) {
                -float::scaled(v, k)
            } else {
                float::scaled(v, k)
            };
            &&& exact < pow2(53 + x)
            &&& x > 0 ==> pow2(52 + x) <= exact
            &&& 2 * exact <= 2 * (p * pow2(x)) + pow2(x)
            &&& 2 * (p * pow2(x)) <= 2 * exact + pow2(x)
            &&& 2 * exact == 2 * (p * pow2(x)) + pow2(x) || 2 * (p * pow2(x)) == 2 * exact + pow2(x)
                ==> p % 2 == 0
            &&& size >= 0
            &&& e >= 0 ==> size == p * pow2(e as nat)
            &&& e < 0 ==> 2 * p < 2 * (size * pow2((-e) as nat)) + pow2((-e) as nat)
            &&& e < 0 ==> 2 * (size * pow2((-e) as nat)) <= 2 * p + pow2((-e) as nat)
        }),
{
    let exact = float::significand(v) * float::pow10(k);
    let x = float::excess(exact);
    let p = float::rounded(exact);
    let e = float::exponent(v) + x;
    rounding_keeps_53_bits(exact);
    if e < 0 {
        lemma_pow2_pos((-e) as nat);
        float::round_half_up_is_nearest(p, pow2((-e) as nat));
    }
    (p, x)
}

/// A finite double has a mantissa exactly if what scaling it gives fits in an
/// `i64` and leads back to the same double, and then that is the mantissa.
pub proof fn mantissas_are_what_scaling_gives(v: u64, k: nat, m: i64)
    ensures
        float::mantissa_of(v, k) == Some(m) <==> float::is_finite(v) && float::scaled(v, k) == m
            && float::grid_value(m, k) == v,
{
}

/// Scaling into an `i64` stops at its ends, which an infinity is taken to, and
/// takes a NaN to zero.
pub proof fn scaling_stops_at_the_ends(v: u64, k: nat)
    ensures
        float::is_finite(v) && i64::MIN <= float::scaled(v, k) <= i64::MAX ==> float::scaled_to_i64(
            v,
            k,
        ) == float::scaled(v, k),
        float::is_finite(v) && float::scaled(v, k) > i64::MAX ==> float::scaled_to_i64(v, k)
            == i64::MAX,
        float::is_finite(v) && float::scaled(v, k) < i64::MIN ==> float::scaled_to_i64(v, k)
            == i64::MIN,
        v == 0x7FF0_0000_0000_0000 ==> float::scaled_to_i64(v, k) == i64::MAX,
        v == 0xFFF0_0000_0000_0000 ==> float::scaled_to_i64(v, k) == i64::MIN,
        !float::is_finite(v) && v != 0x7FF0_0000_0000_0000 && v != 0xFFF0_0000_0000_0000
            ==> float::scaled_to_i64(v, k) == 0,
{
}

} // verus!
