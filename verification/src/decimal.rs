//! Why detection finds a decimal grid: prices that lie on one are given back by
//! the arithmetic that looks for it, and a finer grid holds a coarser one.

use crate::bitseq;
use crate::float;
use crate::gcd;
use crate::grid;
use crate::price;
use crate::words;
use vstd::arithmetic::div_mod::*;
use vstd::arithmetic::mul::*;
use vstd::arithmetic::power2::*;
use vstd::prelude::*;

verus! {

/// The largest mantissa, up to its sign, for which detection is shown to find
/// the grid: a number of 15 decimal digits always is.
pub open spec fn mantissa_limit() -> nat {
    0x4_0000_0000_0000
}

/// A pattern made of 53 significant bits and an exponent is the number that it
/// was made of.
pub proof fn lemma_magnitude_read_back(b: u64, q: nat, e: int)
    requires
        0x10_0000_0000_0000 <= q <= 0x20_0000_0000_0000,
        -1000 <= e <= 900,
        b == float::magnitude_bits(q, e) || b == float::magnitude_bits(q, e)
            + 0x8000_0000_0000_0000,
    ensures
        float::is_finite(b),
        (float::significand(b) == q && float::exponent(b) == e) || (float::significand(b)
            == 0x10_0000_0000_0000 && q
            == 0x20_0000_0000_0000 && float::exponent(b) == e + 1),
{
    let c = if b == float::magnitude_bits(q, e) {
        0int
    } else {
        2048int
    };
    if q < 0x20_0000_0000_0000 {
        let x = c + e + 1075;
        let f = q - 0x10_0000_0000_0000;
        assert(b == x * 0x10_0000_0000_0000 + f);
        lemma_fundamental_div_mod_converse(b as int, 0x10_0000_0000_0000, x, f);
        assert(x % 2048 == e + 1075);
    } else {
        let x = c + e + 1076;
        assert(b == x * 0x10_0000_0000_0000 + 0);
        lemma_fundamental_div_mod_converse(b as int, 0x10_0000_0000_0000, x, 0);
        assert(x % 2048 == e + 1076);
    }
}

/// Rounding to 53 significant bits moves a number by at most half of the last
/// one.
proof fn lemma_rounded_near(n: nat)
    requires
        n > 0,
    ensures
        float::excess(n) == 0 ==> float::rounded(n) == n,
        float::excess(n) > 0 ==> pow2(float::excess(n)) * 0x10_0000_0000_0000 <= n,
        2 * n <= 2 * (float::rounded(n) * pow2(float::excess(n))) + pow2(float::excess(n)),
        2 * (float::rounded(n) * pow2(float::excess(n))) <= 2 * n + pow2(float::excess(n)),
{
    let x = float::excess(n);
    lemma_pow2_pos(x);
    float::round_half_even_is_nearest(n, pow2(x));
    float::lemma_rounded_bound(n);
    if x > 0 {
        bitseq::lemma_bit_length(n);
        words::lemma_pow2_values();
        lemma_pow2_adds(x, 52);
    }
}

/// The size of the last of the 53 significant bits of `m / d`, times `d`, in
/// units of `2^-128`: small against 1 for every `m` up to the limit.
proof fn lemma_last_bit(m: nat, d: nat)
    requires
        0 < m <= mantissa_limit(),
        0 < d <= 1_000_000_000_000,
    ensures
        ({
            let u = d * pow2((float::quotient_length(m, d) - 53) as nat);
            &&& 0 < u < pow2(127)
            &&& 2 * (m * pow2(128)) <= 2 * (float::quotient(m, d) * u) + u
            &&& 2 * (float::quotient(m, d) * u) <= 2 * (m * pow2(128)) + u
        }),
{
    let g = pow2((float::quotient_length(m, d) - 53) as nat);
    let u = (d * g) as int;
    let q = float::quotient(m, d) as int;
    let w = (m * pow2(128)) as int;
    float::lemma_quotient_bounds(m, d);
    lemma_pow2_pos((float::quotient_length(m, d) - 53) as nat);
    lemma_mul_strictly_positive(d as int, g as int);
    float::round_half_even_is_nearest(m * pow2(128), (d * g) as nat);
    words::lemma_pow2_values();
    lemma_pow2_adds(50, 128);
    lemma_pow2_adds(51, 127);
    lemma_pow2_adds(52, 127);
    lemma_pow2_adds(42, 8);
    lemma_pow2_adds(10, 32);
    lemma_pow2_adds(2, 8);
    assert(pow2(50) == 0x4_0000_0000_0000);
    assert(w <= 0x4_0000_0000_0000 * pow2(128)) by (nonlinear_arith)
        requires
            w == m * pow2(128),
            m <= 0x4_0000_0000_0000,
            pow2(128) > 0,
    ;
    assert(q * u >= 0x10_0000_0000_0000 * u) by (nonlinear_arith)
        requires
            q >= 0x10_0000_0000_0000,
            u > 0,
    ;
    lemma_pow2_unfold(128);
}

/// An integer of at most 53 bits is a double.
proof fn lemma_small_integer(a: nat)
    requires
        a <= 0x20_0000_0000_0000,
    ensures
        float::integer_as_double(a) == a,
{
    words::lemma_pow2_values();
    if a < 0x20_0000_0000_0000 {
        bitseq::lemma_bit_length_bound(a, 53);
        float::lemma_rounded_bound(a);
        lemma_mul_basics(a as int);
    } else {
        lemma_pow2_unfold(54);
        float::lemma_bit_length_unique(a, 54);
        assert(float::excess(a) == 1);
        assert(float::rounded(a) == 0x10_0000_0000_0000);
    }
}

/// The product of a grid value and its power of ten, in units of `2^-128`, is
/// less than half a unit away from its mantissa.
proof fn lemma_product_near(sig: nat, exp: int, m: nat, d: nat)
    requires
        0 < m <= mantissa_limit(),
        0 < d <= 1_000_000_000_000,
        sig > 0,
        exp + 128 >= 0,
        sig * pow2((exp + 128) as nat) == float::quotient(m, d) * pow2(
            (float::quotient_length(m, d) - 53) as nat,
        ),
    ensures
        ({
            let n = sig * d;
            let scale = pow2((exp + float::excess(n) + 128) as nat);
            &&& 2 * (m * pow2(128)) < 2 * (float::rounded(n) * scale) + pow2(128)
            &&& 2 * (float::rounded(n) * scale) < 2 * (m * pow2(128)) + pow2(128)
        }),
{
    let n = (sig * d) as int;
    let x = float::excess(n as nat);
    let g = pow2((float::quotient_length(m, d) - 53) as nat) as int;
    let h = pow2((exp + 128) as nat) as int;
    let t = pow2(x) as int;
    let scale = pow2((exp + x + 128) as nat) as int;
    let p = float::rounded(n as nat) as int;
    let q = float::quotient(m, d) as int;
    let u = d * g;
    let w = m * pow2(128);
    lemma_last_bit(m, d);
    lemma_mul_strictly_positive(sig as int, d as int);
    lemma_rounded_near(n as nat);
    lemma_pow2_pos((exp + 128) as nat);
    lemma_pow2_pos(x);
    lemma_pow2_adds((exp + 128) as nat, x);
    lemma_pow2_unfold(128);
    lemma_pow2_pos(127);
    assert(n * h == q * u) by (nonlinear_arith)
        requires
            n == sig * d,
            sig * h == q * g,
            u == d * g,
    ;
    assert(p * scale == (p * t) * h) by (nonlinear_arith)
        requires
            scale == h * t,
    ;
    if x == 0 {
        assert(t == 1) by {
            words::lemma_pow2_values();
        }
        lemma_mul_basics(p);
        lemma_mul_basics(h);
    } else {
        words::lemma_pow2_values();
        lemma_pow2_adds(50, 128);
        lemma_pow2_adds(51, 127);
        lemma_pow2_adds(52, 127);
        lemma_pow2_adds(42, 8);
        lemma_pow2_adds(10, 32);
        lemma_pow2_adds(2, 8);
        assert(w <= 0x4_0000_0000_0000 * pow2(128)) by (nonlinear_arith)
            requires
                w == m * pow2(128),
                m <= 0x4_0000_0000_0000,
                pow2(128) > 0,
        ;
        assert(scale * 0x10_0000_0000_0000 <= n * h) by (nonlinear_arith)
            requires
                t * 0x10_0000_0000_0000 <= n,
                scale == h * t,
                h > 0,
        ;
        // Half of the last bit of the product.
        assert(2 * (n * h) <= 2 * (p * scale) + scale && 2 * (p * scale) <= 2 * (n * h) + scale)
            by (nonlinear_arith)
            requires
                2 * n <= 2 * (p * t) + t,
                2 * (p * t) <= 2 * n + t,
                p * scale == (p * t) * h,
                scale == h * t,
                h > 0,
        ;
    }
}

/// Rounding gives the integer `m` for a number less than half away from it.
proof fn lemma_round_to_integer(p: nat, pe: int, m: nat)
    requires
        pe + 128 >= 0,
        2 * (m * pow2(128)) < 2 * (p * pow2((pe + 128) as nat)) + pow2(128),
        2 * (p * pow2((pe + 128) as nat)) < 2 * (m * pow2(128)) + pow2(128),
    ensures
        pe >= 0 ==> p * pow2(pe as nat) == m,
        pe < 0 ==> float::round_half_up(p, pow2((-pe) as nat)) == m,
{
    let g = pow2((pe + 128) as nat) as int;
    let w = pow2(128) as int;
    let (pp, mm) = (p as int, m as int);
    lemma_pow2_pos(128);
    lemma_pow2_pos((pe + 128) as nat);
    if pe >= 0 {
        let f = pow2(pe as nat) as int;
        lemma_pow2_adds(pe as nat, 128);
        assert(pp * f == mm) by (nonlinear_arith)
            requires
                g == f * w,
                w > 0,
                2 * (mm * w) < 2 * (pp * g) + w,
                2 * (pp * g) < 2 * (mm * w) + w,
        ;
    } else {
        let f = pow2((-pe) as nat) as int;
        lemma_pow2_pos((-pe) as nat);
        lemma_pow2_adds((-pe) as nat, (pe + 128) as nat);
        assert(2 * (mm * f) < 2 * pp + f && 2 * pp < 2 * (mm * f) + f) by (nonlinear_arith)
            requires
                w == f * g,
                g > 0,
                f > 0,
                2 * (mm * w) < 2 * (pp * g) + w,
                2 * (pp * g) < 2 * (mm * w) + w,
        ;
        let r = 2 * pp + f - 2 * (mm * f);
        assert(2 * pp + f == mm * (2 * f) + r) by (nonlinear_arith)
            requires
                r == 2 * pp + f - 2 * (mm * f),
        ;
        lemma_fundamental_div_mod_converse(2 * pp + f, 2 * f, mm, r);
    }
}

/// Detection finds every grid value: the mantissa of `m / 10^k` at the scale
/// `k` is `m`, for every `m` of up to 15 decimal digits.
pub proof fn grid_values_are_found(m: i64, k: nat)
    requires
        k <= 12,
        float::magnitude(m) <= mantissa_limit(),
    ensures
        float::mantissa_of(float::grid_value(m, k), k) == Some(m),
{
    let v = float::grid_value(m, k);
    let a = float::magnitude(m);
    let d = float::pow10(k);
    float::lemma_pow10_bounds(k);
    float::grid_values_are_normal(m, k);
    if m == 0 {
        assert(float::significand(v) == 0);
        lemma_mul_basics(d as int);
        words::lemma_pow2_values();
        assert(float::rounded(0) == 0) by {
            float::lemma_rounded_bound(0);
        }
        let f = pow2(1074);
        lemma_pow2_pos(1074);
        lemma_fundamental_div_mod_converse(f as int, (2 * f) as int, 0, f as int);
        assert(float::scaled(v, k) == 0);
    } else {
        lemma_small_integer(a);
        float::lemma_quotient_bounds(a, d);
        let l = float::quotient_length(a, d);
        let q = float::quotient(a, d);
        let e = l - 53 - 128;
        assert(float::magnitude_bits(q, e) == (l + 893) * 0x10_0000_0000_0000 + q);
        lemma_magnitude_read_back(v, q, e);
        let (sig, exp) = (float::significand(v), float::exponent(v));
        if exp == e + 1 {
            lemma_pow2_unfold((exp + 128) as nat);
            let g = pow2((e + 128) as nat);
            assert(sig * (2 * g) == q * g) by (nonlinear_arith)
                requires
                    q == 2 * sig,
            ;
        }
        lemma_product_near(sig, exp, a, d);
        let n = sig * d;
        lemma_round_to_integer(float::rounded(n), exp + float::excess(n), a);
        assert(float::scaled_magnitude(v, k) == a);
    }
}

proof fn lemma_pow10_adds(a: nat, b: nat)
    ensures
        float::pow10(a + b) == float::pow10(a) * float::pow10(b),
        float::pow10(a) > 0,
    decreases a,
{
    lemma_mul_basics(float::pow10(b) as int);
    if a > 0 {
        lemma_pow10_adds((a - 1) as nat, b);
        lemma_mul_is_associative(10, float::pow10((a - 1) as nat) as int, float::pow10(b) as int);
    }
}

/// A quotient does not change when both numbers are multiplied alike.
proof fn lemma_quotient_scaled(n: nat, d: nat, c: nat)
    requires
        d > 0,
        c > 0,
    ensures
        float::quotient_length(n * c, d * c) == float::quotient_length(n, d),
        float::quotient(n * c, d * c) == float::quotient(n, d),
{
    let w = pow2(128);
    let s = pow2((float::quotient_length(n, d) - 53) as nat);
    lemma_pow2_pos((float::quotient_length(n, d) - 53) as nat);
    assert((n * c) * w == (n * w) * c) by (nonlinear_arith);
    assert((d * c) * s == (d * s) * c) by (nonlinear_arith);
    lemma_mul_is_commutative((n * w) as int, c as int);
    lemma_mul_is_commutative(d as int, c as int);
    lemma_truncate_middle((n * w) as int, c as int, d as int);
    lemma_div_multiples_vanish_quotient(c as int, (n * w) as int, d as int);
    lemma_mul_strictly_positive(d as int, s as int);
    float::lemma_round_half_even_scaled(n * w, d * s, c);
}

/// A finer grid holds the values of a coarser one.
pub proof fn finer_grid_holds_coarser(a: i64, fine: i64, j: nat, k: nat)
    requires
        j <= k <= 12,
        fine == a * float::pow10((k - j) as nat),
        float::magnitude(fine) <= mantissa_limit(),
    ensures
        float::grid_value(fine, k) == float::grid_value(a, j),
{
    let c = float::pow10((k - j) as nat);
    lemma_pow10_adds(j, (k - j) as nat);
    lemma_pow10_adds((k - j) as nat, 0);
    let (x, y, cc) = (float::magnitude(a) as int, float::magnitude(fine) as int, c as int);
    assert(y == x * cc && x <= y && (a < 0 <==> fine < 0) && (a == 0 <==> fine == 0))
        by (nonlinear_arith)
        requires
            fine == a * cc,
            cc >= 1,
            x == float::magnitude(a),
            y == float::magnitude(fine),
    ;
    lemma_small_integer(float::magnitude(a));
    lemma_small_integer(float::magnitude(fine));
    lemma_quotient_scaled(float::magnitude(a), float::pow10(j), c);
}

/// Half of the last bit of a quotient is at most a 2^53th of it.
proof fn lemma_quotient_near(n: nat, d: nat)
    requires
        0 < n <= 0x1_0000_0000_0000_0000,
        0 < d <= 1_000_000_000_000,
    ensures
        ({
            let v = float::quotient(n, d) * pow2((float::quotient_length(n, d) - 53) as nat);
            let w = n * pow2(128);
            &&& v > 0
            &&& 0x20_0000_0000_0000 * w <= 0x20_0000_0000_0001 * (v * d)
            &&& 0x1f_ffff_ffff_ffff * (v * d) <= 0x20_0000_0000_0000 * w
        }),
{
    let g = pow2((float::quotient_length(n, d) - 53) as nat) as int;
    let q = float::quotient(n, d) as int;
    let u = d * g;
    let w = (n * pow2(128)) as int;
    let v = q * g;
    float::lemma_quotient_bounds(n, d);
    lemma_pow2_pos((float::quotient_length(n, d) - 53) as nat);
    lemma_mul_strictly_positive(d as int, g);
    lemma_mul_strictly_positive(q, g);
    float::round_half_even_is_nearest(n * pow2(128), u as nat);
    assert(v * d == q * u) by (nonlinear_arith)
        requires
            v == q * g,
            u == d * g,
    ;
    assert(q * u >= 0x10_0000_0000_0000 * u) by (nonlinear_arith)
        requires
            q >= 0x10_0000_0000_0000,
            u > 0,
    ;
}

/// An integer whose double is small is that double.
proof fn lemma_integer_exact(a: nat)
    requires
        0 < a,
        float::integer_as_double(a) <= mantissa_limit(),
    ensures
        float::integer_as_double(a) == a,
{
    let x = float::excess(a);
    float::lemma_rounded_bound(a);
    lemma_pow2_pos(x);
    words::lemma_pow2_values();
    if x == 0 {
        lemma_mul_basics(a as int);
    } else {
        assert(float::rounded(a) * pow2(x) >= 0x10_0000_0000_0000) by (nonlinear_arith)
            requires
                float::rounded(a) >= 0x10_0000_0000_0000,
                pow2(x) >= 1,
        ;
    }
}

/// The number that a grid value is, in units of `2^-128`.
proof fn lemma_grid_value_number(m: i64, k: nat)
    requires
        m != 0,
        k <= 12,
    ensures
        ({
            let n = float::integer_as_double(float::magnitude(m));
            let v = float::grid_value(m, k);
            &&& float::exponent(v) + 128 >= 0
            &&& float::significand(v) * pow2((float::exponent(v) + 128) as nat)
                == float::quotient(n, float::pow10(k)) * pow2(
                (float::quotient_length(n, float::pow10(k)) - 53) as nat,
            )
        }),
{
    let n = float::integer_as_double(float::magnitude(m));
    let d = float::pow10(k);
    let v = float::grid_value(m, k);
    float::lemma_pow10_bounds(k);
    float::lemma_integer_as_double(float::magnitude(m));
    float::lemma_quotient_bounds(n, d);
    let l = float::quotient_length(n, d);
    let q = float::quotient(n, d);
    let e = l - 53 - 128;
    assert(float::magnitude_bits(q, e) == (l + 893) * 0x10_0000_0000_0000 + q);
    lemma_magnitude_read_back(v, q, e);
    let (sig, exp) = (float::significand(v), float::exponent(v));
    if exp == e + 1 {
        lemma_pow2_unfold((exp + 128) as nat);
        let g = pow2((e + 128) as nat);
        assert(sig * (2 * g) == q * g) by (nonlinear_arith)
            requires
                q == 2 * sig,
        ;
    }
}

/// Converting an integer to a double moves it by at most half of the last of
/// its 53 significant bits.
pub proof fn integers_convert_to_the_nearest_double(a: nat)
    requires
        a > 0,
    ensures
        2 * a <= 2 * float::integer_as_double(a) + pow2(float::excess(a)),
        2 * float::integer_as_double(a) <= 2 * a + pow2(float::excess(a)),
        a <= 0x20_0000_0000_0000 ==> float::integer_as_double(a) == a,
{
    lemma_rounded_near(a);
    if a <= 0x20_0000_0000_0000 {
        lemma_small_integer(a);
    }
}

/// Dividing by a power of ten is correctly rounded: the value of the mantissa
/// `m` is at most half of its last significant bit away from the exact quotient
/// of `m`, as a double, and `10^k`. (All in units of `2^-128`.)
pub proof fn division_is_correctly_rounded(m: i64, k: nat)
    requires
        m != 0,
        k <= 12,
    ensures
        ({
            let v = float::grid_value(m, k);
            let last_bit = pow2((float::exponent(v) + 128) as nat);
            let value = float::significand(v) * last_bit;
            let exact = float::integer_as_double(float::magnitude(m)) * pow2(128);
            &&& float::exponent(v) + 128 >= 0
            &&& 2 * exact <= 2 * (value * float::pow10(k)) + last_bit * float::pow10(k)
            &&& 2 * (value * float::pow10(k)) <= 2 * exact + last_bit * float::pow10(k)
        }),
{
    let n = float::integer_as_double(float::magnitude(m));
    let d = float::pow10(k);
    let v = float::grid_value(m, k);
    float::lemma_pow10_bounds(k);
    float::lemma_integer_as_double(float::magnitude(m));
    float::lemma_quotient_bounds(n, d);
    lemma_grid_value_number(m, k);
    let l = float::quotient_length(n, d);
    let q = float::quotient(n, d);
    let e = l - 53 - 128;
    assert(float::magnitude_bits(q, e) == (l + 893) * 0x10_0000_0000_0000 + q);
    lemma_magnitude_read_back(v, q, e);
    let g = pow2((l - 53) as nat);
    lemma_pow2_pos((l - 53) as nat);
    lemma_mul_strictly_positive(d as int, g as int);
    float::round_half_even_is_nearest(n * pow2(128), d * g);
    let last_bit = pow2((float::exponent(v) + 128) as nat);
    if float::exponent(v) == e + 1 {
        lemma_pow2_unfold((e + 1 + 128) as nat);
    }
    let value = float::significand(v) * last_bit;
    assert(value * d == q * (d * g)) by (nonlinear_arith)
        requires
            value == q * g,
    ;
    assert(d * g <= last_bit * d) by (nonlinear_arith)
        requires
            g <= last_bit,
            d > 0,
    ;
}

/// A value on two grids is the same decimal number on both: its mantissa on the
/// finer grid is that on the coarser one with zeros appended.
pub proof fn grids_agree(a: i64, j: nat, m: i64, k: nat)
    requires
        j <= k <= 12,
        float::magnitude(m) <= mantissa_limit(),
        float::grid_value(a, j) == float::grid_value(m, k),
    ensures
        m == a * float::pow10((k - j) as nat),
{
    let c = float::pow10((k - j) as nat);
    lemma_pow10_adds(j, (k - j) as nat);
    lemma_pow10_adds((k - j) as nat, 0);
    float::lemma_pow10_bounds(j);
    float::lemma_pow10_bounds(k);
    float::grid_values_are_normal(a, j);
    float::grid_values_are_normal(m, k);
    lemma_mul_basics(c as int);
    if m != 0 {
        let (x, y) = (float::magnitude(a), float::magnitude(m));
        let n = float::integer_as_double(x);
        let d = float::pow10(j);
        lemma_grid_value_number(a, j);
        lemma_grid_value_number(m, k);
        lemma_small_integer(y);
        float::lemma_integer_as_double(x);
        lemma_quotient_near(n, d);
        lemma_quotient_near(y, float::pow10(k));
        let v = (float::quotient(n, d) * pow2((float::quotient_length(n, d) - 53) as nat)) as int;
        let (nn, yy, cc, dd, w) = (n as int, y as int, c as int, d as int, pow2(128) as int);
        lemma_pow2_pos(128);
        assert(nn * cc <= yy) by (nonlinear_arith)
            requires
                0x20_0000_0000_0000 * (nn * w) <= 0x20_0000_0000_0001 * (v * dd),
                0x1f_ffff_ffff_ffff * (v * (dd * cc)) <= 0x20_0000_0000_0000 * (yy * w),
                v > 0,
                dd > 0,
                cc >= 1,
                w > 0,
                0 < yy <= 0x4_0000_0000_0000,
                nn > 0,
        {
            let z = v * dd;
            assert(z > 0);
            assert(v * (dd * cc) == z * cc);
            assert(0x20_0000_0000_0000 * ((nn * w) * cc) <= 0x20_0000_0000_0001 * (z * cc));
            assert((nn * w) * cc == (nn * cc) * w);
            let t = z * cc;
            // 2^53 (2^53 - 1) n c w <= (2^53 + 1) (2^53 - 1) t <= (2^53 + 1) 2^53 y w
            assert(0x1f_ffff_ffff_ffff * ((nn * cc) * w) <= 0x20_0000_0000_0001 * (yy * w));
            assert(0x1f_ffff_ffff_ffff * (nn * cc) <= 0x20_0000_0000_0001 * yy);
        }
        assert(nn <= nn * cc) by (nonlinear_arith)
            requires
                cc >= 1,
                nn > 0,
        ;
        lemma_integer_exact(x);
        let fine = (a * c) as i64;
        assert(a * cc == if a < 0 {
            -(nn * cc)
        } else {
            nn * cc
        }) by (nonlinear_arith)
            requires
                nn == float::magnitude(a),
        ;
        finer_grid_holds_coarser(a, fine, j, k);
        grid_values_are_found(m, k);
        grid_values_are_found(fine, k);
    }
}

/// The values with the mantissas `ms` on the grid of `k` decimal places.
pub open spec fn on_grid(ms: Seq<i64>, k: nat) -> Seq<u64> {
    ms.map_values(|m: i64| float::grid_value(m, k))
}

/// If every value is exact at the scale `k`, detection gives that scale or a
/// smaller one.
proof fn lemma_scale_found(values: Seq<u64>, from: nat, k: nat)
    requires
        from <= k <= 12,
        price::all_exact(values, k),
    ensures
        price::scale_from(values, from) matches Some(j) && j <= k
            && price::all_exact(values, j as nat),
    decreases k - from,
{
    if !price::all_exact(values, from) {
        lemma_scale_found(values, from + 1, k);
    }
}

/// A series on a grid is found to be on one: on the grid it was made on, or on
/// a coarser one that holds it too. Its mantissas there, with zeros appended,
/// are those it was made from, and the recovered tick, brought to the scale the
/// series was made on, is the greatest common divisor of its moves.
pub proof fn on_grid_series_recover_scale_and_tick(ms: Seq<i64>, k: nat)
    requires
        k <= 12,
        ms.len() > 0,
        forall|i: int| 0 <= i < ms.len() ==> float::magnitude(#[trigger] ms[i]) <= mantissa_limit(),
    ensures
        grid::grid_scale(on_grid(ms, k)) matches Ok(j) && j <= k && {
            let found = grid::mantissas(on_grid(ms, k), j as nat);
            let zeros = float::pow10((k - j) as nat);
            &&& forall|i: int| 0 <= i < ms.len() ==> #[trigger] ms[i] == found[i] * zeros
            &&& gcd::gcd_from(0, grid::differences(ms)) > 0 ==> grid::tick_of(found) * zeros
                == grid::tick_of(ms)
            &&& gcd::gcd_from(0, grid::differences(ms)) == 0 ==> grid::tick_of(found) == 1
        },
{
    let values = on_grid(ms, k);
    assert forall|i: int| 0 <= i < values.len() implies float::mantissa_of(
        #[trigger] values[i],
        k,
    ) is Some by {
        assert(float::magnitude(ms[i]) <= mantissa_limit());
        grid_values_are_found(ms[i], k);
    }
    lemma_scale_found(values, 0, k);
    let j = price::scale_of(values)->Some_0 as nat;
    let found = grid::mantissas(values, j);
    let zeros = float::pow10((k - j) as nat);
    lemma_pow10_adds((k - j) as nat, 0);
    assert forall|i: int| 0 <= i < ms.len() implies #[trigger] ms[i] == found[i] * zeros
        && float::magnitude(
        found[i],
    ) <= mantissa_limit() by {
        assert(float::mantissa_of(values[i], j) is Some);
        assert(float::magnitude(ms[i]) <= mantissa_limit());
        grids_agree(found[i], j, ms[i], k);
        let (x, y, z) = (found[i] as int, ms[i] as int, zeros as int);
        assert(-y <= x <= y || y <= x <= -y) by (nonlinear_arith)
            requires
                y == x * z,
                z >= 1,
        ;
    }
    let d = grid::differences(found);
    assert forall|i: int| 0 <= i < found.len() - 1 implies i64::MIN <= #[trigger] d[i]
        <= i64::MAX by {
        assert(ms[i] == found[i] * zeros);
        assert(ms[i + 1] == found[i + 1] * zeros);
    }
    assert forall|i: int| 0 <= i < d.len() implies #[trigger] grid::differences(ms)[i]
        == zeros * d[i] by {
        assert(ms[i] == found[i] * zeros);
        assert(ms[i + 1] == found[i + 1] * zeros);
        let (x, y, z) = (found[i] as int, found[i + 1] as int, zeros as int);
        assert(y * z - x * z == z * (y - x)) by (nonlinear_arith);
    }
    assert(grid::differences(ms) =~= d.map_values(|x: int| zeros * x));
    gcd::gcd_scales(0, d, zeros);
    lemma_mul_basics(zeros as int);
    let g = gcd::gcd_from(0, d);
    lemma_mul_is_commutative(zeros as int, g as int);
    if g > 0 {
        lemma_mul_strictly_positive(zeros as int, g as int);
    }
}

/// The detected scale is the smallest that holds the block: at a smaller one no
/// mantissas of up to 15 decimal digits give its values.
pub proof fn detected_scale_has_the_fewest_decimals(values: Seq<u64>, ms: Seq<i64>, j: nat)
    requires
        price::scale_of(values) matches Some(k) && j < k,
        ms.len() == values.len(),
        forall|i: int|
            0 <= i < ms.len() ==> float::magnitude(#[trigger] ms[i]) <= mantissa_limit(),
    ensures
        on_grid(ms, j) != values,
{
    grid::lemma_scale(values, 0);
    if on_grid(ms, j) == values {
        assert forall|i: int| 0 <= i < values.len() implies float::mantissa_of(
            #[trigger] values[i],
            j,
        ) is Some by {
            assert(float::magnitude(ms[i]) <= mantissa_limit());
            grid_values_are_found(ms[i], j);
            assert(values[i] == on_grid(ms, j)[i]);
        }
        lemma_scale_found(values, 0, j);
    }
}

} // verus!
