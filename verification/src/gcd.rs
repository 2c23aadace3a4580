//! Greatest common divisors.

use vstd::arithmetic::div_mod::*;
use vstd::arithmetic::mul::*;
use vstd::prelude::*;

verus! {

/// The greatest common divisor of `a` and `b` (0 when both are 0).
pub open spec fn gcd_of(a: nat, b: nat) -> nat
    decreases b,
{
    if b == 0 {
        a
    } else {
        gcd_of(b, a % b)
    }
}

/// The distance of `d` from zero.
pub open spec fn distance(d: int) -> nat {
    if d < 0 {
        (-d) as nat
    } else {
        d as nat
    }
}

/// The greatest common divisor of `g` and of all of `s`, up to their signs.
pub open spec fn gcd_from(g: nat, s: Seq<int>) -> nat
    decreases s.len(),
{
    if s.len() == 0 {
        g
    } else {
        gcd_from(gcd_of(g, distance(s[0])), s.skip(1))
    }
}

pub fn gcd(a: u64, b: u64) -> (g: u64)
    ensures
        g == gcd_of(a as nat, b as nat),
{
    let mut a: u64 = a;
    let mut b: u64 = b;
    let ghost whole = gcd_of(a as nat, b as nat);
    while b != 0
        invariant
            gcd_of(a as nat, b as nat) == whole,
        decreases b,
    {
        let r: u64 = a % b;
        a = b;
        b = r;
    }
    a
}

/// The greatest common divisor divides both numbers, and every common divisor
/// divides it.
pub proof fn gcd_is_greatest(a: nat, b: nat)
    requires
        a > 0 || b > 0,
    ensures
        gcd_of(a, b) > 0,
        a % gcd_of(a, b) == 0,
        b % gcd_of(a, b) == 0,
        forall|c: nat| c > 0 && a % c == 0 && b % c == 0 ==> #[trigger] (gcd_of(a, b) % c) == 0,
    decreases b,
{
    if b == 0 {
        lemma_mod_self_0(a as int);
        lemma_small_mod(0, a);
    } else {
        let r = a % b;
        let g = gcd_of(b, r);
        gcd_is_greatest(b, r);
        lemma_fundamental_div_mod(a as int, b as int);
        let q = a / b;
        lemma_multiple_sum(b, q, r, g);
        assert forall|c: nat| c > 0 && a % c == 0 && b % c == 0 implies #[trigger] (g % c) == 0 by {
            lemma_multiple_rest(a, b, q, r, c);
        }
    }
}

/// `b * q + r` is a multiple of `g` when `b` and `r` are.
proof fn lemma_multiple_sum(b: nat, q: nat, r: nat, g: nat)
    requires
        g > 0,
        b % g == 0,
        r % g == 0,
    ensures
        (b * q + r) % g == 0,
{
    lemma_fundamental_div_mod(b as int, g as int);
    lemma_fundamental_div_mod(r as int, g as int);
    let (x, y, gg) = ((b / g) as int, (r / g) as int, g as int);
    assert(b * q + r == (x * q + y) * gg) by (nonlinear_arith)
        requires
            b == gg * x,
            r == gg * y,
    ;
    lemma_mod_multiples_basic(x * q + y, gg);
}

/// `r` is a multiple of `c` when `b * q + r` and `b` are.
proof fn lemma_multiple_rest(a: nat, b: nat, q: nat, r: nat, c: nat)
    requires
        c > 0,
        a == b * q + r,
        a % c == 0,
        b % c == 0,
    ensures
        r % c == 0,
{
    lemma_fundamental_div_mod(a as int, c as int);
    lemma_fundamental_div_mod(b as int, c as int);
    let (x, y, cc) = ((a / c) as int, (b / c) as int, c as int);
    assert(r == (x - y * q) * cc) by (nonlinear_arith)
        requires
            a == cc * x,
            b == cc * y,
            a == b * q + r,
    ;
    lemma_mod_multiples_basic(x - y * q, cc);
}

proof fn lemma_multiple_trans(a: nat, b: nat, c: nat)
    requires
        b > 0,
        c > 0,
        a % b == 0,
        b % c == 0,
    ensures
        a % c == 0,
{
    lemma_fundamental_div_mod(a as int, b as int);
    lemma_small_mod(0, c);
    lemma_multiple_sum(b, a / b, 0, c);
}

/// A common divisor of the numbers divides their greatest common divisor.
proof fn lemma_common_divisor(g: nat, s: Seq<int>, c: nat)
    requires
        c > 0,
        g % c == 0,
        forall|i: int| 0 <= i < s.len() ==> distance(#[trigger] s[i]) % c == 0,
    ensures
        gcd_from(g, s) % c == 0,
    decreases s.len(),
{
    if s.len() > 0 {
        let d = distance(s[0]);
        if g > 0 || d > 0 {
            gcd_is_greatest(g, d);
            assert(gcd_of(g, d) % c == 0);
        }
        assert forall|i: int| 0 <= i < s.skip(1).len() implies distance(#[trigger] s.skip(1)[i]) % c
            == 0 by {
            assert(s.skip(1)[i] == s[i + 1]);
        }
        lemma_common_divisor(gcd_of(g, d), s.skip(1), c);
    }
}

/// What `gcd_from` gives divides its inputs, every common divisor of them
/// divides it, and it is zero only if they all are.
pub proof fn lemma_gcd_from(g: nat, s: Seq<int>)
    ensures
        gcd_from(g, s) == 0 <==> g == 0 && forall|i: int| 0 <= i < s.len() ==> #[trigger] s[i] == 0,
        gcd_from(g, s) > 0 ==> g % gcd_from(g, s) == 0 && forall|i: int|
            0 <= i < s.len() ==> distance(#[trigger] s[i]) % gcd_from(g, s) == 0,
        forall|c: nat|
            c > 0 && g % c == 0 && (forall|i: int|
                0 <= i < s.len() ==> distance(#[trigger] s[i]) % c == 0) ==> #[trigger] (gcd_from(
                g,
                s,
            ) % c) == 0,
    decreases s.len(),
{
    let r = gcd_from(g, s);
    assert forall|c: nat|
        c > 0 && g % c == 0 && (forall|i: int|
            0 <= i < s.len() ==> distance(#[trigger] s[i]) % c == 0) implies #[trigger] (r % c)
        == 0 by {
        lemma_common_divisor(g, s, c);
    }
    if s.len() == 0 {
        if g > 0 {
            lemma_mod_self_0(g as int);
        }
    } else {
        let d = distance(s[0]);
        let h = gcd_of(g, d);
        let more = s.skip(1);
        lemma_gcd_from(h, more);
        if g > 0 || d > 0 {
            gcd_is_greatest(g, d);
        }
        if r == 0 {
            assert forall|i: int| 0 <= i < s.len() implies #[trigger] s[i] == 0 by {
                if i > 0 {
                    assert(more[i - 1] == s[i]);
                }
            }
        } else {
            if g == 0 && forall|i: int| 0 <= i < s.len() ==> #[trigger] s[i] == 0 {
                assert(s[0] == 0);
                assert forall|i: int| 0 <= i < more.len() implies #[trigger] more[i] == 0 by {
                    assert(more[i] == s[i + 1]);
                }
                assert(false);
            }
            if h > 0 {
                lemma_multiple_trans(g, h, r);
                lemma_multiple_trans(d, h, r);
            } else {
                lemma_small_mod(0, r);
            }
            assert forall|i: int| 0 <= i < s.len() implies distance(#[trigger] s[i]) % r == 0 by {
                if i > 0 {
                    assert(more[i - 1] == s[i]);
                }
            }
        }
    }
}

/// Multiplying both numbers by `t` multiplies their greatest common divisor.
proof fn lemma_gcd_scaled(a: nat, b: nat, t: nat)
    requires
        t > 0,
    ensures
        gcd_of(t * a, t * b) == t * gcd_of(a, b),
    decreases b,
{
    if b == 0 {
        lemma_mul_basics(t as int);
    } else {
        lemma_mul_strictly_positive(t as int, b as int);
        lemma_truncate_middle(a as int, t as int, b as int);
        lemma_gcd_scaled(b, a % b, t);
    }
}

/// Multiplying all numbers by `t` multiplies their greatest common divisor.
pub proof fn gcd_scales(g: nat, s: Seq<int>, t: nat)
    requires
        t > 0,
    ensures
        gcd_from(t * g, s.map_values(|d: int| t * d)) == t * gcd_from(g, s),
    decreases s.len(),
{
    let u = s.map_values(|d: int| t * d);
    if s.len() > 0 {
        let d = distance(s[0]);
        assert(distance(u[0]) == t * d) by (nonlinear_arith)
            requires
                u[0] == t * s[0],
                d == distance(s[0]),
                t > 0,
        ;
        lemma_gcd_scaled(g, d, t);
        assert(u.skip(1) =~= s.skip(1).map_values(|d: int| t * d));
        gcd_scales(gcd_of(g, d), s.skip(1), t);
    }
}

/// Zero adds nothing to a greatest common divisor, and with itself it has zero.
pub proof fn gcd_with_zero(a: nat)
    ensures
        gcd_of(a, 0) == a,
        gcd_of(0, a) == a,
        gcd_of(0, 0) == 0,
{
    reveal_with_fuel(gcd_of, 2);
    if a > 0 {
        lemma_small_mod(0, a);
    }
}

} // verus!
