//! Shifts, masks and bitwise "or" of machine words as arithmetic.

use vstd::arithmetic::div_mod::*;
use vstd::arithmetic::mul::*;
use vstd::arithmetic::power2::*;
use vstd::bits::*;
use vstd::prelude::*;

verus! {

pub proof fn lemma_pow2_le(a: nat, b: nat)
    requires
        a <= b,
    ensures
        0 < pow2(a) <= pow2(b),
{
    lemma_pow2_pos(a);
    if a < b {
        lemma_pow2_strictly_increases(a, b);
    }
}

pub proof fn lemma_pow2_values()
    ensures
        pow2(0) == 1,
        pow2(1) == 2,
        pow2(2) == 4,
        pow2(3) == 8,
        pow2(4) == 16,
        pow2(5) == 32,
        pow2(6) == 64,
        pow2(7) == 128,
        pow2(8) == 256,
        pow2(9) == 512,
        pow2(12) == 4096,
        pow2(32) == 0x1_0000_0000,
        pow2(52) == 0x10_0000_0000_0000,
        pow2(53) == 0x20_0000_0000_0000,
        pow2(63) == 0x8000_0000_0000_0000,
        pow2(64) == 0x1_0000_0000_0000_0000,
        pow2(128) == 0x1_0000_0000_0000_0000_0000_0000_0000_0000,
{
    lemma2_to64();
    lemma2_to64_rest();
    lemma_pow2_adds(64, 64);
}

pub proof fn lemma_u128_shl(x: u128, k: u128)
    requires
        k < 128,
        x * pow2(k as nat) <= u128::MAX,
    ensures
        x << k == x * pow2(k as nat),
    decreases k,
{
    lemma_pow2_values();
    if k == 0 {
        assert(x << 0u128 == x) by (bit_vector);
        lemma_mul_basics(x as int);
    } else {
        let j = (k - 1) as u128;
        lemma_pow2_unfold(k as nat);
        let p = pow2(j as nat);
        assert(x * pow2(k as nat) == 2 * (x * p)) by (nonlinear_arith)
            requires
                pow2(k as nat) == 2 * p,
        ;
        lemma_u128_shl(x, j);
        let y = x << j;
        assert(x << k == (x << j) << 1u128) by (bit_vector)
            requires
                0 < k < 128,
                j == k - 1,
        ;
        assert(y <= 0x7fff_ffff_ffff_ffff_ffff_ffff_ffff_ffffu128 ==> y << 1u128 == 2 * y)
            by (bit_vector);
    }
}

pub proof fn lemma_u128_one_shl(k: u128)
    requires
        k < 128,
    ensures
        1u128 << k == pow2(k as nat),
{
    lemma_pow2_values();
    lemma_pow2_strictly_increases(k as nat, 128);
    lemma_mul_basics(pow2(k as nat) as int);
    lemma_u128_shl(1, k);
}

pub proof fn lemma_u64_one_shl(k: u64)
    requires
        k < 64,
    ensures
        1u64 << k == pow2(k as nat),
{
    lemma_pow2_values();
    lemma_pow2_strictly_increases(k as nat, 64);
    lemma_mul_basics(pow2(k as nat) as int);
    lemma_u64_shl_is_mul(1, k);
}

/// Appending `k` low bits: `(a << k) | c` is `a * 2^k + c`.
pub proof fn lemma_u128_append(a: u128, k: u128, c: u128)
    requires
        k < 128,
        c < pow2(k as nat),
        a * pow2(k as nat) + c <= u128::MAX,
    ensures
        (a << k) | c == a * pow2(k as nat) + c,
{
    lemma_u128_one_shl(k);
    lemma_u128_shl(a, k);
    assert((a << k) | c == (a << k) + c) by (bit_vector)
        requires
            k < 128,
            c < 1u128 << k,
    ;
}

/// Appending `k` low bits: `(a << k) | c` is `a * 2^k + c`.
pub proof fn lemma_u64_append(a: u64, k: u64, c: u64)
    requires
        k < 64,
        c < pow2(k as nat),
        a * pow2(k as nat) + c <= u64::MAX,
    ensures
        (a << k) | c == a * pow2(k as nat) + c,
        c | (a << k) == a * pow2(k as nat) + c,
{
    lemma_u64_one_shl(k);
    lemma_u64_shl_is_mul(a, k);
    assert((a << k) | c == (a << k) + c && c | (a << k) == (a << k) + c) by (bit_vector)
        requires
            k < 64,
            c < 1u64 << k,
    ;
}

pub proof fn lemma_u128_mask(x: u128, k: u128)
    requires
        k < 128,
    ensures
        x & ((1u128 << k) - 1) as u128 == x as nat % pow2(k as nat),
        1 <= 1u128 << k,
{
    lemma_u128_one_shl(k);
    lemma_pow2_pos(k as nat);
    lemma_u128_shr_is_div(x, k);
    let q = x >> k;
    let p = pow2(k as nat);
    lemma_fundamental_div_mod(x as int, p as int);
    assert(q * p <= x) by (nonlinear_arith)
        requires
            x == p * q + x as nat % p,
    ;
    lemma_u128_shl(q, k);
    lemma_mul_is_commutative(p as int, q as int);
    assert(x & ((1u128 << k) - 1) as u128 == x - ((x >> k) << k)) by (bit_vector)
        requires
            k < 128,
    ;
}

pub proof fn lemma_u64_mask(x: u64, k: u64)
    requires
        k < 64,
    ensures
        x & ((1u64 << k) - 1) as u64 == x as nat % pow2(k as nat),
        1 <= 1u64 << k,
{
    lemma_u64_one_shl(k);
    lemma_pow2_pos(k as nat);
    lemma_u64_low_bits_mask_is_mod(x, k as nat);
}

/// Reading a word as a two's complement number.
pub proof fn lemma_as_i64(v: u64)
    ensures
        v as i64 == (if v < 0x8000_0000_0000_0000 {
            v as int
        } else {
            v - 0x1_0000_0000_0000_0000
        }),
{
    assert(v as i64 == (if v < 0x8000_0000_0000_0000 {
        v as int
    } else {
        v - 0x1_0000_0000_0000_0000
    })) by (bit_vector);
}

} // verus!
