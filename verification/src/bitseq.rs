//! Bit sequences and the numbers they stand for, most significant bit first.

use vstd::arithmetic::div_mod::*;
use vstd::arithmetic::mul::*;
use vstd::arithmetic::power2::*;
use vstd::prelude::*;

verus! {

/// The low `n` bits of `v`, most significant first.
pub open spec fn bits_of(v: nat, n: nat) -> Seq<bool>
    decreases n,
{
    if n == 0 {
        Seq::empty()
    } else {
        bits_of(v / 2, (n - 1) as nat).push(v % 2 == 1)
    }
}

/// The number that `s` writes in binary, most significant bit first.
pub open spec fn value_of(s: Seq<bool>) -> nat
    decreases s.len(),
{
    if s.len() == 0 {
        0
    } else {
        2 * value_of(s.drop_last()) + if s.last() {
            1nat
        } else {
            0nat
        }
    }
}

/// `n` zero bits.
pub open spec fn zero_bits(n: nat) -> Seq<bool> {
    Seq::new(n, |i: int| false)
}

/// The bits of `bytes`, each byte most significant bit first.
pub open spec fn byte_bits(bytes: Seq<u8>) -> Seq<bool>
    decreases bytes.len(),
{
    if bytes.len() == 0 {
        Seq::empty()
    } else {
        byte_bits(bytes.drop_last()) + bits_of(bytes.last() as nat, 8)
    }
}

/// Zero bits needed after `n` bits to reach a byte boundary.
pub open spec fn padding(n: nat) -> nat {
    ((8 - n % 8) % 8) as nat
}

/// `s` followed by zero bits up to a byte boundary.
pub open spec fn padded(s: Seq<bool>) -> Seq<bool> {
    s + zero_bits(padding(s.len()))
}

/// The bytes that hold `s`, the last one filled up with zero bits.
pub open spec fn pack(s: Seq<bool>) -> Seq<u8> {
    Seq::new(
        (s.len() + 7) / 8,
        |i: int| value_of(padded(s).subrange(8 * i, 8 * i + 8)) as u8,
    )
}

/// Number of binary digits of `n` (0 for 0).
pub open spec fn bit_length(n: nat) -> nat
    decreases n,
{
    if n == 0 {
        0
    } else {
        1 + bit_length(n / 2)
    }
}

pub proof fn lemma_bits_of_len(v: nat, n: nat)
    ensures
        bits_of(v, n).len() == n,
    decreases n,
{
    if n > 0 {
        lemma_bits_of_len(v / 2, (n - 1) as nat);
    }
}

pub proof fn lemma_value_of_bound(s: Seq<bool>)
    ensures
        value_of(s) < pow2(s.len()),
    decreases s.len(),
{
    if s.len() == 0 {
        lemma2_to64();
    } else {
        lemma_value_of_bound(s.drop_last());
        lemma_pow2_unfold(s.len());
    }
}

/// Reading back what `bits_of` wrote gives the number modulo `2^n`.
pub proof fn lemma_value_of_bits_of(v: nat, n: nat)
    ensures
        value_of(bits_of(v, n)) == v % pow2(n),
    decreases n,
{
    lemma_pow2_pos(n);
    if n == 0 {
        lemma2_to64();
    } else {
        let h = bits_of(v / 2, (n - 1) as nat);
        assert(bits_of(v, n).drop_last() =~= h);
        lemma_value_of_bits_of(v / 2, (n - 1) as nat);
        lemma_pow2_unfold(n);
        lemma_pow2_pos((n - 1) as nat);
        lemma_mod_breakdown(v as int, 2, pow2((n - 1) as nat) as int);
    }
}

/// Writing back what `value_of` read gives the same bits.
pub proof fn lemma_bits_of_value_of(s: Seq<bool>)
    ensures
        bits_of(value_of(s), s.len()) == s,
    decreases s.len(),
{
    if s.len() > 0 {
        lemma_bits_of_value_of(s.drop_last());
        assert(value_of(s) / 2 == value_of(s.drop_last()));
        assert(bits_of(value_of(s), s.len()) =~= s.drop_last().push(s.last()));
        assert(s =~= s.drop_last().push(s.last()));
    } else {
        assert(s =~= Seq::empty());
    }
}

pub proof fn lemma_value_of_concat(s: Seq<bool>, t: Seq<bool>)
    ensures
        value_of(s + t) == value_of(s) * pow2(t.len()) + value_of(t),
    decreases t.len(),
{
    if t.len() == 0 {
        assert(s + t =~= s);
        lemma2_to64();
        lemma_mul_basics(value_of(s) as int);
    } else {
        assert((s + t).drop_last() =~= s + t.drop_last());
        lemma_value_of_concat(s, t.drop_last());
        lemma_pow2_unfold(t.len());
        let a = value_of(s) as int;
        let p = pow2((t.len() - 1) as nat) as int;
        assert((s + t).last() == t.last());
        assert(t.drop_last().len() == t.len() - 1);
        assert(a * pow2(t.len()) == 2 * (a * p)) by (nonlinear_arith)
            requires
                pow2(t.len()) == 2 * p,
        ;
    }
}

/// The low `a + b` bits are the `a` bits above the low `b`, then the low `b`.
pub proof fn lemma_bits_of_split(v: nat, a: nat, b: nat)
    ensures
        bits_of(v, a + b) == bits_of(v / pow2(b), a) + bits_of(v, b),
    decreases b,
{
    if b == 0 {
        lemma2_to64();
        assert(bits_of(v, a) + bits_of(v, b) =~= bits_of(v, a));
    } else {
        lemma_bits_of_split(v / 2, a, (b - 1) as nat);
        lemma_pow2_unfold(b);
        lemma_pow2_pos((b - 1) as nat);
        lemma_div_denominator(v as int, 2, pow2((b - 1) as nat) as int);
        let t = bits_of(v / 2, (b - 1) as nat);
        assert(bits_of(v / pow2(b), a) + t.push(v % 2 == 1) =~= (bits_of(v / pow2(b), a) + t).push(
            v % 2 == 1,
        ));
    }
}

/// Only the value modulo `2^n` matters for the low `n` bits.
pub proof fn lemma_bits_of_mod(v: nat, w: nat, n: nat)
    requires
        v % pow2(n) == w % pow2(n),
    ensures
        bits_of(v, n) == bits_of(w, n),
{
    lemma_value_of_bits_of(v, n);
    lemma_value_of_bits_of(w, n);
    lemma_bits_of_len(v, n);
    lemma_bits_of_len(w, n);
    lemma_bits_of_value_of(bits_of(v, n));
    lemma_bits_of_value_of(bits_of(w, n));
}

/// `hi * 2^n + lo` writes `hi`, then `lo` in `n` bits.
pub proof fn lemma_bits_of_join(hi: nat, lo: nat, a: nat, n: nat)
    requires
        lo < pow2(n),
    ensures
        bits_of(hi * pow2(n) + lo, a + n) == bits_of(hi, a) + bits_of(lo, n),
{
    let v = hi * pow2(n) + lo;
    lemma_bits_of_split(v, a, n);
    lemma_pow2_pos(n);
    lemma_fundamental_div_mod_converse(v as int, pow2(n) as int, hi as int, lo as int);
    lemma_small_mod(lo, pow2(n));
    lemma_bits_of_mod(v, lo, n);
}

/// The value of the bits `a..b` of `s`.
pub proof fn lemma_value_of_subrange(s: Seq<bool>, a: int, b: int)
    requires
        0 <= a <= b <= s.len(),
    ensures
        value_of(s.subrange(a, b)) == (value_of(s) / pow2((s.len() - b) as nat)) % pow2(
            (b - a) as nat,
        ),
{
    let hi = s.subrange(0, a);
    let mid = s.subrange(a, b);
    let lo = s.subrange(b, s.len() as int);
    let p = pow2((s.len() - b) as nat);
    let q = pow2((b - a) as nat);
    assert(s =~= (hi + mid) + lo);
    lemma_value_of_concat(hi + mid, lo);
    lemma_value_of_concat(hi, mid);
    lemma_value_of_bound(lo);
    lemma_value_of_bound(mid);
    lemma_pow2_pos((s.len() - b) as nat);
    lemma_pow2_pos((b - a) as nat);
    lemma_fundamental_div_mod_converse(
        value_of(s) as int,
        p as int,
        value_of(hi + mid) as int,
        value_of(lo) as int,
    );
    lemma_fundamental_div_mod_converse(
        value_of(hi + mid) as int,
        q as int,
        value_of(hi) as int,
        value_of(mid) as int,
    );
}

pub proof fn lemma_byte_bits_len(bytes: Seq<u8>)
    ensures
        byte_bits(bytes).len() == 8 * bytes.len(),
    decreases bytes.len(),
{
    if bytes.len() > 0 {
        lemma_byte_bits_len(bytes.drop_last());
        lemma_bits_of_len(bytes.last() as nat, 8);
    }
}

pub proof fn lemma_byte_bits_push(bytes: Seq<u8>, b: u8)
    ensures
        byte_bits(bytes.push(b)) == byte_bits(bytes) + bits_of(b as nat, 8),
{
    assert(bytes.push(b).drop_last() =~= bytes);
}

pub proof fn lemma_byte_bits_concat(a: Seq<u8>, b: Seq<u8>)
    ensures
        byte_bits(a + b) == byte_bits(a) + byte_bits(b),
    decreases b.len(),
{
    if b.len() == 0 {
        assert(a + b =~= a);
        assert(byte_bits(a) + byte_bits(b) =~= byte_bits(a));
    } else {
        assert((a + b).drop_last() =~= a + b.drop_last());
        lemma_byte_bits_concat(a, b.drop_last());
        assert(byte_bits(a) + (byte_bits(b.drop_last()) + bits_of(b.last() as nat, 8)) =~= (
        byte_bits(a) + byte_bits(b.drop_last())) + bits_of(b.last() as nat, 8));
    }
}

pub proof fn lemma_byte_bits_subrange(bytes: Seq<u8>, a: int, b: int)
    requires
        0 <= a <= b <= bytes.len(),
    ensures
        byte_bits(bytes).subrange(8 * a, 8 * b) == byte_bits(bytes.subrange(a, b)),
{
    let x = bytes.subrange(0, a);
    let y = bytes.subrange(a, b);
    let z = bytes.subrange(b, bytes.len() as int);
    assert(bytes =~= (x + y) + z);
    lemma_byte_bits_concat(x + y, z);
    lemma_byte_bits_concat(x, y);
    lemma_byte_bits_len(x);
    lemma_byte_bits_len(y);
    lemma_byte_bits_len(z);
    assert(byte_bits(bytes).subrange(8 * a, 8 * b) =~= byte_bits(y));
}

/// When bytes with the bits `fresh` are appended, they are appended after any
/// prefix too.
pub proof fn lemma_byte_bits_tail(before: Seq<u8>, after: Seq<u8>, at: int, fresh: Seq<bool>)
    requires
        0 <= at <= before.len() <= after.len(),
        after.take(before.len() as int) == before,
        byte_bits(after) == byte_bits(before) + fresh,
    ensures
        byte_bits(after.skip(at)) == byte_bits(before.skip(at)) + fresh,
        after.take(at) == before.take(at),
{
    let head = before.take(at);
    assert(after.take(at) =~= head);
    assert(before =~= head + before.skip(at));
    assert(after =~= head + after.skip(at));
    lemma_byte_bits_concat(head, before.skip(at));
    lemma_byte_bits_concat(head, after.skip(at));
    let k = byte_bits(head).len() as int;
    assert(byte_bits(after).skip(k) =~= byte_bits(after.skip(at)));
    assert((byte_bits(before) + fresh).skip(k) =~= byte_bits(before.skip(at)) + fresh);
}

/// Different byte strings have different bits.
pub proof fn lemma_byte_bits_injective(a: Seq<u8>, b: Seq<u8>)
    requires
        byte_bits(a) == byte_bits(b),
    ensures
        a == b,
    decreases a.len(),
{
    lemma_byte_bits_len(a);
    lemma_byte_bits_len(b);
    if a.len() == 0 {
        assert(a =~= b);
    } else {
        let n = 8 * (a.len() - 1);
        let (x, y) = (a.drop_last(), b.drop_last());
        lemma_byte_bits_len(x);
        lemma_byte_bits_len(y);
        lemma_bits_of_len(a.last() as nat, 8);
        lemma_bits_of_len(b.last() as nat, 8);
        assert(byte_bits(a).subrange(0, n) =~= byte_bits(x));
        assert(byte_bits(b).subrange(0, n) =~= byte_bits(y));
        assert(byte_bits(a).subrange(n, n + 8) =~= bits_of(a.last() as nat, 8));
        assert(byte_bits(b).subrange(n, n + 8) =~= bits_of(b.last() as nat, 8));
        lemma_byte_bits_injective(x, y);
        lemma_value_of_bits_of(a.last() as nat, 8);
        lemma_value_of_bits_of(b.last() as nat, 8);
        lemma2_to64();
        assert(a =~= x.push(a.last()));
        assert(b =~= y.push(b.last()));
    }
}

/// Unpacking what `pack` packed gives the bits back, with their padding.
pub proof fn lemma_byte_bits_pack(s: Seq<bool>)
    ensures
        byte_bits(pack(s)) == padded(s),
        pack(s).len() == (s.len() + 7) / 8,
        padded(s).len() == 8 * pack(s).len(),
{
    let p = padded(s);
    let b = pack(s);
    assert(p.len() == 8 * b.len());
    lemma_pack_prefix(s, b.len() as int);
    assert(b.subrange(0, b.len() as int) =~= b);
    assert(p.subrange(0, p.len() as int) =~= p);
}

proof fn lemma_pack_prefix(s: Seq<bool>, n: int)
    requires
        0 <= n <= pack(s).len(),
    ensures
        byte_bits(pack(s).subrange(0, n)) == padded(s).subrange(0, 8 * n),
    decreases n,
{
    let p = padded(s);
    let b = pack(s);
    assert(p.len() == 8 * b.len());
    if n == 0 {
        assert(b.subrange(0, n) =~= Seq::empty());
        assert(p.subrange(0, 0) =~= Seq::empty());
    } else {
        lemma_pack_prefix(s, n - 1);
        let c = p.subrange(8 * (n - 1), 8 * (n - 1) + 8);
        lemma_value_of_bound(c);
        lemma2_to64();
        lemma_bits_of_value_of(c);
        assert(b.subrange(0, n).drop_last() =~= b.subrange(0, n - 1));
        assert(p.subrange(0, 8 * n) =~= p.subrange(0, 8 * (n - 1)) + c);
    }
}

/// Cutting packed bits after `k` bytes leaves the first `8 * k` padded bits,
/// and at least one whole byte is gone.
pub proof fn lemma_cut_bits(s: Seq<bool>, k: int)
    requires
        0 <= k < pack(s).len(),
    ensures
        byte_bits(pack(s).take(k)) + padded(s).skip(8 * k) == padded(s),
        padded(s).skip(8 * k).len() >= 8,
        padding(s.len()) < 8,
{
    let b = pack(s);
    lemma_byte_bits_pack(s);
    assert(b =~= b.take(k) + b.skip(k));
    lemma_byte_bits_concat(b.take(k), b.skip(k));
    lemma_byte_bits_len(b.take(k));
    lemma_byte_bits_len(b.skip(k));
    assert(padded(s).skip(8 * k) =~= byte_bits(b.skip(k)));
}

/// `bit_length` is the number of binary digits.
pub proof fn lemma_bit_length(n: nat)
    ensures
        n < pow2(bit_length(n)),
        n > 0 ==> bit_length(n) > 0 && pow2((bit_length(n) - 1) as nat) <= n,
    decreases n,
{
    lemma2_to64();
    if n > 0 {
        lemma_bit_length(n / 2);
        lemma_pow2_unfold(bit_length(n));
        if n / 2 > 0 {
            lemma_pow2_unfold((bit_length(n) - 1) as nat);
        }
    }
}

/// A number below `2^k` has at most `k` digits.
pub proof fn lemma_bit_length_bound(n: nat, k: nat)
    requires
        n < pow2(k),
    ensures
        bit_length(n) <= k,
    decreases n,
{
    if n > 0 {
        lemma2_to64();
        lemma_pow2_unfold(k);
        lemma_bit_length_bound(n / 2, (k - 1) as nat);
    }
}

/// Number of zero binary digits at the low end of `n` (0 for 0).
pub open spec fn trailing_zeros(n: nat) -> nat
    decreases n,
{
    if n == 0 || n % 2 == 1 {
        0
    } else {
        1 + trailing_zeros(n / 2)
    }
}

pub proof fn lemma_trailing_zeros(n: nat)
    requires
        n > 0,
    ensures
        n % pow2(trailing_zeros(n)) == 0,
        (n / pow2(trailing_zeros(n))) % 2 == 1,
        trailing_zeros(n) < bit_length(n),
    decreases n,
{
    lemma2_to64();
    if n % 2 == 0 {
        let h = n / 2;
        lemma_trailing_zeros(h);
        let t = trailing_zeros(h);
        let p = pow2(t);
        lemma_pow2_unfold(t + 1);
        lemma_pow2_pos(t);
        lemma_div_denominator(n as int, 2, p as int);
        lemma_mod_breakdown(n as int, 2, p as int);
    } else {
        assert(bit_length(n) == 1 + bit_length(n / 2));
    }
}

/// Below its trailing zeros a number has only zero digits.
pub proof fn lemma_trailing_zeros_below(n: nat, j: nat)
    requires
        j < trailing_zeros(n),
    ensures
        (n / pow2(j)) % 2 == 0,
    decreases n,
{
    lemma2_to64();
    if j > 0 {
        let i = (j - 1) as nat;
        lemma_trailing_zeros_below(n / 2, i);
        lemma_pow2_unfold(j);
        lemma_pow2_pos(i);
        lemma_div_denominator(n as int, 2, pow2(i) as int);
    } else {
        lemma_div_by_1(n as int);
    }
}

proof fn lemma_div_by_1(n: int)
    ensures
        n / (pow2(0) as int) == n,
{
    lemma2_to64();
    lemma_div_basics(n);
}

/// A multiple of `2^b` is a multiple of every smaller power of two.
pub proof fn lemma_multiple_of_smaller_power(n: nat, a: nat, b: nat)
    requires
        a <= b,
        n % pow2(b) == 0,
    ensures
        n % pow2(a) == 0,
{
    lemma_pow2_adds(a, (b - a) as nat);
    lemma_pow2_pos(a);
    lemma_pow2_pos((b - a) as nat);
    lemma_mod_mod(n as int, pow2(a) as int, pow2((b - a) as nat) as int);
    lemma_small_mod(0, pow2(a));
}

} // verus!
