//! MSB-first bit streams, LEB128 varints and zigzag mapping.

use crate::bitseq;
use crate::words;
use crate::DecodeError;
use vstd::arithmetic::div_mod::*;
use vstd::arithmetic::power2::*;
use vstd::bits::*;
use vstd::prelude::*;

verus! {

/// Destination for bits. Implemented by [`BitWriter`] and [`BitCounter`] so the
/// same encoding routine can either emit bits or only measure their cost.
pub trait BitSink: Sized {
    /// The sink is in a state that its own operations keep.
    spec fn wf(&self) -> bool;

    /// Number of bits put so far.
    spec fn count(&self) -> nat;

    /// The bytes in front of the bits.
    spec fn prefix(&self) -> Seq<u8>;

    /// The sink may have been given exactly the bits `s`.
    spec fn holds(&self, s: Seq<bool>) -> bool;

    /// Append the low `bits` bits of `value` (`bits` in 0..=64).
    fn put(&mut self, value: u64, bits: u32)
        requires
            old(self).wf(),
            bits <= 64,
            old(self).count() + bits <= u64::MAX,
        ensures
            final(self).wf(),
            final(self).prefix() == old(self).prefix(),
            final(self).count() == old(self).count() + bits,
            forall|s: Seq<bool>| #[trigger]
                old(self).holds(s) ==> final(self).holds(s
                    + bitseq::bits_of(value as nat, bits as nat)),
    ;
}

/// Counts bits without storing them.
#[derive(Debug, Clone, Copy)]
pub struct BitCounter {
    pub bits: u64,
}

impl Default for BitCounter {
    fn default() -> (c: Self)
        ensures
            c.bits == 0,
    {
        BitCounter { bits: 0 }
    }
}

impl BitSink for BitCounter {
    open spec fn wf(&self) -> bool {
        true
    }

    open spec fn count(&self) -> nat {
        self.bits as nat
    }

    open spec fn prefix(&self) -> Seq<u8> {
        Seq::empty()
    }

    open spec fn holds(&self, s: Seq<bool>) -> bool {
        s.len() == self.bits
    }

    fn put(&mut self, _value: u64, bits: u32) {
        proof {
            bitseq::lemma_bits_of_len(_value as nat, bits as nat);
        }
        self.bits = self.bits + bits as u64;
    }
}

/// Collects bits into bytes, most significant bit first.
#[derive(Debug)]
pub struct BitWriter {
    buf: Vec<u8>,
    acc: u128,
    pending: u32,
    len: u64,
}

impl View for BitWriter {
    type V = Seq<bool>;

    /// The bits put so far, without the prefix.
    closed spec fn view(&self) -> Seq<bool> {
        bitseq::byte_bits(self.buf@.skip(self.prefix_len())) + bitseq::bits_of(
            self.acc as nat,
            self.pending as nat,
        )
    }
}

impl BitWriter {
    closed spec fn prefix_len(&self) -> int {
        (8 * self.buf@.len() + self.pending - self.len) / 8
    }

    closed spec fn inv(&self) -> bool {
        &&& self.pending < 64
        &&& self.acc < pow2(self.pending as nat)
        &&& self.len <= 8 * self.buf@.len() + self.pending
        &&& (8 * self.buf@.len() + self.pending - self.len) % 8 == 0
        &&& self.prefix_len() <= self.buf@.len()
    }

    /// What holds of every writer.
    pub proof fn lemma_count(&self)
        requires
            self.wf(),
        ensures
            self@.len() == self.count(),
    {
        bitseq::lemma_byte_bits_len(self.buf@.skip(self.prefix_len()));
        bitseq::lemma_bits_of_len(self.acc as nat, self.pending as nat);
    }

    pub fn new() -> (w: Self)
        ensures
            w.wf(),
            w@ == Seq::<bool>::empty(),
            w.prefix() == Seq::<u8>::empty(),
            w.count() == 0,
    {
        Self::with_prefix(Vec::new())
    }

    /// Start a bit stream after an existing byte prefix.
    pub fn with_prefix(prefix: Vec<u8>) -> (w: Self)
        ensures
            w.wf(),
            w@ == Seq::<bool>::empty(),
            w.prefix() == prefix@,
            w.count() == 0,
    {
        let w = BitWriter { buf: prefix, acc: 0, pending: 0, len: 0 };
        proof {
            words::lemma_pow2_values();
            assert(w.buf@.skip(w.prefix_len()) =~= Seq::empty());
            assert(w.buf@.take(w.prefix_len()) =~= prefix@);
            assert(w@ =~= Seq::<bool>::empty());
        }
        w
    }

    /// Number of bits written through [`BitSink::put`] (the prefix is excluded).
    pub fn bit_len(&self) -> (n: u64)
        requires
            self.wf(),
        ensures
            n == self@.len(),
    {
        proof {
            self.lemma_count();
        }
        self.len
    }

    /// The prefix, then the bits packed into bytes, the last byte filled up
    /// with zero bits.
    pub fn finish(self) -> (out: Vec<u8>)
        requires
            self.wf(),
        ensures
            out@ == self.prefix() + bitseq::pack(self@),
    {
        let mut buf = self.buf;
        let ghost plen = self.prefix_len();
        let ghost before = buf@;
        if self.pending > 0 {
            let bytes: u32 = (self.pending + 7) / 8;
            let fill: u32 = bytes * 8 - self.pending;
            proof {
                lemma_pow2_adds(self.pending as nat, fill as nat);
                words::lemma_pow2_le((bytes * 8) as nat, 64);
                lemma_pow2_pos(fill as nat);
                words::lemma_pow2_values();
                let (a, p, f) = (self.acc as int, pow2(self.pending as nat), pow2(fill as nat));
                assert(a * f < p * f) by (nonlinear_arith)
                    requires
                        a < p,
                        f > 0,
                ;
                words::lemma_u128_shl(self.acc, fill as u128);
            }
            let aligned: u64 = (self.acc << fill) as u64;
            push_bytes(&mut buf, aligned, bytes);
            proof {
                bitseq::lemma_bits_of_join(self.acc as nat, 0, self.pending as nat, fill as nat);
                let z = bitseq::bits_of(0, fill as nat);
                let part = bitseq::bits_of(self.acc as nat, self.pending as nat);
                lemma_bits_of_zero(fill as nat);
                bitseq::lemma_byte_bits_tail(before, buf@, plen, part + z);
                self.lemma_count();
                assert(bitseq::padding(self@.len()) == fill);
                assert(bitseq::byte_bits(buf@.skip(plen)) =~= self@ + z);
            }
        } else {
            proof {
                assert(bitseq::bits_of(self.acc as nat, 0) =~= Seq::empty());
                assert(self@ =~= bitseq::byte_bits(buf@.skip(plen)));
                bitseq::lemma_byte_bits_len(buf@.skip(plen));
                assert(bitseq::padded(self@) =~= self@);
            }
        }
        proof {
            bitseq::lemma_byte_bits_pack(self@);
            bitseq::lemma_byte_bits_injective(buf@.skip(plen), bitseq::pack(self@));
            assert(buf@ =~= before.take(plen) + buf@.skip(plen));
        }
        buf
    }
}

impl Default for BitWriter {
    fn default() -> (w: Self)
        ensures
            w.wf(),
            w@ == Seq::<bool>::empty(),
            w.prefix() == Seq::<u8>::empty(),
            w.count() == 0,
    {
        Self::new()
    }
}

/// Push the low `count` bytes of `word`, the most significant first.
fn push_bytes(buf: &mut Vec<u8>, word: u64, count: u32)
    requires
        count <= 8,
        word < pow2((8 * count) as nat),
    ensures
        bitseq::byte_bits(final(buf)@) == bitseq::byte_bits(old(buf)@)
            + bitseq::bits_of(word as nat, (8 * count) as nat),
        final(buf)@.len() == old(buf)@.len() + count,
        final(buf)@.take(old(buf)@.len() as int) == old(buf)@,
{
    let ghost start = buf@;
    let mut left: u32 = count;
    proof {
        assert(buf@.take(start.len() as int) =~= start);
        assert(bitseq::byte_bits(start)
            + bitseq::bits_of(word as nat / pow2((8 * left) as nat), 0) =~= bitseq::byte_bits(
            start,
        ));
    }
    while left > 0
        invariant
            left <= count <= 8,
            buf@.len() == start.len() + (count - left),
            buf@.take(start.len() as int) == start,
            bitseq::byte_bits(buf@) == bitseq::byte_bits(start) + bitseq::bits_of(
                word as nat / pow2((8 * left) as nat),
                (8 * (count - left)) as nat,
            ),
        decreases left,
    {
        let ghost before = buf@;
        left = left - 1;
        let shift: u32 = left * 8;
        let shifted: u64 = word >> shift;
        let byte: u8 = (shifted & 0xff) as u8;
        proof {
            lemma_u64_shr_is_div(word, shift as u64);
            lemma_u64_low_byte(shifted);
            words::lemma_pow2_values();
            lemma_pow2_pos(shift as nat);
            lemma_pow2_adds(shift as nat, 8);
            lemma_div_denominator(word as int, pow2(shift as nat) as int, 256);
            let hi = word as nat / pow2((shift + 8) as nat);
            let k = (8 * (count - left - 1)) as nat;
            lemma_fundamental_div_mod(shifted as int, 256);
            bitseq::lemma_bits_of_join(hi, byte as nat, k, 8);
            bitseq::lemma_byte_bits_push(before, byte);
            assert(bitseq::byte_bits(start) + (bitseq::bits_of(hi, k)
                + bitseq::bits_of(byte as nat, 8)) =~= (bitseq::byte_bits(
                start,
            ) + bitseq::bits_of(hi, k)) + bitseq::bits_of(byte as nat, 8));
        }
        buf.push(byte);
        proof {
            assert(buf@.take(start.len() as int) =~= start);
        }
    }
    proof {
        words::lemma_pow2_values();
    }
}

proof fn lemma_u64_low_byte(x: u64)
    ensures
        (x & 0xff) as u8 == x % 256,
{
    assert((x & 0xff) == x % 256) by (bit_vector);
}

pub proof fn lemma_bits_of_zero(n: nat)
    ensures
        bitseq::bits_of(0, n) == bitseq::zero_bits(n),
    decreases n,
{
    if n > 0 {
        lemma_bits_of_zero((n - 1) as nat);
        assert(bitseq::bits_of(0, n) =~= bitseq::zero_bits(n));
    } else {
        assert(bitseq::bits_of(0, 0) =~= bitseq::zero_bits(0));
    }
}

impl BitSink for BitWriter {
    closed spec fn wf(&self) -> bool {
        self.inv()
    }

    closed spec fn count(&self) -> nat {
        self.len as nat
    }

    closed spec fn prefix(&self) -> Seq<u8> {
        self.buf@.take(self.prefix_len())
    }

    open spec fn holds(&self, s: Seq<bool>) -> bool {
        self@ == s
    }

    fn put(&mut self, value: u64, bits: u32)
        ensures
            final(self)@ == old(self)@ + bitseq::bits_of(value as nat, bits as nat),
    {
        proof {
            words::lemma_pow2_values();
        }
        if bits == 0 {
            assert(self@ + bitseq::bits_of(value as nat, 0) =~= self@);
            return;
        }
        let masked: u64 = if bits == 64 {
            value
        } else {
            proof {
                words::lemma_u64_mask(value, bits as u64);
            }
            value & ((1u64 << bits) - 1)
        };
        let ghost p = pow2(bits as nat);
        let ghost pre = *self;
        proof {
            lemma_pow2_pos(bits as nat);
            if bits == 64 {
                lemma_small_mod(value as nat, p);
            } else {
                lemma_mod_bound(value as int, p as int);
            }
            assert(masked == value as nat % p);
            lemma_mod_twice(value as int, p as int);
            bitseq::lemma_bits_of_mod(masked as nat, value as nat, bits as nat);
            lemma_pow2_adds(self.pending as nat, bits as nat);
            lemma_pow2_strictly_increases((self.pending + bits) as nat, 128);
            let a = self.acc as int;
            let q = pow2(self.pending as nat) as int;
            assert(a * p + masked < q * p) by (nonlinear_arith)
                requires
                    a <= q - 1,
                    masked < p,
            ;
            words::lemma_u128_append(self.acc, bits as u128, masked as u128);
            bitseq::lemma_bits_of_join(self.acc as nat, masked as nat, self.pending as nat,
                bits as nat);
        }
        let acc: u128 = (self.acc << bits) | masked as u128;
        let total: u32 = self.pending + bits;
        self.len = self.len + bits as u64;
        let ghost plen = pre.prefix_len();
        let ghost head = bitseq::byte_bits(pre.buf@.skip(plen));
        let ghost grown = bitseq::bits_of(pre.acc as nat, pre.pending as nat) + bitseq::bits_of(
            value as nat,
            bits as nat,
        );
        assert(bitseq::bits_of(acc as nat, total as nat) == grown);
        if total >= 64 {
            let rest: u32 = total - 64;
            proof {
                lemma_u128_shr_is_div(acc, rest as u128);
                words::lemma_u128_mask(acc, rest as u128);
                lemma_pow2_pos(rest as nat);
                lemma_pow2_adds(rest as nat, 64);
                let (x, r) = (acc as int, pow2(rest as nat) as int);
                lemma_fundamental_div_mod(x, r);
                assert(x / r < 0x1_0000_0000_0000_0000) by (nonlinear_arith)
                    requires
                        x < r * 0x1_0000_0000_0000_0000,
                        x == r * (x / r) + x % r,
                        x % r >= 0,
                        r > 0,
                ;
                bitseq::lemma_bits_of_split(acc as nat, 64, rest as nat);
                lemma_mod_twice(x, r);
                bitseq::lemma_bits_of_mod(acc as nat, acc as nat % pow2(rest as nat), rest as nat);
                lemma_mod_bound(x, r);
            }
            let word: u64 = (acc >> rest) as u64;
            push_bytes(&mut self.buf, word, 8);
            self.acc = acc & ((1u128 << rest) - 1);
            self.pending = rest;
            proof {
                assert(self.prefix_len() == plen);
                bitseq::lemma_byte_bits_tail(pre.buf@, self.buf@, plen,
                    bitseq::bits_of(word as nat, 64));
                assert(self.prefix() =~= pre.prefix());
                assert(self@ =~= head + grown);
                assert(head + grown =~= pre@ + bitseq::bits_of(value as nat, bits as nat));
            }
        } else {
            self.acc = acc;
            self.pending = total;
            proof {
                assert(self.prefix_len() == plen);
                assert(self@ =~= head + grown);
                assert(head + grown =~= pre@ + bitseq::bits_of(value as nat, bits as nat));
            }
        }
    }
}

/// Reading ran into the end of the input.
pub open spec fn at_end<T>(res: Result<T, DecodeError>) -> bool {
    res == Err::<T, DecodeError>(DecodeError::UnexpectedEof)
}

/// What a reader with the bits `s` left gives for `n` bits, and what it then
/// has left.
pub open spec fn take_bits(s: Seq<bool>, n: nat) -> (Result<u64, DecodeError>, Seq<bool>) {
    if n > 64 || n > s.len() {
        (Err(DecodeError::UnexpectedEof), s)
    } else {
        (Ok(bitseq::value_of(s.take(n as int)) as u64), s.skip(n as int))
    }
}

/// What a reader with the bits `s` left gives for one bit.
pub open spec fn take_bit(s: Seq<bool>) -> (Result<bool, DecodeError>, Seq<bool>) {
    if s.len() == 0 {
        (Err(DecodeError::UnexpectedEof), s)
    } else {
        (Ok(s[0]), s.skip(1))
    }
}

/// Reads bits from bytes, most significant bit first.
pub struct BitReader<'a> {
    data: &'a [u8],
    pos: u64,
    limit: u64,
}

impl<'a> View for BitReader<'a> {
    type V = Seq<bool>;

    /// The bits not read yet.
    closed spec fn view(&self) -> Seq<bool> {
        bitseq::byte_bits(self.data@).skip(self.pos as int)
    }
}

impl<'a> BitReader<'a> {
    /// What the reader's own operations keep.
    pub closed spec fn wf(&self) -> bool {
        &&& self.limit == 8 * self.data@.len()
        &&& self.pos <= self.limit
    }

    pub fn new(data: &'a [u8]) -> (r: Self)
        requires
            8 * data@.len() <= u64::MAX,
        ensures
            r.wf(),
            r@ == bitseq::byte_bits(data@),
    {
        let r = BitReader { data, pos: 0, limit: data.len() as u64 * 8 };
        proof {
            assert(r@ =~= bitseq::byte_bits(data@));
        }
        r
    }

    /// The next `bits` bits as a number; the end of the input if there are not
    /// that many, or more than 64 are asked for.
    pub fn read(&mut self, bits: u32) -> (res: Result<u64, DecodeError>)
        requires
            old(self).wf(),
        ensures
            final(self).wf(),
            (res, final(self)@) == take_bits(old(self)@, bits as nat),
    {
        let ghost all = bitseq::byte_bits(self.data@);
        proof {
            bitseq::lemma_byte_bits_len(self.data@);
        }
        if bits == 0 {
            assert(self@.skip(0) =~= self@);
            return Ok(0);
        }
        if bits > 64 || bits as u64 > self.limit - self.pos {
            return Err(DecodeError::UnexpectedEof);
        }
        let len: usize = self.data.len();
        let first: usize = (self.pos / 8) as usize;
        let shift: u32 = (self.pos % 8) as u32;
        let count: u32 = (shift + bits + 7) / 8;
        let mut word: u128 = 0;
        let mut i: u32 = 0;
        proof {
            assert(self.data@.subrange(first as int, first as int) =~= Seq::empty());
        }
        while i < count
            invariant
                i <= count <= 9,
                first + count <= len == self.data@.len(),
                word == bitseq::value_of(bitseq::byte_bits(self.data@.subrange(first as int,
                    first + i))),
            decreases count - i,
        {
            let byte: u8 = self.data[first + i as usize];
            proof {
                let part = self.data@.subrange(first as int, first + i);
                let more = self.data@.subrange(first as int, first + i + 1);
                assert(more =~= part.push(byte));
                bitseq::lemma_byte_bits_push(part, byte);
                bitseq::lemma_byte_bits_len(part);
                bitseq::lemma_bits_of_len(byte as nat, 8);
                bitseq::lemma_value_of_concat(bitseq::byte_bits(part),
                    bitseq::bits_of(byte as nat, 8));
                bitseq::lemma_value_of_bits_of(byte as nat, 8);
                bitseq::lemma_value_of_bound(bitseq::byte_bits(part));
                words::lemma_pow2_values();
                words::lemma_pow2_le((8 * i) as nat, 64);
                assert(word * pow2(8) == word * 256) by (nonlinear_arith)
                    requires
                        pow2(8) == 256,
                ;
                words::lemma_u128_append(word, 8, byte as u128);
            }
            word = (word << 8u32) | byte as u128;
            i = i + 1;
        }
        let drop: u32 = count * 8 - shift - bits;
        proof {
            let window = self.data@.subrange(first as int, first + count);
            let w = bitseq::byte_bits(window);
            bitseq::lemma_byte_bits_len(window);
            bitseq::lemma_byte_bits_subrange(self.data@, first as int, first + count);
            let a = self.pos as int;
            let b = self.pos + bits;
            assert(w.subrange(shift as int, shift + bits) =~= all.subrange(a, b));
            assert(self@.take(bits as int) =~= all.subrange(a, b));
            bitseq::lemma_value_of_subrange(w, shift as int, shift + bits);
            lemma_u128_shr_is_div(word, drop as u128);
            words::lemma_u128_mask(word >> drop, bits as u128);
            bitseq::lemma_value_of_bound(self@.take(bits as int));
            words::lemma_pow2_le(bits as nat, 64);
            words::lemma_pow2_values();
            assert(self@.skip(bits as int) =~= all.skip(b));
        }
        let value: u64 = ((word >> drop) & ((1u128 << bits) - 1)) as u64;
        self.pos = self.pos + bits as u64;
        Ok(value)
    }

    pub fn read_bit(&mut self) -> (res: Result<bool, DecodeError>)
        requires
            old(self).wf(),
        ensures
            final(self).wf(),
            (res, final(self)@) == take_bit(old(self)@),
    {
        let ghost before = self@;
        let bit: u64 = self.read(1)?;
        proof {
            let s = before.take(1);
            assert(s.drop_last() =~= Seq::empty());
            assert(bitseq::value_of(s.drop_last()) == 0);
        }
        Ok(bit == 1)
    }
}

/// The zigzag image of `v`: 0, -1, 1, -2, 2, ... become 0, 1, 2, 3, 4, ...
pub open spec fn zigzag_of(v: i64) -> u64 {
    if v >= 0 {
        (2 * v) as u64
    } else {
        (-2 * v - 1) as u64
    }
}

/// The number whose zigzag image is `u`.
pub open spec fn unzigzag_of(u: u64) -> i64 {
    if u % 2 == 0 {
        (u / 2) as i64
    } else {
        (-(u / 2) - 1) as i64
    }
}

pub fn zigzag(v: i64) -> (u: u64)
    ensures
        u == zigzag_of(v),
{
    proof {
        assert(((v << 1) ^ (v >> 63)) as u64 == (if v >= 0 {
            2 * v
        } else {
            -2 * v - 1
        })) by (bit_vector);
    }
    ((v << 1) ^ (v >> 63)) as u64
}

pub fn unzigzag(u: u64) -> (v: i64)
    ensures
        v == unzigzag_of(u),
{
    proof {
        assert((u & 1) == u % 2) by (bit_vector);
        assert(u % 2 == 0 ==> ((u >> 1) as i64) ^ 0i64 == u / 2) by (bit_vector);
        assert(u % 2 == 1 ==> ((u >> 1) as i64) ^ -1i64 as i64 == -(u / 2) - 1) by (bit_vector);
    }
    let sign: i64 = -((u & 1) as i64);
    ((u >> 1) as i64) ^ sign
}

/// `unzigzag` undoes `zigzag` and the other way round.
pub proof fn zigzag_is_a_bijection(v: i64, u: u64)
    ensures
        unzigzag_of(zigzag_of(v)) == v,
        zigzag_of(unzigzag_of(u)) == u,
{
}

pub proof fn lemma_leading_zeros(v: u64)
    ensures
        vstd::std_specs::bits::u64_leading_zeros(v) == 64 - bitseq::bit_length(v as nat),
    decreases v,
{
    reveal(vstd::std_specs::bits::u64_leading_zeros);
    if v > 0 {
        lemma_leading_zeros(v / 2);
    }
}

pub proof fn lemma_u64_trailing_zeros(v: u64)
    requires
        v != 0,
    ensures
        vstd::std_specs::bits::u64_trailing_zeros(v) == bitseq::trailing_zeros(v as nat),
{
    let t = vstd::std_specs::bits::u64_trailing_zeros(v);
    let u = bitseq::trailing_zeros(v as nat);
    vstd::std_specs::bits::axiom_u64_trailing_zeros(v);
    bitseq::lemma_trailing_zeros(v as nat);
    words::lemma_pow2_values();
    bitseq::lemma_bit_length_bound(v as nat, 64);
    if t < u {
        bitseq::lemma_trailing_zeros_below(v as nat, t as nat);
        lemma_u64_shr_is_div(v, t as u64);
        let w = v >> t as u64;
        assert(w & 1 == w % 2) by (bit_vector);
    } else if u < t {
        let j = u as u64;
        lemma_u64_shr_is_div(v, j);
        let w = v >> j;
        assert(w & 1 == w % 2) by (bit_vector);
    }
}

/// Bits needed to represent `v` (0 for 0).
pub fn width(v: u64) -> (w: u32)
    ensures
        w == bitseq::bit_length(v as nat),
        w <= 64,
{
    proof {
        lemma_leading_zeros(v);
        words::lemma_pow2_values();
        bitseq::lemma_bit_length_bound(v as nat, 64);
    }
    64 - v.leading_zeros()
}

/// The LEB128 bytes of `v`: seven bits per byte, the lowest first, the top bit
/// set on every byte but the last.
pub open spec fn varint(v: nat) -> Seq<u8>
    decreases v,
{
    if v < 128 {
        seq![v as u8]
    } else {
        seq![(128 + v % 128) as u8] + varint(v / 128)
    }
}

pub fn put_varint(out: &mut Vec<u8>, v: u64)
    ensures
        final(out)@ == old(out)@ + varint(v as nat),
{
    let ghost start = out@;
    let mut v: u64 = v;
    let ghost whole = start + varint(v as nat);
    while v >= 0x80
        invariant
            out@ + varint(v as nat) == whole,
        decreases v,
    {
        let byte: u8 = ((v & 0x7f) as u8) | 0x80;
        let ghost before = out@;
        proof {
            assert(((v & 0x7f) as u8) | 0x80 == 128 + v % 128) by (bit_vector);
            assert(v >> 7 == v / 128) by (bit_vector);
        }
        out.push(byte);
        proof {
            assert(out@ + varint((v / 128) as nat) =~= before + varint(v as nat));
        }
        v = v >> 7;
    }
    let ghost before = out@;
    out.push(v as u8);
    proof {
        assert(out@ =~= before + varint(v as nat));
    }
}

/// What is read from the bytes `s` as byte `i` and later of a varint: the
/// number these bytes stand for, and how many of them were used.
pub open spec fn take_varint_from(s: Seq<u8>, i: nat) -> (Result<nat, DecodeError>, nat)
    decreases 10 - i,
{
    if i >= 10 {
        (Err(DecodeError::Corrupt("varint longer than 10 bytes")), 0)
    } else if s.len() == 0 {
        (Err(DecodeError::UnexpectedEof), 0)
    } else {
        let payload = (s[0] % 128) as nat;
        if i == 9 && payload > 1 {
            (Err(DecodeError::Corrupt("varint overflows u64")), 1)
        } else if s[0] < 128 {
            (Ok(payload), 1)
        } else {
            let (rest, used) = take_varint_from(s.skip(1), i + 1);
            match rest {
                Ok(high) => (Ok(payload + 128 * high), used + 1),
                Err(e) => (Err(e), used + 1),
            }
        }
    }
}

/// The varint at the front of `s` and the number of bytes read for it.
pub open spec fn take_varint(s: Seq<u8>) -> (Result<u64, DecodeError>, nat) {
    let (v, used) = take_varint_from(s, 0);
    match v {
        Ok(v) => (Ok(v as u64), used),
        Err(e) => (Err(e), used),
    }
}

/// The bytes of `data` from `pos` on.
pub open spec fn bytes_from(data: Seq<u8>, pos: int) -> Seq<u8> {
    if pos <= data.len() {
        data.skip(pos)
    } else {
        Seq::empty()
    }
}

proof fn lemma_take_varint_bounds(s: Seq<u8>, i: nat)
    requires
        i <= 10,
    ensures
        take_varint_from(s, i).1 <= s.len(),
        take_varint_from(s, i).0 matches Ok(v) ==> i < 10 && v < pow2((64 - 7 * i) as nat),
    decreases 10 - i,
{
    words::lemma_pow2_values();
    if i < 10 && s.len() > 0 {
        if i < 9 {
            lemma_take_varint_bounds(s.skip(1), i + 1);
            lemma_pow2_adds((57 - 7 * i) as nat, 7);
            lemma_pow2_pos((57 - 7 * i) as nat);
        } else if s[0] >= 128 {
            assert(take_varint_from(s.skip(1), 10).0 is Err);
        }
    }
}

/// Read a LEB128 varint from `data` at `*pos`, advancing `*pos`.
pub fn get_varint(data: &[u8], pos: &mut usize) -> (res: Result<u64, DecodeError>)
    ensures
        res == take_varint(bytes_from(data@, *old(pos) as int)).0,
        *final(pos) == *old(pos) + take_varint(bytes_from(data@, *old(pos) as int)).1,
{
    let ghost start = *pos as int;
    let ghost s = bytes_from(data@, start);
    let ghost whole = take_varint_from(s, 0);
    let mut v: u64 = 0;
    let mut i: u32 = 0;
    proof {
        words::lemma_pow2_values();
        assert(s.skip(0) =~= s);
        lemma_take_varint_bounds(s, 0);
    }
    while i < 10
        invariant
            i <= 10,
            start == *old(pos),
            s == bytes_from(data@, start),
            whole == take_varint_from(s, 0),
            whole.1 <= s.len(),
            i <= s.len(),
            *pos == start + i,
            v < pow2((7 * i) as nat),
            match take_varint_from(s.skip(i as int), i as nat) {
                (Ok(high), used) => whole == (
                    Ok::<nat, DecodeError>((v + pow2((7 * i) as nat) * high) as nat),
                    (used + i) as nat,
                ),
                (Err(e), used) => whole == (Err::<nat, DecodeError>(e), (used + i) as nat),
            },
        decreases 10 - i,
    {
        let ghost rest = s.skip(i as int);
        proof {
            lemma_take_varint_bounds(rest, i as nat);
        }
        if *pos >= data.len() {
            return Err(DecodeError::UnexpectedEof);
        }
        let byte: u8 = data[*pos];
        *pos = *pos + 1;
        let payload: u64 = (byte & 0x7f) as u64;
        proof {
            assert(byte & 0x7f == byte % 128) by (bit_vector);
            assert((byte & 0x80 == 0) == (byte < 128)) by (bit_vector);
            assert(rest[0] == byte);
            assert(rest.skip(1) =~= s.skip(i + 1));
        }
        if i == 9 && payload > 1 {
            return Err(DecodeError::Corrupt("varint overflows u64"));
        }
        let shift: u32 = 7 * i;
        proof {
            lemma_pow2_pos(shift as nat);
            lemma_pow2_adds(shift as nat, 7);
            words::lemma_pow2_values();
            words::lemma_pow2_le(64, 70);
            let p = pow2(shift as nat);
            if i == 9 {
                assert(payload * p + v <= u64::MAX) by (nonlinear_arith)
                    requires
                        payload <= 1,
                        p == 0x8000_0000_0000_0000,
                        v < p,
                ;
            } else {
                words::lemma_pow2_le((7 * i + 7) as nat, 63);
                assert(payload * p + v < p * 128) by (nonlinear_arith)
                    requires
                        payload <= 127,
                        v < p,
                ;
            }
            words::lemma_u64_append(payload, shift as u64, v);
            let w = payload * p + v;
            match take_varint_from(rest.skip(1), (i + 1) as nat) {
                (Ok(high), used) => {
                    assert(v + p * (payload + 128 * high) == w + (p * 128) * high)
                        by (nonlinear_arith)
                        requires
                            w == payload * p + v,
                    ;
                },
                _ => {},
            }
            assert(v + p * payload == w) by (nonlinear_arith)
                requires
                    w == payload * p + v,
            ;
        }
        v = v | (payload << shift);
        if byte & 0x80 == 0 {
            return Ok(v);
        }
        i = i + 1;
    }
    Err(DecodeError::Corrupt("varint longer than 10 bytes"))
}

/// The bits of a sized field: 7 bits of width, then the value.
pub open spec fn sized(v: u64) -> Seq<bool> {
    bitseq::bits_of(bitseq::bit_length(v as nat), 7)
        + bitseq::bits_of(v as nat, bitseq::bit_length(v as nat))
}

/// What a reader with the bits `s` left gives for a sized field.
pub open spec fn take_sized(s: Seq<bool>) -> (Result<u64, DecodeError>, Seq<bool>) {
    match take_bits(s, 7) {
        (Err(e), rest) => (Err(e), rest),
        (Ok(w), rest) => if w > 64 {
            (Err(DecodeError::Corrupt("field width above 64")), rest)
        } else {
            take_bits(rest, w as nat)
        },
    }
}

/// A field that carries its own width: 7 bits of width, then the value.
pub fn put_sized<S: BitSink>(sink: &mut S, v: u64)
    requires
        old(sink).wf(),
        old(sink).count() + sized(v).len() <= u64::MAX,
    ensures
        final(sink).wf(),
        final(sink).prefix() == old(sink).prefix(),
        final(sink).count() == old(sink).count() + sized(v).len(),
        forall|s: Seq<bool>| #[trigger] old(sink).holds(s) ==> final(sink).holds(s + sized(v)),
{
    let w: u32 = width(v);
    let ghost before = *sink;
    proof {
        bitseq::lemma_bits_of_len(w as nat, 7);
        bitseq::lemma_bits_of_len(v as nat, w as nat);
    }
    sink.put(w as u64, 7);
    sink.put(v, w);
    proof {
        assert forall|s: Seq<bool>| #[trigger] before.holds(s) implies sink.holds(
            s + sized(v),
        ) by {
            assert((s + bitseq::bits_of(w as nat, 7)) + bitseq::bits_of(v as nat, w as nat)
                =~= s + sized(v));
        }
    }
}

/// The number of bits that [`put_sized`] writes for `v`.
pub fn sized_cost(v: u64) -> (n: u64)
    ensures
        n == sized(v).len(),
        n == 7 + bitseq::bit_length(v as nat),
        n <= 71,
{
    proof {
        bitseq::lemma_bits_of_len(bitseq::bit_length(v as nat), 7);
        bitseq::lemma_bits_of_len(v as nat, bitseq::bit_length(v as nat));
    }
    7 + width(v) as u64
}

pub fn get_sized(r: &mut BitReader) -> (res: Result<u64, DecodeError>)
    requires
        old(r).wf(),
    ensures
        final(r).wf(),
        (res, final(r)@) == take_sized(old(r)@),
{
    let w: u64 = r.read(7)?;
    if w > 64 {
        return Err(DecodeError::Corrupt("field width above 64"));
    }
    r.read(w as u32)
}

/// Reading `n` bits gives back the low `n` bits of the number that was written.
pub proof fn low_bits_read_back(v: u64, n: nat, rest: Seq<bool>)
    requires
        n <= 64,
    ensures
        take_bits(bitseq::bits_of(v as nat, n) + rest, n) == (
            Ok::<u64, DecodeError>((v as nat % pow2(n)) as u64),
            rest,
        ),
        v as nat % pow2(n) <= v,
{
    let s = bitseq::bits_of(v as nat, n) + rest;
    bitseq::lemma_bits_of_len(v as nat, n);
    assert(s.take(n as int) =~= bitseq::bits_of(v as nat, n));
    assert(s.skip(n as int) =~= rest);
    bitseq::lemma_value_of_bits_of(v as nat, n);
    lemma_pow2_pos(n);
    lemma_mod_decreases(v as nat, pow2(n));
}

/// Reading `n` bits gives back a number that was written in `n` bits.
pub proof fn bits_read_back(v: u64, n: nat, rest: Seq<bool>)
    requires
        n <= 64,
        v < pow2(n),
    ensures
        take_bits(bitseq::bits_of(v as nat, n) + rest, n) == (Ok::<u64, DecodeError>(v), rest),
{
    low_bits_read_back(v, n, rest);
    lemma_small_mod(v as nat, pow2(n));
}

/// Reading one bit gives back the bit that was written.
pub proof fn bit_reads_back(b: bool, rest: Seq<bool>)
    ensures
        take_bit(seq![b] + rest) == (Ok::<bool, DecodeError>(b), rest),
{
    assert((seq![b] + rest).skip(1) =~= rest);
}

/// A sized field reads back as the number it was written for.
pub proof fn sized_reads_back(v: u64, rest: Seq<bool>)
    ensures
        take_sized(sized(v) + rest) == (Ok::<u64, DecodeError>(v), rest),
{
    let w = bitseq::bit_length(v as nat);
    words::lemma_pow2_values();
    bitseq::lemma_bit_length_bound(v as nat, 64);
    bitseq::lemma_bit_length(v as nat);
    let body = bitseq::bits_of(v as nat, w);
    assert(sized(v) + rest =~= bitseq::bits_of(w, 7) + (body + rest));
    bits_read_back(w as u64, 7, body + rest);
    bits_read_back(v, w, rest);
}

/// The bits of a list of fields, each a value and its width.
pub open spec fn fields_bits(fields: Seq<(u64, u32)>) -> Seq<bool>
    decreases fields.len(),
{
    if fields.len() == 0 {
        Seq::empty()
    } else {
        bitseq::bits_of(fields[0].0 as nat, fields[0].1 as nat) + fields_bits(fields.skip(1))
    }
}

/// What reading fields of the given widths one after the other gives, up to
/// the first failure.
pub open spec fn take_fields(s: Seq<bool>, widths: Seq<u32>) -> (
    Result<Seq<u64>, DecodeError>,
    Seq<bool>,
)
    decreases widths.len(),
{
    if widths.len() == 0 {
        (Ok(Seq::empty()), s)
    } else {
        match take_bits(s, widths[0] as nat) {
            (Err(e), rest) => (Err(e), rest),
            (Ok(v), rest) => match take_fields(rest, widths.skip(1)) {
                (Err(e), rest) => (Err(e), rest),
                (Ok(vs), rest) => (Ok(seq![v] + vs), rest),
            },
        }
    }
}

/// The low bits of a field's value, as many as it is wide.
pub open spec fn field_value(f: (u64, u32)) -> u64 {
    (f.0 as nat % pow2(f.1 as nat)) as u64
}

/// A reader that asks for the widths that were written gets the values back,
/// whatever the mix of widths: of each value the bits that fit in its field.
pub proof fn fields_read_back(fields: Seq<(u64, u32)>, rest: Seq<bool>)
    requires
        forall|i: int| 0 <= i < fields.len() ==> #[trigger] fields[i].1 <= 64,
    ensures
        take_fields(
            fields_bits(fields) + rest,
            fields.map_values(|f: (u64, u32)| f.1),
        ) == (
            Ok::<Seq<u64>, DecodeError>(fields.map_values(|f: (u64, u32)| field_value(f))),
            rest,
        ),
    decreases fields.len(),
{
    let widths = fields.map_values(|f: (u64, u32)| f.1);
    let values = fields.map_values(|f: (u64, u32)| field_value(f));
    if fields.len() == 0 {
        assert(fields_bits(fields) + rest =~= rest);
        assert(values =~= Seq::empty());
    } else {
        let more = fields.skip(1);
        let tail = fields_bits(more) + rest;
        assert(fields[0].1 <= 64);
        assert(fields_bits(fields) + rest =~= bitseq::bits_of(
            fields[0].0 as nat,
            fields[0].1 as nat,
        ) + tail);
        low_bits_read_back(fields[0].0, fields[0].1 as nat, tail);
        assert forall|i: int| 0 <= i < more.len() implies #[trigger] more[i].1 <= 64 by {
            assert(more[i] == fields[i + 1]);
        }
        fields_read_back(more, rest);
        assert(widths.skip(1) =~= more.map_values(|f: (u64, u32)| f.1));
        assert(values =~= seq![field_value(fields[0])] + more.map_values(
            |f: (u64, u32)| field_value(f),
        ));
    }
}

proof fn lemma_varint_reads_back(v: nat, i: nat, rest: Seq<u8>)
    requires
        i < 10,
        v < pow2((64 - 7 * i) as nat),
    ensures
        take_varint_from(varint(v) + rest, i) == (Ok::<nat, DecodeError>(v), varint(v).len()),
    decreases v,
{
    let s = varint(v) + rest;
    words::lemma_pow2_values();
    if v < 128 {
        assert(s[0] == v);
    } else {
        if i == 9 {
            assert(false);
        }
        lemma_pow2_adds((57 - 7 * i) as nat, 7);
        assert(s.skip(1) =~= varint(v / 128) + rest);
        lemma_varint_reads_back(v / 128, i + 1, rest);
    }
}

/// A varint reads back as the number it was written for, and exactly its own
/// bytes are used.
pub proof fn varint_reads_back(v: u64, rest: Seq<u8>)
    ensures
        take_varint(varint(v as nat) + rest) == (
            Ok::<u64, DecodeError>(v),
            varint(v as nat).len(),
        ),
{
    words::lemma_pow2_values();
    lemma_varint_reads_back(v as nat, 0, rest);
}

proof fn lemma_take_varint_count(s: Seq<u8>, i: nat)
    requires
        i <= 10,
    ensures
        take_varint_from(s, i).1 <= 10 - i,
        take_varint_from(s, i).0 is Ok ==> 1 <= take_varint_from(s, i).1 <= s.len(),
    decreases 10 - i,
{
    if i < 10 && s.len() > 0 {
        lemma_take_varint_count(s.skip(1), i + 1);
    }
}

proof fn lemma_varint_cut(v: nat, i: nat, k: int)
    requires
        i < 10,
        v < pow2((64 - 7 * i) as nat),
        0 <= k < varint(v).len(),
    ensures
        take_varint_from(varint(v).take(k), i).0 == Err::<nat, DecodeError>(
            DecodeError::UnexpectedEof,
        ),
    decreases v,
{
    words::lemma_pow2_values();
    let s = varint(v).take(k);
    if k > 0 {
        if i == 9 {
            assert(false);
        }
        lemma_pow2_adds((57 - 7 * i) as nat, 7);
        assert(s.skip(1) =~= varint(v / 128).take(k - 1));
        lemma_varint_cut(v / 128, i + 1, k - 1);
    }
}

/// A varint cut short is reported as the end of the input.
pub proof fn cut_varint_is_an_error(v: u64, k: int)
    requires
        0 <= k < varint(v as nat).len(),
    ensures
        take_varint(varint(v as nat).take(k)).0 == Err::<u64, DecodeError>(
            DecodeError::UnexpectedEof,
        ),
{
    words::lemma_pow2_values();
    lemma_varint_cut(v as nat, 0, k);
}

proof fn lemma_take_varint_extend(s: Seq<u8>, t: Seq<u8>, i: nat)
    requires
        !at_end(take_varint_from(s, i).0),
    ensures
        take_varint_from(s + t, i) == take_varint_from(s, i),
    decreases 10 - i,
{
    if i < 10 {
        assert((s + t)[0] == s[0]);
        if s[0] >= 128 && !(i == 9 && s[0] % 128 > 1) {
            assert((s + t).skip(1) =~= s.skip(1) + t);
            lemma_take_varint_extend(s.skip(1), t, i + 1);
        }
    }
}

/// Reading a varint never goes past the end.
pub proof fn lemma_take_varint_used(s: Seq<u8>)
    ensures
        take_varint(s).1 <= s.len(),
{
    lemma_take_varint_bounds(s, 0);
}

/// Bytes after a varint do not change what is read.
pub proof fn lemma_varint_prefix(s: Seq<u8>, t: Seq<u8>)
    requires
        !at_end(take_varint(s).0),
    ensures
        take_varint(s + t) == take_varint(s),
        take_varint(s).0 is Ok ==> 1 <= take_varint(s).1 <= s.len(),
{
    lemma_take_varint_extend(s, t, 0);
    lemma_take_varint_count(s, 0);
}

/// Bits after those that are read do not change what is read.
pub proof fn lemma_bits_prefix(s: Seq<bool>, t: Seq<bool>, n: nat)
    requires
        take_bits(s, n).0 is Ok,
    ensures
        take_bits(s + t, n) == (take_bits(s, n).0, take_bits(s, n).1 + t),
{
    assert((s + t).take(n as int) =~= s.take(n as int));
    assert((s + t).skip(n as int) =~= s.skip(n as int) + t);
}

pub proof fn lemma_bit_prefix(s: Seq<bool>, t: Seq<bool>)
    requires
        take_bit(s).0 is Ok,
    ensures
        take_bit(s + t) == (take_bit(s).0, take_bit(s).1 + t),
{
    assert((s + t).skip(1) =~= s.skip(1) + t);
}

pub proof fn lemma_sized_prefix(s: Seq<bool>, t: Seq<bool>)
    requires
        !at_end(take_sized(s).0),
    ensures
        take_sized(s + t) == (take_sized(s).0, take_sized(s).1 + t),
{
    lemma_bits_prefix(s, t, 7);
    let (w, rest) = take_bits(s, 7);
    if w->Ok_0 <= 64 {
        lemma_bits_prefix(rest, t, w->Ok_0 as nat);
    }
}

} // verus!
