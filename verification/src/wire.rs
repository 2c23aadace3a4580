//! Where each field stands in the encoded bits, told bit by bit and number by
//! number.

use crate::bits;
use crate::bitseq;
use crate::float;
use crate::gorilla;
use crate::gorilla::{DodModel, XorModel};
use crate::words;
use crate::DecodeError;
use vstd::arithmetic::div_mod::*;
use vstd::arithmetic::mul::*;
use vstd::arithmetic::power2::*;
use vstd::prelude::*;

verus! {

/// A field of `n` bits holds the low `n` binary digits of its number, the most
/// significant first: the bit `i` tells of `2^(n - 1 - i)`.
pub proof fn fields_are_most_significant_first(v: nat, n: nat, i: int)
    requires
        0 <= i < n,
    ensures
        bitseq::bits_of(v, n).len() == n,
        bitseq::bits_of(v, n)[i] == ((v / pow2((n - 1 - i) as nat)) % 2 == 1),
    decreases n,
{
    bitseq::lemma_bits_of_len(v, n);
    bitseq::lemma_bits_of_len(v / 2, (n - 1) as nat);
    if i == n - 1 {
        lemma2_to64();
        lemma_div_basics(v as int);
    } else {
        let k = (n - 2 - i) as nat;
        fields_are_most_significant_first(v / 2, (n - 1) as nat, i);
        lemma_pow2_unfold((k + 1) as nat);
        lemma_pow2_pos(k);
        lemma_div_denominator(v as int, 2, pow2(k) as int);
    }
}

/// A field that is wide enough holds its number: reading its bits in binary
/// gives it back.
proof fn lemma_field(v: nat, n: nat)
    requires
        v < pow2(n),
    ensures
        bitseq::bits_of(v, n).len() == n,
        bitseq::value_of(bitseq::bits_of(v, n)) == v,
{
    bitseq::lemma_bits_of_len(v, n);
    bitseq::lemma_value_of_bits_of(v, n);
    lemma_small_mod(v, pow2(n));
}

/// Eight bits go into each byte in their order, and zero bits fill up the last.
pub proof fn bytes_hold_eight_bits_each(s: Seq<bool>, j: int)
    requires
        0 <= j < 8 * bitseq::pack(s).len(),
    ensures
        8 * bitseq::pack(s).len() < s.len() + 8,
        8 * bitseq::pack(s).len() >= s.len(),
        ((bitseq::pack(s)[j / 8] as nat / pow2((7 - j % 8) as nat)) % 2 == 1) == (j < s.len()
            && s[j]),
{
    let b = bitseq::pack(s);
    let i = j / 8;
    bitseq::lemma_byte_bits_pack(s);
    bitseq::lemma_byte_bits_subrange(b, i, i + 1);
    let one = b.subrange(i, i + 1);
    bitseq::lemma_byte_bits_len(one);
    bitseq::lemma_byte_bits_push(Seq::empty(), b[i]);
    assert(one =~= Seq::<u8>::empty().push(b[i]));
    let field = bitseq::bits_of(b[i] as nat, 8);
    assert(bitseq::byte_bits(one) =~= field);
    fields_are_most_significant_first(b[i] as nat, 8, j % 8);
    assert(field[j % 8] == bitseq::padded(s)[j]);
}

/// A window takes in a XOR exactly if the XOR is zero outside it.
proof fn lemma_fits(d: u64, l: u32, t: u32)
    requires
        d != 0,
        l <= 31,
        t < 64,
    ensures
        gorilla::fits_window(d, Some((l, t))) <==> d < pow2((64 - l) as nat) && d as nat % pow2(
            t as nat,
        ) == 0,
{
    let n = d as nat;
    let bl = bitseq::bit_length(n);
    let tz = bitseq::trailing_zeros(n);
    gorilla::lemma_xor_window(d);
    bitseq::lemma_bit_length(n);
    if d < pow2((64 - l) as nat) {
        bitseq::lemma_bit_length_bound(n, (64 - l) as nat);
    } else if bl <= 64 - l {
        words::lemma_pow2_le(bl, (64 - l) as nat);
    }
    bitseq::lemma_trailing_zeros(n);
    if tz >= t {
        bitseq::lemma_multiple_of_smaller_power(n, t as nat, tz);
    } else if n % pow2(t as nat) == 0 {
        bitseq::lemma_multiple_of_smaller_power(n, tz + 1, t as nat);
        lemma_half_is_even(n, tz);
    }
}

/// A multiple of `2^(k + 1)` is an even multiple of `2^k`.
proof fn lemma_half_is_even(n: nat, k: nat)
    requires
        n % pow2(k + 1) == 0,
    ensures
        (n / pow2(k)) % 2 == 0,
{
    let p = pow2(k) as int;
    lemma_pow2_pos(k);
    lemma_pow2_unfold(k + 1);
    lemma_fundamental_div_mod(n as int, 2 * p);
    let h = n as int / (2 * p);
    assert(n == p * (2 * h) + 0) by (nonlinear_arith)
        requires
            n == (2 * p) * h,
    ;
    lemma_fundamental_div_mod_converse(n as int, p, 2 * h, 0);
}

/// The zeros at the low end are known by what divides the number.
proof fn lemma_trailing_zeros_unique(n: nat, t: nat)
    requires
        n > 0,
        n % pow2(t) == 0,
        (n / pow2(t)) % 2 == 1,
    ensures
        bitseq::trailing_zeros(n) == t,
{
    let tz = bitseq::trailing_zeros(n);
    bitseq::lemma_trailing_zeros(n);
    if t < tz {
        bitseq::lemma_trailing_zeros_below(n, t);
    } else if tz < t {
        bitseq::lemma_multiple_of_smaller_power(n, tz + 1, t);
        lemma_half_is_even(n, tz);
    }
}

/// A number that is zero outside a window fits in the window's bits.
proof fn lemma_inside(d: u64, l: nat, t: nat)
    requires
        l + t < 64,
        d < pow2((64 - l) as nat),
        d as nat % pow2(t) == 0,
    ensures
        d as nat / pow2(t) < pow2((64 - l - t) as nat),
        (d as nat / pow2(t)) * pow2(t) == d,
{
    let len = (64 - l - t) as nat;
    let (p, q) = (pow2(t) as int, pow2(len) as int);
    lemma_pow2_pos(t);
    lemma_pow2_adds(t, len);
    lemma_fundamental_div_mod(d as int, p);
    let h = d as int / p;
    assert(h < q) by (nonlinear_arith)
        requires
            p * h < p * q,
            p > 0,
    ;
    lemma_mul_is_commutative(p, h);
}

/// The first value is written in 64 bits, as it is.
pub proof fn first_value_is_written_whole(st: XorModel, x: u64)
    requires
        !st.started,
    ensures
        gorilla::xor_code(st, x).len() == 64,
        bitseq::value_of(gorilla::xor_code(st, x)) == x,
        gorilla::xor_next(st, x) == (XorModel { started: true, prev: x, window: st.window }),
{
    words::lemma_pow2_values();
    lemma_field(x as nat, 64);
}

/// A value that is the same as the one before it is a single zero bit and
/// changes nothing.
pub proof fn repeated_value_is_one_bit(st: XorModel)
    requires
        st.started,
    ensures
        gorilla::xor_code(st, st.prev) == seq![false],
        gorilla::xor_next(st, st.prev) == st,
{
    reveal_with_fuel(bitseq::bits_of, 2);
    assert(gorilla::xor_code(st, st.prev) =~= seq![false]);
}

/// A value whose XOR with the one before it is zero outside the window, its `l`
/// high bits and its `t` low bits, is written as `10` and the bits of the XOR
/// inside the window, and the window stays. So it is for every window.
pub proof fn window_is_used_again(st: XorModel, x: u64, l: u32, t: u32)
    requires
        st.started,
        x != st.prev,
        st.window == Some((l, t)),
        l <= 31,
        l + t < 64,
        (x ^ st.prev) < pow2((64 - l) as nat),
        (x ^ st.prev) as nat % pow2(t as nat) == 0,
    ensures
        ({
            let code = gorilla::xor_code(st, x);
            &&& code.len() == 2 + (64 - l - t)
            &&& code[0] && !code[1]
            &&& bitseq::value_of(code.skip(2)) * pow2(t as nat) == x ^ st.prev
            &&& gorilla::xor_next(st, x) == (XorModel {
                started: true,
                prev: x,
                window: Some((l, t)),
            })
        }),
{
    let d = x ^ st.prev;
    let len = (64 - l - t) as nat;
    let field = bitseq::bits_of(d as nat / pow2(t as nat), len);
    gorilla::lemma_xor_zero(x, st.prev);
    lemma_fits(d, l, t);
    lemma_inside(d, l as nat, t as nat);
    lemma_field(d as nat / pow2(t as nat), len);
    lemma_two_bits();
    assert(gorilla::xor_code(st, x).skip(2) =~= field);
}

/// A value whose XOR with the one before it does not lie inside the window is
/// written as `11`, the XOR's leading zeros in 5 bits (31 where there are more),
/// the length that is left between its leading and trailing zeros in 6 bits (64
/// as 0), and the XOR's bits between them, which become the window.
pub proof fn new_window_is_the_tightest(st: XorModel, x: u64, l: u32, t: u32)
    requires
        st.started,
        x != st.prev,
        st.window matches Some((a, b)) ==> a <= 31 && b < 64 && ((x ^ st.prev) >= pow2(
            (64 - a) as nat,
        ) || (x ^ st.prev) as nat % pow2(b as nat) != 0),
        l <= 31,
        (x ^ st.prev) < pow2((64 - l) as nat),
        l < 31 ==> (x ^ st.prev) >= pow2((63 - l) as nat),
        t < 64,
        (x ^ st.prev) as nat % pow2(t as nat) == 0,
        ((x ^ st.prev) as nat / pow2(t as nat)) % 2 == 1,
    ensures
        l + t < 64,
        ({
            let code = gorilla::xor_code(st, x);
            let len = 64 - l - t;
            &&& code.len() == 13 + len
            &&& code[0] && code[1]
            &&& bitseq::value_of(code.subrange(2, 7)) == l
            &&& bitseq::value_of(code.subrange(7, 13)) == if len == 64 {
                0
            } else {
                len
            }
            &&& bitseq::value_of(code.skip(13)) * pow2(t as nat) == x ^ st.prev
            &&& gorilla::xor_next(st, x) == (XorModel {
                started: true,
                prev: x,
                window: Some((l, t)),
            })
        }),
{
    let d = x ^ st.prev;
    gorilla::lemma_xor_zero(x, st.prev);
    gorilla::lemma_xor_window(d);
    lemma_trailing_zeros_unique(d as nat, t as nat);
    bitseq::lemma_bit_length(d as nat);
    bitseq::lemma_bit_length_bound(d as nat, (64 - l) as nat);
    let bl = bitseq::bit_length(d as nat);
    if l < 31 && bl < 64 - l {
        words::lemma_pow2_le(bl, (63 - l) as nat);
    }
    assert(gorilla::xor_leading(d) == l);
    if let Some((a, b)) = st.window {
        lemma_fits(d, a, b);
    }
    let len = (64 - l - t) as nat;
    let code = gorilla::xor_code(st, x);
    words::lemma_pow2_values();
    lemma_inside(d, l as nat, t as nat);
    lemma_two_bits();
    lemma_field(l as nat, 5);
    lemma_field(len % 64, 6);
    lemma_field(d as nat / pow2(t as nat), len);
    assert(code.subrange(2, 7) =~= bitseq::bits_of(l as nat, 5));
    assert(code.subrange(7, 13) =~= bitseq::bits_of(len % 64, 6));
    assert(code.skip(13) =~= bitseq::bits_of(d as nat / pow2(t as nat), len));
}

proof fn lemma_two_bits()
    ensures
        bitseq::bits_of(0, 2) == seq![false, false],
        bitseq::bits_of(1, 2) == seq![false, true],
        bitseq::bits_of(2, 2) == seq![true, false],
        bitseq::bits_of(3, 2) == seq![true, true],
{
    reveal_with_fuel(bitseq::bits_of, 3);
    assert(bitseq::bits_of(0, 2) =~= seq![false, false]);
    assert(bitseq::bits_of(1, 2) =~= seq![false, true]);
    assert(bitseq::bits_of(2, 2) =~= seq![true, false]);
    assert(bitseq::bits_of(3, 2) =~= seq![true, true]);
}

/// The bits of a list of values are those of the first values and then those
/// of the last, from the state that the values before it leave.
pub proof fn values_are_written_one_by_one(st: XorModel, values: Seq<u64>, x: u64)
    ensures
        gorilla::xor_codes(st, Seq::empty()) == Seq::<bool>::empty(),
        gorilla::xor_after(st, Seq::empty()) == st,
        gorilla::xor_codes(st, values.push(x)) == gorilla::xor_codes(st, values)
            + gorilla::xor_code(gorilla::xor_after(st, values), x),
        gorilla::xor_after(st, values.push(x)) == gorilla::xor_next(
            gorilla::xor_after(st, values),
            x,
        ),
        gorilla::xor_after(st, values.push(x)).prev == x,
        gorilla::xor_after(st, values.push(x)).started,
{
    gorilla::lemma_xor_codes_push(st, values, x);
}

/// A reader sees the bits of each byte from the most significant one on.
pub proof fn bytes_are_read_most_significant_first(bytes: Seq<u8>, j: int)
    requires
        0 <= j < 8 * bytes.len(),
    ensures
        bitseq::byte_bits(bytes).len() == 8 * bytes.len(),
        bitseq::byte_bits(bytes)[j] == ((bytes[j / 8] as nat / pow2((7 - j % 8) as nat)) % 2 == 1),
{
    let i = j / 8;
    let one = bytes.subrange(i, i + 1);
    bitseq::lemma_byte_bits_len(bytes);
    bitseq::lemma_byte_bits_subrange(bytes, i, i + 1);
    bitseq::lemma_byte_bits_push(Seq::empty(), bytes[i]);
    assert(one =~= Seq::<u8>::empty().push(bytes[i]));
    assert(bitseq::byte_bits(one) =~= bitseq::bits_of(bytes[i] as nat, 8));
    fields_are_most_significant_first(bytes[i] as nat, 8, j % 8);
    assert(bitseq::byte_bits(one)[j % 8] == bitseq::byte_bits(bytes)[j]);
}

/// What is read is the number that the bits in front write in binary, and the
/// bits behind them are left.
pub proof fn bits_are_read_in_their_order(field: Seq<bool>, b: bool, rest: Seq<bool>)
    requires
        field.len() <= 64,
    ensures
        bits::take_bits(field + rest, field.len()) == (
            Ok::<u64, DecodeError>(bitseq::value_of(field) as u64),
            rest,
        ),
        bitseq::value_of(field) <= u64::MAX,
        bitseq::bits_of(bitseq::value_of(field), field.len()) == field,
        bits::take_bit(seq![b] + rest) == (Ok::<bool, DecodeError>(b), rest),
{
    assert((field + rest).take(field.len() as int) =~= field);
    assert((field + rest).skip(field.len() as int) =~= rest);
    assert((seq![b] + rest).skip(1) =~= rest);
    bitseq::lemma_value_of_bound(field);
    bitseq::lemma_bits_of_value_of(field);
    words::lemma_pow2_le(field.len(), 64);
    words::lemma_pow2_values();
}

/// Where there are fewer bits than are asked for, or more than 64 are asked for,
/// reading fails at the end of the input and takes nothing.
pub proof fn too_few_bits_are_an_error(s: Seq<bool>, n: nat)
    requires
        n > s.len() || n > 64,
    ensures
        bits::take_bits(s, n) == (Err::<u64, DecodeError>(DecodeError::UnexpectedEof), s),
        s.len() == 0 ==> bits::take_bit(s) == (
            Err::<bool, DecodeError>(DecodeError::UnexpectedEof),
            s,
        ),
{
}

/// Zigzag counts outwards from zero: a number that is not negative becomes its
/// double, and one below zero the odd number before the double of its distance
/// from zero.
pub proof fn zigzag_counts_outwards(v: i64)
    ensures
        v >= 0 ==> bits::zigzag_of(v) == v + v,
        v < 0 ==> bits::zigzag_of(v) + 1 == -v - v,
        v >= 0 ==> bits::unzigzag_of((v + v) as u64) == v,
        v < 0 ==> bits::unzigzag_of((-v - v - 1) as u64) == v,
{
}

/// A varint gives the low seven binary digits first: below 128 a number is one
/// byte, and with more in front of the digits it is their byte plus 128, and then
/// the varint of what is in front.
pub proof fn varints_give_seven_digits_a_byte(high: nat, low: nat)
    requires
        low < 128,
    ensures
        bits::varint(low) == seq![low as u8],
        high > 0 ==> bits::varint(128 * high + low) == seq![(128 + low) as u8] + bits::varint(
            high,
        ),
{
    lemma_fundamental_div_mod_converse((128 * high + low) as int, 128, high as int, low as int);
}

/// The number that bytes of a varint stand for: seven binary digits of each, the
/// lowest in front.
pub open spec fn seven_bit_digits(s: Seq<u8>) -> nat
    decreases s.len(),
{
    if s.len() == 0 {
        0
    } else {
        (s[0] % 128) as nat + 128 * seven_bit_digits(s.skip(1))
    }
}

/// The bytes `s` are the whole of a varint: each but the last goes on.
pub open spec fn is_varint(s: Seq<u8>) -> bool {
    &&& s.len() > 0
    &&& s.last() < 128
    &&& forall|i: int| 0 <= i < s.len() - 1 ==> #[trigger] s[i] >= 128
}

/// `2^(7 * n)`.
proof fn lemma_sevens(n: nat)
    ensures
        pow2(7 * (n + 1)) == 128 * pow2(7 * n),
{
    words::lemma_pow2_values();
    lemma_pow2_adds(7, 7 * n);
}

proof fn lemma_varint_from(s: Seq<u8>, rest: Seq<u8>, i: nat)
    requires
        is_varint(s),
        s.len() + i <= 10,
    ensures
        s.len() + i < 10 || s.last() <= 1 ==> bits::take_varint_from(s + rest, i) == (
            Ok::<nat, DecodeError>(seven_bit_digits(s)),
            s.len(),
        ),
        s.len() + i == 10 && s.last() > 1 ==> bits::take_varint_from(s + rest, i) == (
            Err::<nat, DecodeError>(DecodeError::Corrupt("varint overflows u64")),
            s.len(),
        ),
    decreases s.len(),
{
    assert((s + rest)[0] == s[0]);
    if s.len() == 1 {
        assert(seven_bit_digits(s.skip(1)) == 0);
    } else {
        assert(s[0] >= 128);
        let more = s.skip(1);
        assert forall|j: int| 0 <= j < more.len() - 1 implies #[trigger] more[j] >= 128 by {
            assert(more[j] == s[j + 1]);
        }
        assert((s + rest).skip(1) =~= more + rest);
        lemma_varint_from(more, rest, i + 1);
    }
}

proof fn lemma_digits_bound(s: Seq<u8>)
    ensures
        seven_bit_digits(s) < pow2(7 * s.len()),
        s.len() > 0 ==> seven_bit_digits(s) >= (s.last() % 128) * pow2((7 * (s.len() - 1)) as nat),
        s.len() > 0 ==> seven_bit_digits(s) < (s.last() % 128 + 1) * pow2(
            (7 * (s.len() - 1)) as nat,
        ),
    decreases s.len(),
{
    words::lemma_pow2_values();
    if s.len() > 0 {
        let more = s.skip(1);
        lemma_digits_bound(more);
        lemma_sevens((s.len() - 1) as nat);
        if s.len() > 1 {
            assert(more.last() == s.last());
            lemma_sevens((s.len() - 2) as nat);
            let (x, p) = ((s.last() % 128) as int, pow2((7 * (s.len() - 2)) as nat) as int);
            assert(x * (128 * p) == 128 * (x * p)) by (nonlinear_arith);
            assert((x + 1) * (128 * p) == 128 * ((x + 1) * p)) by (nonlinear_arith);
        } else {
            lemma_mul_basics((s.last() % 128) as int);
            lemma_mul_basics((s.last() % 128 + 1) as int);
            assert(seven_bit_digits(more) == 0);
        }
    }
}

/// The decoder takes every varint of up to ten bytes whose number fits in 64
/// bits, a needlessly long one too, and leaves what follows it.
pub proof fn varints_are_read_digit_by_digit(s: Seq<u8>, rest: Seq<u8>)
    requires
        is_varint(s),
        s.len() <= 10,
    ensures
        seven_bit_digits(s) <= u64::MAX ==> bits::take_varint(s + rest) == (
            Ok::<u64, DecodeError>(seven_bit_digits(s) as u64),
            s.len(),
        ),
        seven_bit_digits(s) > u64::MAX ==> bits::take_varint(s + rest) == (
            Err::<u64, DecodeError>(DecodeError::Corrupt("varint overflows u64")),
            10nat,
        ),
{
    lemma_varint_from(s, rest, 0);
    lemma_digits_bound(s);
    words::lemma_pow2_values();
    if s.len() < 10 {
        words::lemma_pow2_le(7 * s.len(), 63);
        words::lemma_pow2_le(63, 64);
    } else {
        let x = s.last() as int;
        let p = pow2(63) as int;
        lemma_pow2_unfold(64);
        assert(x > 1 ==> x * p >= 2 * p) by (nonlinear_arith)
            requires
                p > 0,
        ;
        assert(x <= 1 ==> (x + 1) * p <= 2 * p) by (nonlinear_arith)
            requires
                p > 0,
        ;
    }
}

proof fn lemma_endless_from(s: Seq<u8>, rest: Seq<u8>, i: nat)
    requires
        s.len() + i <= 10,
        forall|j: int| 0 <= j < s.len() ==> #[trigger] s[j] >= 128,
    ensures
        s.len() + i < 10 ==> bits::take_varint_from(s, i) == (
            Err::<nat, DecodeError>(DecodeError::UnexpectedEof),
            s.len(),
        ),
        s.len() + i == 10 && i < 10 ==> bits::take_varint_from(s + rest, i) == (
            Err::<nat, DecodeError>(
                if s.last() > 129 {
                    DecodeError::Corrupt("varint overflows u64")
                } else {
                    DecodeError::Corrupt("varint longer than 10 bytes")
                },
            ),
            s.len(),
        ),
    decreases s.len(),
{
    reveal_with_fuel(bits::take_varint_from, 2);
    if s.len() > 0 {
        let more = s.skip(1);
        assert(s[0] >= 128);
        assert((s + rest)[0] == s[0]);
        assert((s + rest).skip(1) =~= more + rest);
        assert forall|j: int| 0 <= j < more.len() implies #[trigger] more[j] >= 128 by {
            assert(more[j] == s[j + 1]);
        }
        lemma_endless_from(more, rest, i + 1);
        if s.len() > 1 {
            assert(more.last() == s.last());
        }
    }
}

/// Bytes that all go on are no varint: with fewer than ten the input has ended,
/// and the tenth is one too many, or already too large.
pub proof fn endless_varints_are_an_error(s: Seq<u8>, rest: Seq<u8>)
    requires
        s.len() <= 10,
        forall|j: int| 0 <= j < s.len() ==> #[trigger] s[j] >= 128,
    ensures
        s.len() < 10 ==> bits::take_varint(s) == (
            Err::<u64, DecodeError>(DecodeError::UnexpectedEof),
            s.len(),
        ),
        s.len() == 10 ==> bits::take_varint(s + rest) == (
            Err::<u64, DecodeError>(
                if s.last() > 129 {
                    DecodeError::Corrupt("varint overflows u64")
                } else {
                    DecodeError::Corrupt("varint longer than 10 bytes")
                },
            ),
            10nat,
        ),
{
    lemma_endless_from(s, rest, 0);
}

/// Reading starts at the position given, and past the end there is nothing.
pub proof fn reading_starts_at_the_position(data: Seq<u8>, pos: int)
    requires
        0 <= pos,
    ensures
        pos <= data.len() ==> bits::bytes_from(data, pos) == data.skip(pos),
        pos >= data.len() ==> bits::bytes_from(data, pos) == Seq::<u8>::empty(),
{
    if pos == data.len() {
        assert(data.skip(pos) =~= Seq::empty());
    }
}

/// A sized field is the least width that holds its number, in 7 bits, and then
/// the number in as many bits.
pub proof fn sized_fields_have_the_least_width(v: u64, w: nat)
    requires
        v < pow2(w),
        w > 0 ==> v >= pow2((w - 1) as nat),
    ensures
        bits::sized(v).len() == 7 + w,
        bitseq::value_of(bits::sized(v).take(7)) == w,
        bitseq::value_of(bits::sized(v).skip(7)) == v,
{
    words::lemma_pow2_values();
    if w > 0 {
        float::lemma_bit_length_unique(v as nat, w);
    }
    bitseq::lemma_bit_length_bound(v as nat, 64);
    lemma_field(w, 7);
    lemma_field(v as nat, w);
    assert(bits::sized(v).take(7) =~= bitseq::bits_of(w, 7));
    assert(bits::sized(v).skip(7) =~= bitseq::bits_of(v as nat, w));
}

/// The decoder takes a sized field of any width up to 64, the least or not, and
/// refuses a wider one.
pub proof fn sized_fields_are_read_at_any_width(width: Seq<bool>, field: Seq<bool>, rest: Seq<bool>)
    requires
        width.len() == 7,
    ensures
        bitseq::value_of(width) <= 64 && field.len() == bitseq::value_of(width)
            ==> bits::take_sized(width + field + rest) == (
            Ok::<u64, DecodeError>(bitseq::value_of(field) as u64),
            rest,
        ),
        bitseq::value_of(width) <= 64 && field.len() < bitseq::value_of(width)
            ==> bits::take_sized(width + field) == (
            Err::<u64, DecodeError>(DecodeError::UnexpectedEof),
            field,
        ),
        bitseq::value_of(width) > 64 ==> bits::take_sized(width + rest) == (
            Err::<u64, DecodeError>(DecodeError::Corrupt("field width above 64")),
            rest,
        ),
{
    if bitseq::value_of(width) > 64 {
        bits_are_read_in_their_order(width, true, rest);
    } else if field.len() < bitseq::value_of(width) {
        bits_are_read_in_their_order(width, true, field);
    } else if field.len() == bitseq::value_of(width) {
        assert(width + field + rest =~= width + (field + rest));
        bits_are_read_in_their_order(width, true, field + rest);
        bits_are_read_in_their_order(field, true, rest);
    }
}

/// A sized field that is cut off in its width is an error.
pub proof fn cut_width_is_an_error(width: Seq<bool>)
    requires
        width.len() < 7,
    ensures
        bits::take_sized(width) == (
            Err::<u64, DecodeError>(DecodeError::UnexpectedEof),
            width,
        ),
{
}

/// How the decoder reads a value from bits that any writer may have made. The
/// first is 64 bits as they are.
pub proof fn first_value_is_read_whole(st: XorModel, word: Seq<bool>, rest: Seq<bool>)
    requires
        !st.started,
        word.len() == 64,
    ensures
        gorilla::xor_take(st, word + rest) == (
            Ok::<u64, DecodeError>(bitseq::value_of(word) as u64),
            XorModel { started: true, prev: bitseq::value_of(word) as u64, window: st.window },
            rest,
        ),
        forall|k: int|
            0 <= k < 64 ==> #[trigger] gorilla::xor_take(st, word.take(k)) == (
                Err::<u64, DecodeError>(DecodeError::UnexpectedEof),
                st,
                word.take(k),
            ),
{
    bits_are_read_in_their_order(word, true, rest);
}

/// A zero bit is the value before, once more.
pub proof fn zero_bit_repeats_the_value(st: XorModel, rest: Seq<bool>)
    requires
        st.started,
    ensures
        gorilla::xor_take(st, seq![false] + rest) == (
            Ok::<u64, DecodeError>(st.prev),
            st,
            rest,
        ),
        gorilla::xor_take(st, Seq::empty()) == (
            Err::<u64, DecodeError>(DecodeError::UnexpectedEof),
            st,
            Seq::<bool>::empty(),
        ),
{
    bits_are_read_in_their_order(Seq::empty(), false, rest);
}

/// Bits that stand `t` places above the low end.
proof fn lemma_shifted(field: Seq<bool>, t: nat)
    requires
        field.len() + t <= 64,
    ensures
        bitseq::value_of(field) * pow2(t) <= u64::MAX,
{
    let n = field.len();
    bitseq::lemma_value_of_bound(field);
    lemma_pow2_adds(n, t);
    words::lemma_pow2_le(n + t, 64);
    words::lemma_pow2_values();
    lemma_pow2_pos(t);
    let (a, p, q) = (bitseq::value_of(field) as int, pow2(n) as int, pow2(t) as int);
    assert(a * q <= p * q - q) by (nonlinear_arith)
        requires
            a <= p - 1,
            q > 0,
    ;
}

proof fn lemma_xor_undone(x: u64, y: u64)
    ensures
        x ^ (x ^ y) == y,
        (x ^ y) ^ x == y,
{
    assert(x ^ (x ^ y) == y) by (bit_vector);
    assert((x ^ y) ^ x == y) by (bit_vector);
}

/// `10` and the bits of the window are the value before, changed inside the
/// window by these bits. Without a window `10` is an error.
pub proof fn window_is_read_again(
    st: XorModel,
    l: u32,
    t: u32,
    field: Seq<bool>,
    rest: Seq<bool>,
) -> (x: u64)
    requires
        st.started,
        l + t < 64,
    ensures
        x ^ st.prev == bitseq::value_of(field) * pow2(t as nat) || field.len() != 64 - l - t,
        st.window == Some((l, t)) && field.len() == 64 - l - t ==> gorilla::xor_take(
            st,
            seq![true, false] + field + rest,
        ) == (
            Ok::<u64, DecodeError>(x),
            XorModel { started: true, prev: x, window: Some((l, t)) },
            rest,
        ),
        st.window == Some((l, t)) && field.len() < 64 - l - t ==> gorilla::xor_take(
            st,
            seq![true, false] + field,
        ) == (Err::<u64, DecodeError>(DecodeError::UnexpectedEof), st, field),
        st.window is None ==> gorilla::xor_take(st, seq![true, false] + rest) == (
            Err::<u64, DecodeError>(DecodeError::Corrupt("XOR window reused before being set")),
            st,
            rest,
        ),
        gorilla::xor_take(st, seq![true]) == (
            Err::<u64, DecodeError>(DecodeError::UnexpectedEof),
            st,
            Seq::<bool>::empty(),
        ),
{
    let d = (bitseq::value_of(field) * pow2(t as nat)) as u64;
    lemma_two_flags(true, false, field + rest);
    lemma_two_flags(true, false, field);
    lemma_two_flags(true, false, rest);
    assert(seq![true].skip(1) =~= Seq::empty());
    assert(seq![true, false] + field + rest =~= seq![true, false] + (field + rest));
    if field.len() <= 64 {
        bits_are_read_in_their_order(field, true, rest);
    }
    if field.len() == 64 - l - t {
        lemma_shifted(field, t as nat);
        lemma_xor_undone(st.prev, d);
    }
    st.prev ^ d
}

proof fn lemma_two_flags(a: bool, b: bool, rest: Seq<bool>)
    ensures
        bits::take_bit(seq![a, b] + rest) == (Ok::<bool, DecodeError>(a), seq![b] + rest),
        bits::take_bit(seq![b] + rest) == (Ok::<bool, DecodeError>(b), rest),
{
    assert((seq![a, b] + rest).skip(1) =~= seq![b] + rest);
    assert((seq![b] + rest).skip(1) =~= rest);
}

/// `11`, 5 bits of leading zeros, 6 bits of length (0 for 64) and as many bits are
/// the value before, changed by these bits that far below the top, and they set
/// the window, whether or not it is the least. A window of more than 64 bits is an
/// error.
pub proof fn new_window_is_read(
    st: XorModel,
    leading: Seq<bool>,
    length: Seq<bool>,
    field: Seq<bool>,
    rest: Seq<bool>,
) -> (x: u64)
    requires
        st.started,
        leading.len() == 5,
        length.len() == 6,
    ensures
        ({
            let l = bitseq::value_of(leading);
            let n = if bitseq::value_of(length) == 0 {
                64
            } else {
                bitseq::value_of(length)
            };
            let t = 64 - l - n;
            let head = seq![true, true] + leading + length;
            &&& t < 0 ==> gorilla::xor_take(st, head + rest) == (
                Err::<u64, DecodeError>(DecodeError::Corrupt("XOR window wider than 64 bits")),
                st,
                rest,
            )
            &&& t >= 0 && field.len() == n ==> {
                &&& x ^ st.prev == bitseq::value_of(field) * pow2(t as nat)
                &&& gorilla::xor_take(st, head + field + rest) == (
                    Ok::<u64, DecodeError>(x),
                    XorModel { started: true, prev: x, window: Some((l as u32, t as u32)) },
                    rest,
                )
            }
            &&& t >= 0 && field.len() < n ==> gorilla::xor_take(st, head + field) == (
                Err::<u64, DecodeError>(DecodeError::UnexpectedEof),
                XorModel { started: true, prev: st.prev, window: Some((l as u32, t as u32)) },
                field,
            )
        }),
{
    let l = bitseq::value_of(leading);
    let n = if bitseq::value_of(length) == 0 {
        64
    } else {
        bitseq::value_of(length)
    };
    let t = 64 - l - n;
    let head = seq![true, true] + leading + length;
    let d = (bitseq::value_of(field) * pow2(t as nat)) as u64;
    if t < 0 {
        lemma_new_window_tail(st, leading, length, rest);
    } else if field.len() == n {
        assert(head + field + rest =~= head + (field + rest));
        lemma_new_window_tail(st, leading, length, field + rest);
        bits_are_read_in_their_order(field, true, rest);
        lemma_shifted(field, t as nat);
        lemma_xor_undone(st.prev, d);
    } else if field.len() < n {
        lemma_new_window_tail(st, leading, length, field);
    }
    st.prev ^ d
}

/// What is read behind the header of a window.
proof fn lemma_new_window_tail(
    st: XorModel,
    leading: Seq<bool>,
    length: Seq<bool>,
    tail: Seq<bool>,
)
    requires
        st.started,
        leading.len() == 5,
        length.len() == 6,
    ensures
        ({
            let l = bitseq::value_of(leading);
            let n = if bitseq::value_of(length) == 0 {
                64
            } else {
                bitseq::value_of(length)
            };
            let t = 64 - l - n;
            &&& l < 32
            &&& 0 < n <= 64
            &&& gorilla::xor_take(st, seq![true, true] + leading + length + tail) == if t < 0 {
                (
                    Err::<u64, DecodeError>(
                        DecodeError::Corrupt("XOR window wider than 64 bits"),
                    ),
                    st,
                    tail,
                )
            } else {
                gorilla::xor_take_window(
                    XorModel { window: Some((l as u32, t as u32)), ..st },
                    tail,
                    l,
                    t as nat,
                )
            }
        }),
{
    bitseq::lemma_value_of_bound(leading);
    bitseq::lemma_value_of_bound(length);
    words::lemma_pow2_values();
    lemma_new_window_head(st, leading, length, tail);
}

/// A window that is cut off in its leading zeros or in its length is an error.
pub proof fn cut_window_is_an_error(st: XorModel, leading: Seq<bool>, length: Seq<bool>)
    requires
        st.started,
    ensures
        leading.len() < 5 ==> gorilla::xor_take(st, seq![true, true] + leading) == (
            Err::<u64, DecodeError>(DecodeError::UnexpectedEof),
            st,
            leading,
        ),
        leading.len() == 5 && length.len() < 6 ==> gorilla::xor_take(
            st,
            seq![true, true] + leading + length,
        ) == (Err::<u64, DecodeError>(DecodeError::UnexpectedEof), st, length),
{
    let body = leading + length;
    lemma_two_flags(true, true, leading);
    assert(seq![true, true] + leading + length =~= seq![true, true] + body);
    lemma_two_flags(true, true, body);
    if leading.len() == 5 {
        bits_are_read_in_their_order(leading, true, length);
    }
}

proof fn lemma_new_window_head(
    st: XorModel,
    leading: Seq<bool>,
    length: Seq<bool>,
    tail: Seq<bool>,
)
    requires
        st.started,
        leading.len() == 5,
        length.len() == 6,
    ensures
        gorilla::xor_take(st, seq![true, true] + leading + length + tail)
            == gorilla::xor_take_new_window(st, leading + length + tail),
        bits::take_bits(leading + length + tail, 5) == (
            Ok::<u64, DecodeError>(bitseq::value_of(leading) as u64),
            length + tail,
        ),
        bits::take_bits(length + tail, 6) == (
            Ok::<u64, DecodeError>(bitseq::value_of(length) as u64),
            tail,
        ),
{
    let body = leading + length + tail;
    assert(seq![true, true] + leading + length + tail =~= seq![true, true] + body);
    lemma_two_flags(true, true, body);
    assert(body =~= leading + (length + tail));
    bits_are_read_in_their_order(leading, true, length + tail);
    bits_are_read_in_their_order(length, true, tail);
}

/// Values are read one by one: after as many as there are comes the next, from
/// the state and the bits that they leave.
pub proof fn values_are_read_one_by_one(st: XorModel, s: Seq<bool>, n: nat)
    ensures
        gorilla::xor_take_many(st, s, 0) == (Ok::<Seq<u64>, DecodeError>(Seq::empty()), st, s),
        match gorilla::xor_take_many(st, s, n) {
            (Err(e), _, _) => gorilla::xor_take_many(st, s, n + 1) == gorilla::xor_take_many(
                st,
                s,
                n,
            ),
            (Ok(v), st1, s1) => match gorilla::xor_take(st1, s1) {
                (Err(e), st2, s2) => gorilla::xor_take_many(st, s, n + 1) == (
                    Err::<Seq<u64>, DecodeError>(e),
                    st2,
                    s2,
                ),
                (Ok(x), st2, s2) => gorilla::xor_take_many(st, s, n + 1) == (
                    Ok::<Seq<u64>, DecodeError>(v.push(x)),
                    st2,
                    s2,
                ),
            },
        },
    decreases n,
{
    if n == 0 {
        reveal_with_fuel(gorilla::xor_take_many, 2);
        if let (Ok(x), st2, s2) = gorilla::xor_take(st, s) {
            assert(seq![x] + Seq::empty() =~= Seq::<u64>::empty().push(x));
        }
    } else if let (Ok(x), st1, s1) = gorilla::xor_take(st, s) {
        values_are_read_one_by_one(st1, s1, (n - 1) as nat);
        if let (Ok(v), st2, s2) = gorilla::xor_take_many(st1, s1, (n - 1) as nat) {
            if let (Ok(y), st3, s3) = gorilla::xor_take(st2, s2) {
                assert(seq![x] + v.push(y) =~= (seq![x] + v).push(y));
            }
        }
    }
}

/// A column of doubles is the varint of how many there are, and then their bits
/// from a state that knows no value, with fewer than eight zero bits behind them.
pub proof fn f64_column_is_count_and_bits(values: Seq<u64>)
    ensures
        ({
            let count = bits::varint(values.len());
            let code = gorilla::xor_codes(
                XorModel { started: false, prev: 0, window: None },
                values,
            );
            let column = gorilla::f64_column(values);
            let fill = 8 * (column.len() - count.len()) - code.len();
            &&& column.take(count.len() as int) == count
            &&& 0 <= fill < 8
            &&& bitseq::byte_bits(column.skip(count.len() as int)) == code + Seq::new(
                fill as nat,
                |i: int| false,
            )
        }),
{
    let count = bits::varint(values.len());
    let code = gorilla::xor_codes(XorModel::fresh(), values);
    let column = gorilla::f64_column(values);
    bitseq::lemma_byte_bits_pack(code);
    assert(column.take(count.len() as int) =~= count);
    assert(column.skip(count.len() as int) =~= bitseq::pack(code));
    let fill = 8 * (column.len() - count.len()) - code.len();
    assert(bitseq::padded(code) =~= code + Seq::new(fill as nat, |i: int| false));
}

/// What a column of doubles is decoded to, from whatever follows its count: as
/// many values as the count says, read from a state that knows no value.
pub proof fn f64_columns_are_read_from_the_count(data: Seq<u8>)
    ensures
        match bits::take_varint(data) {
            (Ok(n), used) => gorilla::f64_decoded(data) == gorilla::xor_take_many(
                XorModel { started: false, prev: 0, window: None },
                bitseq::byte_bits(data.skip(used as int)),
                n as nat,
            ).0,
            (Err(e), _) => gorilla::f64_decoded(data) == Err::<Seq<u64>, DecodeError>(e),
        },
{
}

/// The first timestamp is its two's complement in 64 bits, and the difference
/// before it counts as 0.
pub proof fn first_timestamp_is_written_whole(t: i64)
    ensures
        ({
            let st = DodModel { started: false, prev: 0, prev_delta: 0 };
            &&& gorilla::dod_code(st, t).len() == 64
            &&& bitseq::value_of(gorilla::dod_code(st, t)) == t as u64
            &&& gorilla::dod_next(st, t) == (DodModel { started: true, prev: t, prev_delta: 0 })
        }),
{
    words::lemma_pow2_values();
    gorilla::lemma_twos_complement(t);
    lemma_field(t as u64 as nat, 64);
}

/// A later timestamp is written by how far its distance from the one before
/// differs from the distance before, and that distance is kept for the next.
pub proof fn later_timestamps_are_written_by_their_distance(st: DodModel, t: i64, d: i64)
    requires
        st.started,
        d == t.wrapping_sub(st.prev).wrapping_sub(st.prev_delta),
    ensures
        gorilla::dod_code(st, t) == gorilla::dod_bits(d),
        gorilla::dod_next(st, t) == (DodModel {
            started: true,
            prev: t,
            prev_delta: t.wrapping_sub(st.prev),
        }),
{
}

/// The flag of a bucket: ones, and a zero behind them unless there are five.
pub open spec fn flag_of(ones: nat) -> Seq<bool> {
    Seq::new(
        if ones < 5 {
            ones + 1
        } else {
            5
        },
        |i: int| i < ones,
    )
}

/// How many bits follow the flag of a bucket.
pub open spec fn bucket_bits(ones: nat) -> nat {
    if ones == 0 {
        0
    } else if ones == 1 {
        7
    } else if ones == 2 {
        9
    } else if ones == 3 {
        12
    } else if ones == 4 {
        32
    } else {
        64
    }
}

/// The number of a bucket whose bits write `v`: offsets from the least one in the
/// first buckets, and two's complement in the last.
pub open spec fn bucket_value(ones: nat, v: nat) -> int {
    if ones == 0 {
        0
    } else if ones == 1 {
        v - 63
    } else if ones == 2 {
        v - 255
    } else if ones == 3 {
        v - 2047
    } else if ones == 4 {
        if v < 0x8000_0000 {
            v as int
        } else {
            v - 0x1_0000_0000
        }
    } else if v < 0x8000_0000_0000_0000 {
        v as int
    } else {
        v - 0x1_0000_0000_0000_0000
    }
}

/// Reading past the flag of a bucket.
proof fn lemma_flag_read(ones: nat, from: nat, tail: Seq<bool>)
    requires
        from <= ones <= 5,
    ensures
        gorilla::take_dod(flag_of(ones).skip(from as int) + tail, from) == if ones == 0 {
            (Ok::<i64, DecodeError>(0), tail)
        } else if ones == 1 {
            gorilla::take_biased(tail, 7, 63)
        } else if ones == 2 {
            gorilla::take_biased(tail, 9, 255)
        } else if ones == 3 {
            gorilla::take_biased(tail, 12, 2047)
        } else if ones == 4 {
            gorilla::take_signed(tail, 32)
        } else {
            gorilla::take_signed(tail, 64)
        },
    decreases ones - from,
{
    let s = flag_of(ones).skip(from as int) + tail;
    if from < 5 {
        assert(s[0] == (from < ones));
        if from < ones {
            assert(s.skip(1) =~= flag_of(ones).skip(from as int + 1) + tail);
            lemma_flag_read(ones, from + 1, tail);
        } else {
            assert(s.skip(1) =~= tail);
        }
    } else {
        assert(s =~= tail);
    }
}

/// How the decoder reads a later timestamp from bits that any writer may have
/// made: whichever bucket the flag names, its number is added to the last
/// difference, and the sum to the last timestamp.
pub proof fn timestamps_are_read_by_their_flag(
    st: DodModel,
    ones: nat,
    field: Seq<bool>,
    rest: Seq<bool>,
)
    requires
        st.started,
        ones <= 5,
    ensures
        field.len() == bucket_bits(ones) ==> {
            let d = bucket_value(ones, bitseq::value_of(field));
            let delta = st.prev_delta.wrapping_add(d as i64);
            let t = st.prev.wrapping_add(delta);
            &&& i64::MIN <= d <= i64::MAX
            &&& gorilla::dod_take(st, flag_of(ones) + field + rest) == (
                Ok::<i64, DecodeError>(t),
                DodModel { started: true, prev: t, prev_delta: delta },
                rest,
            )
        },
        field.len() < bucket_bits(ones) ==> gorilla::dod_take(st, flag_of(ones) + field) == (
            Err::<i64, DecodeError>(DecodeError::UnexpectedEof),
            st,
            field,
        ),
        forall|k: int|
            0 <= k < flag_of(ones).len() ==> #[trigger] gorilla::dod_take(
                st,
                flag_of(ones).take(k),
            ) == (
                Err::<i64, DecodeError>(DecodeError::UnexpectedEof),
                st,
                Seq::<bool>::empty(),
            ),
{
    words::lemma_pow2_values();
    assert(flag_of(ones).skip(0) =~= flag_of(ones));
    assert(flag_of(ones) + field + rest =~= flag_of(ones) + (field + rest));
    lemma_flag_read(ones, 0, field + rest);
    lemma_flag_read(ones, 0, field);
    bitseq::lemma_value_of_bound(field);
    if field.len() <= 64 {
        bits_are_read_in_their_order(field, true, rest);
    }
    if ones == 0 && field.len() == 0 {
        assert(field + rest =~= rest);
    }
    assert forall|k: int| 0 <= k < flag_of(ones).len() implies #[trigger] gorilla::dod_take(
        st,
        flag_of(ones).take(k),
    ) == (Err::<i64, DecodeError>(DecodeError::UnexpectedEof), st, Seq::<bool>::empty()) by {
        lemma_short_flag(k as nat, 0);
        assert(flag_of(ones).take(k) =~= Seq::new(k as nat, |i: int| true));
    }
}

/// Ones alone, fewer than five, are cut short.
proof fn lemma_short_flag(n: nat, from: nat)
    requires
        n + from < 5,
    ensures
        gorilla::take_dod(Seq::new(n, |i: int| true), from) == (
            Err::<i64, DecodeError>(DecodeError::UnexpectedEof),
            Seq::<bool>::empty(),
        ),
    decreases n,
{
    let s = Seq::new(n, |i: int| true);
    if n == 0 {
        assert(s =~= Seq::empty());
    } else {
        assert(s.skip(1) =~= Seq::new((n - 1) as nat, |i: int| true));
        lemma_short_flag((n - 1) as nat, from + 1);
    }
}

/// The first timestamp is read from 64 bits as they are.
pub proof fn first_timestamp_is_read_whole(word: Seq<bool>, rest: Seq<bool>)
    requires
        word.len() == 64,
    ensures
        ({
            let st = DodModel { started: false, prev: 0, prev_delta: 0 };
            let t = (bitseq::value_of(word) as u64) as i64;
            &&& gorilla::dod_take(st, word + rest) == (
                Ok::<i64, DecodeError>(t),
                DodModel { started: true, prev: t, prev_delta: 0 },
                rest,
            )
            &&& forall|k: int|
                0 <= k < 64 ==> #[trigger] gorilla::dod_take(st, word.take(k)) == (
                    Err::<i64, DecodeError>(DecodeError::UnexpectedEof),
                    st,
                    word.take(k),
                )
        }),
{
    words::lemma_pow2_values();
    bits_are_read_in_their_order(word, true, rest);
    words::lemma_as_i64(bitseq::value_of(word) as u64);
}

/// The bits of a list of timestamps are those of the first ones and then those of
/// the last, from the state that the ones before it leave.
pub proof fn timestamps_are_written_one_by_one(st: DodModel, ts: Seq<i64>, t: i64)
    ensures
        gorilla::dod_codes(st, Seq::empty()) == Seq::<bool>::empty(),
        gorilla::dod_after(st, Seq::empty()) == st,
        gorilla::dod_codes(st, ts.push(t)) == gorilla::dod_codes(st, ts) + gorilla::dod_code(
            gorilla::dod_after(st, ts),
            t,
        ),
        gorilla::dod_after(st, ts.push(t)) == gorilla::dod_next(gorilla::dod_after(st, ts), t),
{
    gorilla::lemma_dod_codes_push(st, ts, t);
}

/// Timestamps are read one by one: after as many as there are comes the next,
/// from the state and the bits that they leave.
pub proof fn timestamps_are_read_one_by_one(st: DodModel, s: Seq<bool>, n: nat)
    ensures
        gorilla::dod_take_many(st, s, 0) == (Ok::<Seq<i64>, DecodeError>(Seq::empty()), st, s),
        match gorilla::dod_take_many(st, s, n) {
            (Err(e), _, _) => gorilla::dod_take_many(st, s, n + 1) == gorilla::dod_take_many(
                st,
                s,
                n,
            ),
            (Ok(v), st1, s1) => match gorilla::dod_take(st1, s1) {
                (Err(e), st2, s2) => gorilla::dod_take_many(st, s, n + 1) == (
                    Err::<Seq<i64>, DecodeError>(e),
                    st2,
                    s2,
                ),
                (Ok(x), st2, s2) => gorilla::dod_take_many(st, s, n + 1) == (
                    Ok::<Seq<i64>, DecodeError>(v.push(x)),
                    st2,
                    s2,
                ),
            },
        },
    decreases n,
{
    if n == 0 {
        reveal_with_fuel(gorilla::dod_take_many, 2);
        if let (Ok(x), st2, s2) = gorilla::dod_take(st, s) {
            assert(seq![x] + Seq::empty() =~= Seq::<i64>::empty().push(x));
        }
    } else if let (Ok(x), st1, s1) = gorilla::dod_take(st, s) {
        timestamps_are_read_one_by_one(st1, s1, (n - 1) as nat);
        if let (Ok(v), st2, s2) = gorilla::dod_take_many(st1, s1, (n - 1) as nat) {
            if let (Ok(y), st3, s3) = gorilla::dod_take(st2, s2) {
                assert(seq![x] + v.push(y) =~= (seq![x] + v).push(y));
            }
        }
    }
}

/// A column of timestamps is the varint of how many there are, and then their bits
/// from a state that knows no timestamp, with fewer than eight zero bits behind
/// them.
pub proof fn timestamp_column_is_count_and_bits(ts: Seq<i64>)
    ensures
        ({
            let count = bits::varint(ts.len());
            let code = gorilla::dod_codes(
                DodModel { started: false, prev: 0, prev_delta: 0 },
                ts,
            );
            let column = gorilla::timestamp_column(ts);
            let fill = 8 * (column.len() - count.len()) - code.len();
            &&& column.take(count.len() as int) == count
            &&& 0 <= fill < 8
            &&& bitseq::byte_bits(column.skip(count.len() as int)) == code + Seq::new(
                fill as nat,
                |i: int| false,
            )
        }),
{
    let count = bits::varint(ts.len());
    let code = gorilla::dod_codes(DodModel::fresh(), ts);
    let column = gorilla::timestamp_column(ts);
    bitseq::lemma_byte_bits_pack(code);
    assert(column.take(count.len() as int) =~= count);
    assert(column.skip(count.len() as int) =~= bitseq::pack(code));
    let fill = 8 * (column.len() - count.len()) - code.len();
    assert(bitseq::padded(code) =~= code + Seq::new(fill as nat, |i: int| false));
}

/// What a column of timestamps is decoded to, from whatever follows its count: as
/// many as the count says, read from a state that knows no timestamp.
pub proof fn timestamp_columns_are_read_from_the_count(data: Seq<u8>)
    ensures
        match bits::take_varint(data) {
            (Ok(n), used) => gorilla::timestamps_decoded(data) == gorilla::dod_take_many(
                DodModel { started: false, prev: 0, prev_delta: 0 },
                bitseq::byte_bits(data.skip(used as int)),
                n as nat,
            ).0,
            (Err(e), _) => gorilla::timestamps_decoded(data) == Err::<Seq<i64>, DecodeError>(e),
        },
{
}

} // verus!
