//! Reference Gorilla codecs (Pelkonen et al., "Gorilla: A Fast, Scalable,
//! In-Memory Time Series Database", VLDB 2015), used as the baseline.
//!
//! Values are doubles, held as their 64-bit patterns: XOR with the previous
//! value; `0` for an identical value, `10` plus the meaningful bits when they
//! fit in the previous leading/trailing window, `11` plus 5 bits of leading
//! zeros, 6 bits of length (0 means 64) and the meaningful bits otherwise.
//!
//! Timestamps: delta-of-delta with the paper's buckets `0`, `10`+7 bits,
//! `110`+9 bits, `1110`+12 bits. The paper's last bucket is `1111`+32 bits; here
//! it is split into `11110`+32 bits and `11111`+64 bits so arbitrary i64
//! timestamps (nanoseconds, out-of-order feeds) round-trip. The first
//! timestamp is stored raw in 64 bits and the first delta goes through the
//! same buckets (against a previous delta of 0) instead of the paper's fixed
//! 14-bit field, which assumed seconds inside a two-hour window.
//!
//! Stream layout for both: LEB128 value count, then the bit stream.

use crate::bits;
use crate::bits::{BitReader, BitSink, BitWriter, get_varint, put_varint};
use crate::bitseq;
use crate::words;
use crate::DecodeError;
use vstd::arithmetic::div_mod::*;
use vstd::arithmetic::power2::*;
use vstd::bits::*;
use vstd::prelude::*;
use vstd::slice::slice_subrange;

verus! {

/// What the XOR codec remembers of the values it has passed.
pub struct XorModel {
    /// A value has been passed.
    pub started: bool,
    /// Bits of the last value passed.
    pub prev: u64,
    /// Leading and trailing zeros of the last window that was written out.
    pub window: Option<(u32, u32)>,
}

impl XorModel {
    pub open spec fn fresh() -> XorModel {
        XorModel { started: false, prev: 0, window: None }
    }

    /// A window holds at least one bit and its leading zeros fit in 5 bits.
    pub open spec fn wf(self) -> bool {
        self.window matches Some((l, t)) ==> l <= 31 && l + t < 64
    }
}

/// Leading zeros of a non-zero XOR, as far as 5 bits can tell.
pub open spec fn xor_leading(d: u64) -> nat {
    if bitseq::bit_length(d as nat) < 33 {
        31
    } else {
        (64 - bitseq::bit_length(d as nat)) as nat
    }
}

/// `d` lies inside the window, so the window can be used again.
pub open spec fn fits_window(d: u64, window: Option<(u32, u32)>) -> bool {
    match window {
        None => false,
        Some((l, t)) => xor_leading(d) >= l && bitseq::trailing_zeros(d as nat) >= t,
    }
}

/// The bits written for the value `x`.
pub open spec fn xor_code(st: XorModel, x: u64) -> Seq<bool> {
    let d = x ^ st.prev;
    if !st.started {
        bitseq::bits_of(x as nat, 64)
    } else if x == st.prev {
        bitseq::bits_of(0, 1)
    } else if fits_window(d, st.window) {
        let (l, t) = st.window->Some_0;
        bitseq::bits_of(0b10, 2) + bitseq::bits_of(d as nat / pow2(t as nat), (64 - l - t) as nat)
    } else {
        let l = xor_leading(d);
        let t = bitseq::trailing_zeros(d as nat);
        let len = (64 - l - t) as nat;
        bitseq::bits_of(0b11, 2) + bitseq::bits_of(l, 5) + bitseq::bits_of(len % 64, 6)
            + bitseq::bits_of(d as nat / pow2(t), len)
    }
}

/// The state after the value `x`.
pub open spec fn xor_next(st: XorModel, x: u64) -> XorModel {
    let d = x ^ st.prev;
    XorModel {
        started: true,
        prev: x,
        window: if !st.started || x == st.prev || fits_window(d, st.window) {
            st.window
        } else {
            Some((xor_leading(d) as u32, bitseq::trailing_zeros(d as nat) as u32))
        },
    }
}

/// What reading one value from the bits `s` gives: the value, the state and
/// the bits left.
pub open spec fn xor_take(st: XorModel, s: Seq<bool>) -> (
    Result<u64, DecodeError>,
    XorModel,
    Seq<bool>,
) {
    if !st.started {
        match bits::take_bits(s, 64) {
            (Err(e), s) => (Err(e), st, s),
            (Ok(x), s) => (Ok(x), XorModel { started: true, prev: x, ..st }, s),
        }
    } else {
        match bits::take_bit(s) {
            (Err(e), s) => (Err(e), st, s),
            (Ok(false), s) => (Ok(st.prev), st, s),
            (Ok(true), s) => match bits::take_bit(s) {
                (Err(e), s) => (Err(e), st, s),
                (Ok(false), s) => match st.window {
                    None => (
                        Err(DecodeError::Corrupt("XOR window reused before being set")),
                        st,
                        s,
                    ),
                    Some((l, t)) => xor_take_window(st, s, l as nat, t as nat),
                },
                (Ok(true), s) => xor_take_new_window(st, s),
            },
        }
    }
}

/// Reading the meaningful bits of a window with `l` leading and `t` trailing
/// zeros.
pub open spec fn xor_take_window(st: XorModel, s: Seq<bool>, l: nat, t: nat) -> (
    Result<u64, DecodeError>,
    XorModel,
    Seq<bool>,
) {
    match bits::take_bits(s, (64 - l - t) as nat) {
        (Err(e), s) => (Err(e), st, s),
        (Ok(d), s) => {
            let x = st.prev ^ ((d * pow2(t)) as u64);
            (Ok(x), XorModel { prev: x, ..st }, s)
        },
    }
}

/// Reading a window and the meaningful bits in it.
pub open spec fn xor_take_new_window(st: XorModel, s: Seq<bool>) -> (
    Result<u64, DecodeError>,
    XorModel,
    Seq<bool>,
) {
    match bits::take_bits(s, 5) {
        (Err(e), s) => (Err(e), st, s),
        (Ok(l), s) => match bits::take_bits(s, 6) {
            (Err(e), s) => (Err(e), st, s),
            (Ok(len), s) => {
                let len = if len == 0 {
                    64
                } else {
                    len
                };
                if l + len > 64 {
                    (Err(DecodeError::Corrupt("XOR window wider than 64 bits")), st, s)
                } else {
                    let t = (64 - l - len) as nat;
                    let st = XorModel { window: Some((l as u32, t as u32)), ..st };
                    xor_take_window(st, s, l as nat, t)
                }
            },
        },
    }
}

/// Zeros on both sides of the bits that a XOR was written out with.
#[derive(Debug, Clone, Copy, PartialEq, Eq, Structural)]
struct Window {
    leading: u32,
    trailing: u32,
}

/// Running state of the XOR value encoder. The tickpack price codec shares
/// this state across its blocks so that its fallback path costs exactly what
/// the baseline would.
#[derive(Debug, Clone, Copy, PartialEq, Eq, Structural)]
pub struct XorState {
    started: bool,
    prev: u64,
    window: Option<Window>,
}

impl View for XorState {
    type V = XorModel;

    closed spec fn view(&self) -> XorModel {
        XorModel {
            started: self.started,
            prev: self.prev,
            window: match self.window {
                Some(w) => Some((w.leading, w.trailing)),
                None => None,
            },
        }
    }
}

/// States with the same model are the same state, field by field.
pub proof fn equal_models_are_equal_states(a: XorState, b: XorState)
    requires
        a@ == b@,
    ensures
        a == b,
{
}

impl Default for XorState {
    fn default() -> (st: Self)
        ensures
            st@ == XorModel::fresh(),
    {
        XorState { started: false, prev: 0, window: None }
    }
}

impl XorState {
    pub fn new() -> (st: Self)
        ensures
            st@ == XorModel::fresh(),
    {
        Self::default()
    }

    /// Pass the double with the bit pattern `value` on to `sink`.
    pub fn encode<S: BitSink>(&mut self, value: u64, sink: &mut S)
        requires
            old(self)@.wf(),
            old(sink).wf(),
            old(sink).count() + xor_code(old(self)@, value).len() <= u64::MAX,
        ensures
            final(self)@ == xor_next(old(self)@, value),
            final(self)@.wf(),
            final(sink).wf(),
            final(sink).prefix() == old(sink).prefix(),
            final(sink).count() == old(sink).count() + xor_code(old(self)@, value).len(),
            forall|s: Seq<bool>| #[trigger]
                old(sink).holds(s) ==> final(sink).holds(s + xor_code(old(self)@, value)),
    {
        let x: u64 = value;
        let ghost st = self@;
        let ghost code = xor_code(st, x);
        let ghost sink0 = *sink;
        if !self.started {
            proof {
                bitseq::lemma_bits_of_len(x as nat, 64);
            }
            sink.put(x, 64);
            self.prev = x;
            self.started = true;
            return;
        }
        let xor: u64 = x ^ self.prev;
        proof {
            lemma_xor_zero(x, self.prev);
        }
        if xor == 0 {
            proof {
                bitseq::lemma_bits_of_len(0, 1);
            }
            sink.put(0, 1);
            return;
        }
        self.prev = x;
        proof {
            lemma_xor_window(xor);
        }
        let zeros: u32 = xor.leading_zeros();
        let lz: u32 = if zeros < 31 {
            zeros
        } else {
            31
        };
        let tz: u32 = xor.trailing_zeros();
        proof {
            bits::lemma_leading_zeros(xor);
            bits::lemma_u64_trailing_zeros(xor);
        }
        let held: Option<Window> = match self.window {
            Some(w) => if lz >= w.leading && tz >= w.trailing {
                Some(w)
            } else {
                None
            },
            None => None,
        };
        if let Some(w) = held {
            let len: u32 = 64 - w.leading - w.trailing;
            let shift: u32 = w.trailing;
            proof {
                lemma_u64_shr_is_div(xor, shift as u64);
                bitseq::lemma_bits_of_len(2, 2);
                bitseq::lemma_bits_of_len((xor >> shift) as nat, len as nat);
            }
            sink.put(0b10, 2);
            sink.put(xor >> shift, len);
            proof {
                assert forall|s: Seq<bool>| #[trigger] sink0.holds(s) implies sink.holds(
                    s + code,
                ) by {
                    assert(s + bitseq::bits_of(2, 2)
                        + bitseq::bits_of((xor >> shift) as nat, len as nat)
                        =~= s + code);
                }
            }
        } else {
            let len: u32 = 64 - lz - tz;
            let m: u32 = len % 64;
            proof {
                lemma_u64_shr_is_div(xor, tz as u64);
                bitseq::lemma_bits_of_len(3, 2);
                bitseq::lemma_bits_of_len(lz as nat, 5);
                bitseq::lemma_bits_of_len(m as nat, 6);
                bitseq::lemma_bits_of_len((xor >> tz) as nat, len as nat);
            }
            sink.put(0b11, 2);
            sink.put(lz as u64, 5);
            sink.put(m as u64, 6);
            sink.put(xor >> tz, len);
            self.window = Some(Window { leading: lz, trailing: tz });
            proof {
                assert forall|s: Seq<bool>| #[trigger] sink0.holds(s) implies sink.holds(
                    s + code,
                ) by {
                    assert(s + bitseq::bits_of(3, 2) + bitseq::bits_of(lz as nat, 5)
                        + bitseq::bits_of(m as nat, 6)
                        + bitseq::bits_of((xor >> tz) as nat, len as nat) =~= s + code);
                }
            }
        }
    }

    /// Read the bit pattern of the next double from `r`.
    pub fn decode(&mut self, r: &mut BitReader) -> (res: Result<u64, DecodeError>)
        requires
            old(self)@.wf(),
            old(r).wf(),
        ensures
            final(r).wf(),
            final(self)@.wf(),
            (res, final(self)@, final(r)@) == xor_take(old(self)@, old(r)@),
    {
        if !self.started {
            let x: u64 = r.read(64)?;
            self.prev = x;
            self.started = true;
            return Ok(self.prev);
        }
        if !r.read_bit()? {
            return Ok(self.prev);
        }
        let xor: u64 = if !r.read_bit()? {
            let w: Window = match self.window {
                Some(w) => w,
                None => {
                    return Err(DecodeError::Corrupt("XOR window reused before being set"));
                },
            };
            let len: u32 = 64 - w.leading - w.trailing;
            let ghost s = r@;
            let d: u64 = r.read(len)?;
            proof {
                lemma_window_shift(s, d, len as nat, w.trailing);
            }
            d << w.trailing
        } else {
            let ghost s5 = r@;
            let lz: u64 = r.read(5)?;
            let ghost s6 = r@;
            let coded: u64 = r.read(6)?;
            proof {
                words::lemma_pow2_values();
                bitseq::lemma_value_of_bound(s5.take(5));
                bitseq::lemma_value_of_bound(s6.take(6));
            }
            let len: u32 = if coded == 0 {
                64
            } else {
                coded as u32
            };
            if lz as u32 + len > 64 {
                return Err(DecodeError::Corrupt("XOR window wider than 64 bits"));
            }
            let tz: u32 = 64 - lz as u32 - len;
            self.window = Some(Window { leading: lz as u32, trailing: tz });
            let ghost s = r@;
            let d: u64 = r.read(len)?;
            proof {
                lemma_window_shift(s, d, len as nat, tz);
            }
            d << tz
        };
        self.prev = self.prev ^ xor;
        Ok(self.prev)
    }
}

pub proof fn lemma_xor_zero(x: u64, y: u64)
    ensures
        (x ^ y == 0) == (x == y),
{
    assert((x ^ y == 0) == (x == y)) by (bit_vector);
}

/// A non-zero XOR leaves at least one bit between its leading and trailing
/// zeros.
pub proof fn lemma_xor_window(d: u64)
    requires
        d != 0,
    ensures
        xor_leading(d) <= 31,
        xor_leading(d) + bitseq::trailing_zeros(d as nat) < 64,
        bitseq::bit_length(d as nat) <= 64 - xor_leading(d),
{
    words::lemma_pow2_values();
    bitseq::lemma_trailing_zeros(d as nat);
    bitseq::lemma_bit_length_bound(d as nat, 64);
}

/// Bits read for a window keep their value when they are shifted into place.
proof fn lemma_window_shift(s: Seq<bool>, d: u64, len: nat, t: u32)
    requires
        len + t <= 64,
        1 <= len,
        len <= s.len(),
        d == bitseq::value_of(s.take(len as int)) as u64,
    ensures
        d << t == (d * pow2(t as nat)) as u64,
        d * pow2(t as nat) <= u64::MAX,
{
    words::lemma_pow2_values();
    bitseq::lemma_value_of_bound(s.take(len as int));
    words::lemma_pow2_le(len, 64);
    lemma_pow2_adds(len, t as nat);
    words::lemma_pow2_le(len + t as nat, 64);
    lemma_pow2_pos(t as nat);
    let (a, p, q) = (d as int, pow2(len) as int, pow2(t as nat) as int);
    assert(a * q < p * q) by (nonlinear_arith)
        requires
            a < p,
            q > 0,
    ;
    lemma_u64_shl_is_mul(d, t as u64);
}

/// Reading gives back the value that was written and brings the reader to the
/// writer's state.
pub proof fn xor_value_reads_back(st: XorModel, x: u64, rest: Seq<bool>)
    requires
        st.wf(),
    ensures
        xor_take(st, xor_code(st, x) + rest) == (
            Ok::<u64, DecodeError>(x),
            xor_next(st, x),
            rest,
        ),
        xor_next(st, x).wf(),
{
    let d = x ^ st.prev;
    lemma_xor_zero(x, st.prev);
    if !st.started {
        words::lemma_pow2_values();
        bits::bits_read_back(x, 64, rest);
    } else if x == st.prev {
        lemma_short_flags();
        bits::bit_reads_back(false, rest);
    } else {
        lemma_xor_window(d);
        if fits_window(d, st.window) {
            lemma_old_window_reads_back(st, x, rest);
        } else {
            lemma_new_window_reads_back(st, x, rest);
        }
    }
}

proof fn lemma_old_window_reads_back(st: XorModel, x: u64, rest: Seq<bool>)
    requires
        st.wf(),
        st.started,
        x != st.prev,
        fits_window(x ^ st.prev, st.window),
    ensures
        xor_take(st, xor_code(st, x) + rest) == (
            Ok::<u64, DecodeError>(x),
            xor_next(st, x),
            rest,
        ),
{
    let d = x ^ st.prev;
    let (l, t) = st.window->Some_0;
    let body = bitseq::bits_of(d as nat / pow2(t as nat), (64 - l - t) as nat);
    let tail = body + rest;
    lemma_short_flags();
    assert(xor_code(st, x) + rest =~= seq![true] + (seq![false] + tail));
    bits::bit_reads_back(true, seq![false] + tail);
    bits::bit_reads_back(false, tail);
    lemma_window_reads_back(st, x, l as nat, t as nat, rest);
}

/// A value after a new window is read field by field.
proof fn lemma_new_window_fields(
    st: XorModel,
    s: Seq<bool>,
    s1: Seq<bool>,
    l: (u64, Seq<bool>),
    coded: (u64, Seq<bool>),
)
    requires
        st.started,
        bits::take_bit(s) == (Ok::<bool, DecodeError>(true), s1),
        bits::take_bit(s1).0 == Ok::<bool, DecodeError>(true),
        bits::take_bits(bits::take_bit(s1).1, 5) == (Ok::<u64, DecodeError>(l.0), l.1),
        bits::take_bits(l.1, 6) == (Ok::<u64, DecodeError>(coded.0), coded.1),
    ensures
        ({
            let len = if coded.0 == 0 {
                64
            } else {
                coded.0 as int
            };
            let t = (64 - l.0 - len) as nat;
            let wide = XorModel { window: Some((l.0 as u32, t as u32)), ..st };
            l.0 + len <= 64 ==> xor_take(st, s) == xor_take_window(wide, coded.1, l.0 as nat, t)
        }),
{
}

/// The parts of the code of a value with a new window, joined from the back.
proof fn lemma_new_window_code(
    flags: Seq<bool>,
    l: Seq<bool>,
    len: Seq<bool>,
    body: Seq<bool>,
    rest: Seq<bool>,
)
    requires
        flags == seq![true, true],
    ensures
        flags + l + len + body + rest == seq![true] + (seq![true] + (l + (len + (body + rest)))),
{
    assert(flags + l + len + body + rest =~= seq![true] + (seq![true] + (l + (len + (body
        + rest)))));
}

/// The leading zeros and the size of a window read back.
proof fn lemma_window_fields_read_back(l: nat, size: nat, rest: Seq<bool>)
    requires
        l < 32,
        size < 64,
    ensures
        bits::take_bits(bitseq::bits_of(l, 5) + (bitseq::bits_of(size, 6) + rest), 5) == (
            Ok::<u64, DecodeError>(l as u64),
            bitseq::bits_of(size, 6) + rest,
        ),
        bits::take_bits(bitseq::bits_of(size, 6) + rest, 6) == (
            Ok::<u64, DecodeError>(size as u64),
            rest,
        ),
{
    words::lemma_pow2_values();
    bits::bits_read_back(l as u64, 5, bitseq::bits_of(size, 6) + rest);
    bits::bits_read_back(size as u64, 6, rest);
}

/// The window of a value is read back in front of its meaningful bits.
#[verifier::spinoff_prover]
proof fn lemma_new_window_stream(
    st: XorModel,
    l: nat,
    len: nat,
    body: Seq<bool>,
    rest: Seq<bool>,
)
    requires
        st.started,
        l < 32,
        1 <= len,
        l + len <= 64,
    ensures
        xor_take(
            st,
            bitseq::bits_of(3, 2) + bitseq::bits_of(l, 5) + bitseq::bits_of(len % 64, 6) + body
                + rest,
        ) == xor_take_window(
            XorModel { window: Some((l as u32, (64 - l - len) as u32)), ..st },
            body + rest,
            l,
            (64 - l - len) as nat,
        ),
{
    let (lead, size) = (bitseq::bits_of(l, 5), bitseq::bits_of(len % 64, 6));
    let s3 = body + rest;
    let s2 = size + s3;
    let s1 = lead + s2;
    let s0 = seq![true] + s1;
    let s = seq![true] + s0;
    assert(bitseq::bits_of(3, 2) + lead + size + body + rest == s) by {
        lemma_short_flags();
        lemma_new_window_code(bitseq::bits_of(3, 2), lead, size, body, rest);
    }
    assert(bits::take_bit(s) == (Ok::<bool, DecodeError>(true), s0)) by {
        bits::bit_reads_back(true, s0);
    }
    assert(bits::take_bit(s0) == (Ok::<bool, DecodeError>(true), s1)) by {
        bits::bit_reads_back(true, s1);
    }
    lemma_window_fields_read_back(l, len % 64, s3);
    lemma_new_window_fields(st, s, s0, (l as u64, s2), ((len % 64) as u64, s3));
}

proof fn lemma_new_window_reads_back(st: XorModel, x: u64, rest: Seq<bool>)
    requires
        st.wf(),
        st.started,
        x != st.prev,
        !fits_window(x ^ st.prev, st.window),
    ensures
        xor_take(st, xor_code(st, x) + rest) == (
            Ok::<u64, DecodeError>(x),
            xor_next(st, x),
            rest,
        ),
{
    let d = x ^ st.prev;
    lemma_xor_zero(x, st.prev);
    lemma_xor_window(d);
    let l = xor_leading(d);
    let t = bitseq::trailing_zeros(d as nat);
    let len = (64 - l - t) as nat;
    lemma_new_window_stream(st, l, len, bitseq::bits_of(d as nat / pow2(t), len), rest);
    let wide = XorModel { window: Some((l as u32, t as u32)), ..st };
    lemma_window_reads_back(wide, x, l, t, rest);
}

/// The short flags as lists of bits.
proof fn lemma_short_flags()
    ensures
        bitseq::bits_of(0, 1) == seq![false],
        bitseq::bits_of(2, 2) == seq![true, false],
        bitseq::bits_of(3, 2) == seq![true, true],
{
    reveal_with_fuel(bitseq::bits_of, 3);
    assert(bitseq::bits_of(0, 1) =~= seq![false]);
    assert(bitseq::bits_of(2, 2) =~= seq![true, false]);
    assert(bitseq::bits_of(3, 2) =~= seq![true, true]);
}

/// The long flags as lists of bits.
proof fn lemma_long_flags()
    ensures
        bitseq::bits_of(6, 3) == seq![true, true, false],
        bitseq::bits_of(14, 4) == seq![true, true, true, false],
        bitseq::bits_of(30, 5) == seq![true, true, true, true, false],
        bitseq::bits_of(31, 5) == seq![true, true, true, true, true],
{
    reveal_with_fuel(bitseq::bits_of, 6);
    assert(bitseq::bits_of(6, 3) =~= seq![true, true, false]);
    assert(bitseq::bits_of(14, 4) =~= seq![true, true, true, false]);
    assert(bitseq::bits_of(30, 5) =~= seq![true, true, true, true, false]);
    assert(bitseq::bits_of(31, 5) =~= seq![true, true, true, true, true]);
}

proof fn lemma_window_reads_back(st: XorModel, x: u64, l: nat, t: nat, rest: Seq<bool>)
    requires
        x != st.prev,
        l + t < 64,
        xor_leading(x ^ st.prev) >= l,
        bitseq::trailing_zeros((x ^ st.prev) as nat) >= t,
    ensures
        xor_take_window(
            st,
            bitseq::bits_of((x ^ st.prev) as nat / pow2(t), (64 - l - t) as nat) + rest,
            l,
            t,
        ) == (Ok::<u64, DecodeError>(x), XorModel { prev: x, ..st }, rest),
{
    let y = st.prev;
    let d = x ^ y;
    let len = (64 - l - t) as nat;
    lemma_xor_zero(x, y);
    lemma_xor_window(d);
    words::lemma_pow2_values();
    lemma_pow2_pos(t);
    bitseq::lemma_trailing_zeros(d as nat);
    bitseq::lemma_multiple_of_smaller_power(d as nat, t, bitseq::trailing_zeros(d as nat));
    lemma_fundamental_div_mod(d as int, pow2(t) as int);
    let q = d as nat / pow2(t);
    vstd::arithmetic::mul::lemma_mul_is_commutative(pow2(t) as int, q as int);
    bitseq::lemma_bit_length(d as nat);
    words::lemma_pow2_le(bitseq::bit_length(d as nat), (64 - l) as nat);
    lemma_pow2_adds(len, t);
    let (dd, p, r) = (d as int, pow2(t) as int, pow2(len) as int);
    assert(q < r) by (nonlinear_arith)
        requires
            dd == p * q,
            dd < r * p,
            p > 0,
    ;
    assert(q <= d) by (nonlinear_arith)
        requires
            dd == p * q,
            p > 0,
            q >= 0,
            dd == d as int,
    ;
    bits::bits_read_back(q as u64, len, rest);
    assert(y ^ (x ^ y) == x) by (bit_vector);
}

/// The bits written for a list of values.
pub open spec fn xor_codes(st: XorModel, values: Seq<u64>) -> Seq<bool>
    decreases values.len(),
{
    if values.len() == 0 {
        Seq::empty()
    } else {
        xor_code(st, values[0]) + xor_codes(xor_next(st, values[0]), values.skip(1))
    }
}

/// The state after a list of values.
pub open spec fn xor_after(st: XorModel, values: Seq<u64>) -> XorModel
    decreases values.len(),
{
    if values.len() == 0 {
        st
    } else {
        xor_after(xor_next(st, values[0]), values.skip(1))
    }
}

/// What reading `n` values gives, up to the first failure.
pub open spec fn xor_take_many(st: XorModel, s: Seq<bool>, n: nat) -> (
    Result<Seq<u64>, DecodeError>,
    XorModel,
    Seq<bool>,
)
    decreases n,
{
    if n == 0 {
        (Ok(Seq::empty()), st, s)
    } else {
        match xor_take(st, s) {
            (Err(e), st, s) => (Err(e), st, s),
            (Ok(x), st, s) => match xor_take_many(st, s, (n - 1) as nat) {
                (Err(e), st, s) => (Err(e), st, s),
                (Ok(xs), st, s) => (Ok(seq![x] + xs), st, s),
            },
        }
    }
}

pub proof fn lemma_xor_code_len(st: XorModel, x: u64)
    requires
        st.wf(),
    ensures
        1 <= xor_code(st, x).len() <= 77,
        xor_next(st, x).wf(),
{
    let d = x ^ st.prev;
    lemma_xor_zero(x, st.prev);
    bitseq::lemma_bits_of_len(x as nat, 64);
    bitseq::lemma_bits_of_len(0, 1);
    bitseq::lemma_bits_of_len(2, 2);
    bitseq::lemma_bits_of_len(3, 2);
    if x != st.prev {
        lemma_xor_window(d);
        if fits_window(d, st.window) {
            let (l, t) = st.window->Some_0;
            bitseq::lemma_bits_of_len(d as nat / pow2(t as nat), (64 - l - t) as nat);
        } else {
            let l = xor_leading(d);
            let t = bitseq::trailing_zeros(d as nat);
            let len = (64 - l - t) as nat;
            bitseq::lemma_bits_of_len(l, 5);
            bitseq::lemma_bits_of_len(len % 64, 6);
            bitseq::lemma_bits_of_len(d as nat / pow2(t), len);
        }
    }
}

/// Encoding a list in two parts, the second from the state the first leaves,
/// gives the same bits as encoding it at once.
pub proof fn xor_codes_concat(st: XorModel, a: Seq<u64>, b: Seq<u64>)
    ensures
        xor_codes(st, a + b) == xor_codes(st, a) + xor_codes(xor_after(st, a), b),
        xor_after(st, a + b) == xor_after(xor_after(st, a), b),
    decreases a.len(),
{
    if a.len() == 0 {
        assert(a + b =~= b);
        assert(xor_codes(st, a) + xor_codes(st, b) =~= xor_codes(st, b));
    } else {
        let next = xor_next(st, a[0]);
        assert((a + b).skip(1) =~= a.skip(1) + b);
        xor_codes_concat(next, a.skip(1), b);
        assert(xor_code(st, a[0]) + (xor_codes(next, a.skip(1)) + xor_codes(xor_after(st, a), b))
            =~= xor_codes(st, a) + xor_codes(xor_after(st, a), b));
    }
}

pub proof fn lemma_xor_codes_push(st: XorModel, a: Seq<u64>, x: u64)
    ensures
        xor_codes(st, a.push(x)) == xor_codes(st, a) + xor_code(xor_after(st, a), x),
        xor_after(st, a.push(x)) == xor_next(xor_after(st, a), x),
{
    let one = seq![x];
    let mid = xor_after(st, a);
    assert(a.push(x) =~= a + one);
    xor_codes_concat(st, a, one);
    assert(one.skip(1) =~= Seq::empty());
    assert(xor_codes(xor_next(mid, x), one.skip(1)) =~= Seq::empty());
    assert(xor_codes(mid, one) =~= xor_code(mid, x));
    assert(xor_after(mid, one) == xor_after(xor_next(mid, x), one.skip(1)));
}

pub proof fn lemma_xor_codes_len(st: XorModel, values: Seq<u64>)
    requires
        st.wf(),
    ensures
        values.len() <= xor_codes(st, values).len() <= 77 * values.len(),
        xor_after(st, values).wf(),
    decreases values.len(),
{
    if values.len() > 0 {
        lemma_xor_code_len(st, values[0]);
        lemma_xor_codes_len(xor_next(st, values[0]), values.skip(1));
    }
}

/// Reading as many values as were written gives them back and brings the
/// reader to the writer's state.
pub proof fn xor_values_read_back(st: XorModel, values: Seq<u64>, rest: Seq<bool>)
    requires
        st.wf(),
    ensures
        xor_take_many(st, xor_codes(st, values) + rest, values.len()) == (
            Ok::<Seq<u64>, DecodeError>(values),
            xor_after(st, values),
            rest,
        ),
    decreases values.len(),
{
    if values.len() == 0 {
        assert(xor_codes(st, values) + rest =~= rest);
        assert(values =~= Seq::empty());
    } else {
        let x = values[0];
        let more = values.skip(1);
        let tail = xor_codes(xor_next(st, x), more) + rest;
        assert(xor_codes(st, values) + rest =~= xor_code(st, x) + tail);
        xor_value_reads_back(st, x, tail);
        xor_values_read_back(xor_next(st, x), more, rest);
        assert(seq![x] + more =~= values);
    }
}

/// Bits after those that are read do not change what is read.
pub proof fn lemma_xor_take_prefix(st: XorModel, s: Seq<bool>, t: Seq<bool>)
    requires
        !bits::at_end(xor_take(st, s).0),
    ensures
        xor_take(st, s + t) == (xor_take(st, s).0, xor_take(st, s).1, xor_take(st, s).2 + t),
{
    if !st.started {
        bits::lemma_bits_prefix(s, t, 64);
    } else {
        bits::lemma_bit_prefix(s, t);
        if bits::take_bit(s).0 == Ok::<bool, DecodeError>(true) {
            let s1 = bits::take_bit(s).1;
            bits::lemma_bit_prefix(s1, t);
            let s2 = bits::take_bit(s1).1;
            if bits::take_bit(s1).0 == Ok::<bool, DecodeError>(true) {
                bits::lemma_bits_prefix(s2, t, 5);
                let (l, s3) = bits::take_bits(s2, 5);
                bits::lemma_bits_prefix(s3, t, 6);
                let (coded, s4) = bits::take_bits(s3, 6);
                let len = if coded->Ok_0 == 0 {
                    64
                } else {
                    coded->Ok_0
                };
                if l->Ok_0 + len <= 64 {
                    let tz = 64 - l->Ok_0 - len;
                    bits::lemma_bits_prefix(s4, t, (64 - l->Ok_0 - tz) as nat);
                }
            } else if let Some((l, tz)) = st.window {
                bits::lemma_bits_prefix(s2, t, (64 - l - tz) as nat);
            }
        }
    }
}

pub proof fn lemma_xor_take_many_prefix(st: XorModel, s: Seq<bool>, t: Seq<bool>, n: nat)
    requires
        !bits::at_end(xor_take_many(st, s, n).0),
    ensures
        xor_take_many(st, s + t, n) == (
            xor_take_many(st, s, n).0,
            xor_take_many(st, s, n).1,
            xor_take_many(st, s, n).2 + t,
        ),
        xor_take_many(st, s, n).0 matches Ok(xs) ==> xs.len() == n,
    decreases n,
{
    if n > 0 {
        lemma_xor_take_prefix(st, s, t);
        let (x, st1, s1) = xor_take(st, s);
        if x is Ok {
            lemma_xor_take_many_prefix(st1, s1, t, (n - 1) as nat);
        }
    }
}

/// The encoded column of doubles: value count, then the XOR bit stream.
pub open spec fn f64_column(values: Seq<u64>) -> Seq<u8> {
    bits::varint(values.len()) + bitseq::pack(xor_codes(XorModel::fresh(), values))
}

/// What decoding a column of doubles gives.
pub open spec fn f64_decoded(data: Seq<u8>) -> Result<Seq<u64>, DecodeError> {
    match bits::take_varint(data) {
        (Err(e), _) => Err(e),
        (Ok(n), used) => xor_take_many(
            XorModel::fresh(),
            bitseq::byte_bits(data.skip(used as int)),
            n as nat,
        ).0,
    }
}

/// Pass all of `values` on to `sink`.
pub(crate) fn encode_all<S: BitSink>(st: &mut XorState, values: &[u64], sink: &mut S)
    requires
        old(st)@.wf(),
        old(sink).wf(),
        old(sink).count() + xor_codes(old(st)@, values@).len() <= u64::MAX,
    ensures
        final(st)@ == xor_after(old(st)@, values@),
        final(st)@.wf(),
        final(sink).wf(),
        final(sink).prefix() == old(sink).prefix(),
        final(sink).count() == old(sink).count() + xor_codes(old(st)@, values@).len(),
        forall|s: Seq<bool>| #[trigger]
            old(sink).holds(s) ==> final(sink).holds(s + xor_codes(old(st)@, values@)),
{
    let ghost first = st@;
    let mut i: usize = 0;
    proof {
        assert(values@.take(0) =~= Seq::empty());
        assert forall|s: Seq<bool>| #[trigger] old(sink).holds(s) implies sink.holds(
            s + xor_codes(first, values@.take(0)),
        ) by {
            assert(s + xor_codes(first, values@.take(0)) =~= s);
        }
    }
    while i < values.len()
        invariant
            i <= values@.len(),
            first == old(st)@,
            st@ == xor_after(first, values@.take(i as int)),
            st@.wf(),
            sink.wf(),
            sink.prefix() == old(sink).prefix(),
            old(sink).count() + xor_codes(first, values@).len() <= u64::MAX,
            sink.count() == old(sink).count() + xor_codes(first, values@.take(i as int)).len(),
            forall|s: Seq<bool>| #[trigger]
                old(sink).holds(s) ==> sink.holds(s + xor_codes(first, values@.take(i as int))),
        decreases values@.len() - i,
    {
        let ghost done = xor_codes(first, values@.take(i as int));
        let ghost code = xor_code(st@, values@[i as int]);
        let ghost before = *sink;
        proof {
            let x = values@[i as int];
            assert(values@.take(i + 1) =~= values@.take(i as int).push(x));
            lemma_xor_codes_push(first, values@.take(i as int), x);
            assert(values@ =~= values@.take(i + 1) + values@.skip(i + 1));
            xor_codes_concat(first, values@.take(i + 1), values@.skip(i + 1));
        }
        st.encode(values[i], sink);
        i = i + 1;
        proof {
            assert forall|s: Seq<bool>| #[trigger] old(sink).holds(s) implies sink.holds(
                s + xor_codes(first, values@.take(i as int)),
            ) by {
                assert(before.holds(s + done));
                assert((s + done) + code =~= s + (done + code));
            }
        }
    }
    assert(values@.take(i as int) =~= values@);
}

/// Encode a column of doubles, given by their bit patterns.
pub fn encode_f64(values: &[u64]) -> (out: Vec<u8>)
    requires
        77 * values@.len() <= u64::MAX,
    ensures
        out@ == f64_column(values@),
{
    let mut prefix: Vec<u8> = Vec::new();
    put_varint(&mut prefix, values.len() as u64);
    assert(prefix@ =~= bits::varint(values@.len()));
    let mut w = BitWriter::with_prefix(prefix);
    let mut st = XorState::new();
    let ghost codes = xor_codes(st@, values@);
    proof {
        lemma_xor_codes_len(st@, values@);
        assert(w.holds(w@));
        assert(w@ + codes =~= codes);
    }
    encode_all(&mut st, values, &mut w);
    w.finish()
}

/// Read `n` values and append them to `out`.
pub(crate) fn decode_all(st: &mut XorState, r: &mut BitReader, n: u64, out: &mut Vec<u64>) -> (res:
    Result<(), DecodeError>)
    requires
        old(st)@.wf(),
        old(r).wf(),
    ensures
        final(st)@.wf(),
        final(r).wf(),
        match xor_take_many(old(st)@, old(r)@, n as nat) {
            (Ok(xs), after, s) => {
                &&& res is Ok
                &&& final(st)@ == after
                &&& final(r)@ == s
                &&& final(out)@ == old(out)@ + xs
            },
            (Err(e), after, s) => {
                &&& res == Err::<(), DecodeError>(e)
                &&& final(st)@ == after
                &&& final(r)@ == s
            },
        },
{
    let ghost whole = xor_take_many(st@, r@, n as nat);
    let mut i: u64 = 0;
    while i < n
        invariant
            i <= n,
            r.wf(),
            st@.wf(),
            whole == xor_take_many(old(st)@, old(r)@, n as nat),
            match xor_take_many(st@, r@, (n - i) as nat) {
                (Ok(xs), after, s) => match whole {
                    (Ok(all), a, rest) => a == after && rest == s && old(out)@ + all == out@ + xs,
                    (Err(e), _, _) => false,
                },
                (Err(e), after, s) => whole == (Err::<Seq<u64>, DecodeError>(e), after, s),
            },
        decreases n - i,
    {
        let ghost before = out@;
        let x: u64 = st.decode(r)?;
        out.push(x);
        i = i + 1;
        proof {
            if let (Ok(xs), _, _) = xor_take_many(st@, r@, (n - i) as nat) {
                assert(before + (seq![x] + xs) =~= out@ + xs);
            }
        }
    }
    assert(out@ + Seq::empty() =~= out@);
    Ok(())
}

/// Decode a column of doubles into their bit patterns.
pub fn decode_f64(data: &[u8]) -> (res: Result<Vec<u64>, DecodeError>)
    requires
        8 * data@.len() <= u64::MAX,
    ensures
        match res {
            Ok(values) => f64_decoded(data@) == Ok::<Seq<u64>, DecodeError>(values@),
            Err(e) => f64_decoded(data@) == Err::<Seq<u64>, DecodeError>(e),
        },
{
    let mut pos: usize = 0;
    assert(bits::bytes_from(data@, 0) =~= data@);
    let n: u64 = get_varint(data, &mut pos)?;
    proof {
        bits::lemma_varint_prefix(data@, Seq::empty());
        assert(data@.subrange(pos as int, data@.len() as int) =~= data@.skip(pos as int));
    }
    let body = slice_subrange(data, pos, data.len());
    let mut r = BitReader::new(body);
    let mut st = XorState::new();
    let mut out: Vec<u64> = Vec::new();
    let ghost whole = xor_take_many(st@, r@, n as nat);
    decode_all(&mut st, &mut r, n, &mut out)?;
    assert(Seq::<u64>::empty() + whole.0->Ok_0 =~= whole.0->Ok_0);
    Ok(out)
}

/// Decoding an encoded column of doubles gives every bit pattern back.
pub proof fn f64_column_round_trips(values: Seq<u64>)
    requires
        values.len() <= u64::MAX,
    ensures
        f64_decoded(f64_column(values)) == Ok::<Seq<u64>, DecodeError>(values),
{
    let head = bits::varint(values.len());
    let bits = xor_codes(XorModel::fresh(), values);
    let data = f64_column(values);
    bits::varint_reads_back(values.len() as u64, bitseq::pack(bits));
    assert(data.skip(head.len() as int) =~= bitseq::pack(bits));
    bitseq::lemma_byte_bits_pack(bits);
    xor_values_read_back(XorModel::fresh(), values, bitseq::zero_bits(bitseq::padding(bits.len())));
}

/// Bytes after an encoded column of doubles are ignored.
pub proof fn bytes_after_f64_column_are_ignored(values: Seq<u64>, extra: Seq<u8>)
    requires
        values.len() <= u64::MAX,
    ensures
        f64_decoded(f64_column(values) + extra) == Ok::<Seq<u64>, DecodeError>(values),
{
    let head = bits::varint(values.len());
    let fresh = XorModel::fresh();
    let bits = xor_codes(fresh, values);
    let body = bitseq::pack(bits) + extra;
    let data = f64_column(values) + extra;
    assert(data =~= head + body);
    bits::varint_reads_back(values.len() as u64, body);
    assert(data.skip(head.len() as int) =~= body);
    bitseq::lemma_byte_bits_pack(bits);
    bitseq::lemma_byte_bits_concat(bitseq::pack(bits), extra);
    let rest = bitseq::zero_bits(bitseq::padding(bits.len())) + bitseq::byte_bits(extra);
    assert(bitseq::padded(bits) + bitseq::byte_bits(extra) =~= bits + rest);
    xor_values_read_back(fresh, values, rest);
}

/// An encoded column of doubles that is cut short, anywhere, is reported as the
/// end of the input.
pub proof fn cut_f64_column_is_an_error(values: Seq<u64>, cut: int)
    requires
        values.len() <= u64::MAX,
        0 <= cut < f64_column(values).len(),
    ensures
        f64_decoded(f64_column(values).take(cut)) == Err::<Seq<u64>, DecodeError>(
            DecodeError::UnexpectedEof,
        ),
{
    let n = values.len() as u64;
    let head = bits::varint(n as nat);
    let fresh = XorModel::fresh();
    let bits = xor_codes(fresh, values);
    let data = f64_column(values);
    let short = data.take(cut);
    if cut < head.len() {
        assert(short =~= head.take(cut));
        bits::cut_varint_is_an_error(n, cut);
    } else {
        let k = cut - head.len();
        assert(short =~= head + bitseq::pack(bits).take(k));
        bits::varint_reads_back(n, bitseq::pack(bits).take(k));
        assert(short.skip(head.len() as int) =~= bitseq::pack(bits).take(k));
        bitseq::lemma_cut_bits(bits, k);
        xor_values_read_back(fresh, values, bitseq::zero_bits(bitseq::padding(bits.len())));
        let s = bitseq::byte_bits(bitseq::pack(bits).take(k));
        let t = bitseq::padded(bits).skip(8 * k);
        if !bits::at_end(xor_take_many(fresh, s, n as nat).0) {
            lemma_xor_take_many_prefix(fresh, s, t, n as nat);
        }
    }
}

/// What the timestamp codec remembers of the timestamps it has passed.
pub struct DodModel {
    /// A timestamp has been passed.
    pub started: bool,
    /// The last timestamp passed.
    pub prev: i64,
    /// The difference of the last two.
    pub prev_delta: i64,
}

impl DodModel {
    pub open spec fn fresh() -> DodModel {
        DodModel { started: false, prev: 0, prev_delta: 0 }
    }
}

/// The 64-bit two's complement pattern of `v` as a number.
pub open spec fn twos_complement(v: i64) -> nat {
    if v >= 0 {
        v as nat
    } else {
        (v + 0x1_0000_0000_0000_0000) as nat
    }
}

/// The bits of one delta of deltas: the flag of its bucket, then its offset in
/// the bucket.
pub open spec fn dod_bits(dod: i64) -> Seq<bool> {
    if dod == 0 {
        bitseq::bits_of(0, 1)
    } else if -63 <= dod <= 64 {
        bitseq::bits_of(0b10, 2) + bitseq::bits_of((dod + 63) as nat, 7)
    } else if -255 <= dod <= 256 {
        bitseq::bits_of(0b110, 3) + bitseq::bits_of((dod + 255) as nat, 9)
    } else if -2047 <= dod <= 2048 {
        bitseq::bits_of(0b1110, 4) + bitseq::bits_of((dod + 2047) as nat, 12)
    } else if i32::MIN <= dod <= i32::MAX {
        bitseq::bits_of(0b11110, 5) + bitseq::bits_of(twos_complement(dod), 32)
    } else {
        bitseq::bits_of(0b11111, 5) + bitseq::bits_of(twos_complement(dod), 64)
    }
}

/// The delta of deltas of the timestamp `t`.
pub open spec fn dod_of(st: DodModel, t: i64) -> i64 {
    t.wrapping_sub(st.prev).wrapping_sub(st.prev_delta)
}

/// The bits written for the timestamp `t`.
pub open spec fn dod_code(st: DodModel, t: i64) -> Seq<bool> {
    if !st.started {
        bitseq::bits_of(twos_complement(t), 64)
    } else {
        dod_bits(dod_of(st, t))
    }
}

/// The state after the timestamp `t`.
pub open spec fn dod_next(st: DodModel, t: i64) -> DodModel {
    DodModel {
        started: true,
        prev: t,
        prev_delta: if st.started {
            t.wrapping_sub(st.prev)
        } else {
            st.prev_delta
        },
    }
}

/// Reading `n` bits and subtracting `bias`.
pub open spec fn take_biased(s: Seq<bool>, n: nat, bias: int) -> (
    Result<i64, DecodeError>,
    Seq<bool>,
) {
    match bits::take_bits(s, n) {
        (Err(e), s) => (Err(e), s),
        (Ok(v), s) => (Ok((v - bias) as i64), s),
    }
}

/// Reading `n` bits as a two's complement number.
pub open spec fn take_signed(s: Seq<bool>, n: nat) -> (Result<i64, DecodeError>, Seq<bool>) {
    match bits::take_bits(s, n) {
        (Err(e), s) => (Err(e), s),
        (Ok(v), s) => (
            Ok(
                if 2 * v < pow2(n) {
                    v as i64
                } else {
                    (v - pow2(n)) as i64
                },
            ),
            s,
        ),
    }
}

/// What reading one delta of deltas gives. `ones` flag bits have been read.
pub open spec fn take_dod(s: Seq<bool>, ones: nat) -> (Result<i64, DecodeError>, Seq<bool>)
    decreases 5 - ones,
{
    if ones >= 5 {
        take_signed(s, 64)
    } else {
        match bits::take_bit(s) {
            (Err(e), s) => (Err(e), s),
            (Ok(true), s) => take_dod(s, ones + 1),
            (Ok(false), s) => if ones == 0 {
                (Ok(0), s)
            } else if ones == 1 {
                take_biased(s, 7, 63)
            } else if ones == 2 {
                take_biased(s, 9, 255)
            } else if ones == 3 {
                take_biased(s, 12, 2047)
            } else {
                take_signed(s, 32)
            },
        }
    }
}

/// What reading one timestamp gives: the timestamp, the state and the bits
/// left.
pub open spec fn dod_take(st: DodModel, s: Seq<bool>) -> (
    Result<i64, DecodeError>,
    DodModel,
    Seq<bool>,
) {
    if !st.started {
        match take_signed(s, 64) {
            (Err(e), s) => (Err(e), st, s),
            (Ok(t), s) => (Ok(t), DodModel { started: true, prev: t, ..st }, s),
        }
    } else {
        match take_dod(s, 0) {
            (Err(e), s) => (Err(e), st, s),
            (Ok(dod), s) => {
                let delta = st.prev_delta.wrapping_add(dod);
                let t = st.prev.wrapping_add(delta);
                (Ok(t), DodModel { prev: t, prev_delta: delta, ..st }, s)
            },
        }
    }
}

/// Delta-of-delta timestamp encoder state.
#[derive(Debug, Clone, Copy)]
pub struct DodState {
    started: bool,
    prev: i64,
    prev_delta: i64,
}

impl View for DodState {
    type V = DodModel;

    closed spec fn view(&self) -> DodModel {
        DodModel { started: self.started, prev: self.prev, prev_delta: self.prev_delta }
    }
}

impl Default for DodState {
    fn default() -> (st: Self)
        ensures
            st@ == DodModel::fresh(),
    {
        DodState { started: false, prev: 0, prev_delta: 0 }
    }
}

pub proof fn lemma_twos_complement(v: i64)
    ensures
        v as u64 == twos_complement(v),
{
    assert(v as u64 == (if v >= 0 {
        v as int
    } else {
        v + 0x1_0000_0000_0000_0000
    })) by (bit_vector);
}

/// Put a flag, then an offset.
fn put_pair<S: BitSink>(sink: &mut S, flag: u64, flag_bits: u32, value: u64, bits: u32)
    requires
        old(sink).wf(),
        flag_bits <= 64,
        bits <= 64,
        old(sink).count() + flag_bits + bits <= u64::MAX,
    ensures
        final(sink).wf(),
        final(sink).prefix() == old(sink).prefix(),
        final(sink).count() == old(sink).count() + flag_bits + bits,
        forall|s: Seq<bool>| #[trigger]
            old(sink).holds(s) ==> final(sink).holds(
                s + (bitseq::bits_of(flag as nat, flag_bits as nat)
                    + bitseq::bits_of(value as nat, bits as nat)),
            ),
{
    let ghost before = *sink;
    sink.put(flag, flag_bits);
    sink.put(value, bits);
    proof {
        let a = bitseq::bits_of(flag as nat, flag_bits as nat);
        let b = bitseq::bits_of(value as nat, bits as nat);
        assert forall|s: Seq<bool>| #[trigger] before.holds(s) implies sink.holds(s + (a + b)) by {
            assert((s + a) + b =~= s + (a + b));
        }
    }
}

pub proof fn lemma_dod_code_len(st: DodModel, t: i64)
    ensures
        1 <= dod_code(st, t).len() <= 69,
        dod_bits(dod_of(st, t)).len() == dod_cost(dod_of(st, t)),
{
    let dod = dod_of(st, t);
    bitseq::lemma_bits_of_len(twos_complement(t), 64);
    bitseq::lemma_bits_of_len(0, 1);
    bitseq::lemma_bits_of_len(2, 2);
    bitseq::lemma_bits_of_len(6, 3);
    bitseq::lemma_bits_of_len(14, 4);
    bitseq::lemma_bits_of_len(30, 5);
    bitseq::lemma_bits_of_len(31, 5);
    bitseq::lemma_bits_of_len((dod + 63) as nat, 7);
    bitseq::lemma_bits_of_len((dod + 255) as nat, 9);
    bitseq::lemma_bits_of_len((dod + 2047) as nat, 12);
    bitseq::lemma_bits_of_len(twos_complement(dod), 32);
    bitseq::lemma_bits_of_len(twos_complement(dod), 64);
}

/// The number of bits a delta of deltas takes: 1, 9, 12, 16, 37 or 69,
/// depending on its bucket.
pub open spec fn dod_cost(dod: i64) -> nat {
    if dod == 0 {
        1
    } else if -63 <= dod <= 64 {
        9
    } else if -255 <= dod <= 256 {
        12
    } else if -2047 <= dod <= 2048 {
        16
    } else if i32::MIN <= dod <= i32::MAX {
        37
    } else {
        69
    }
}

impl DodState {
    pub fn encode<S: BitSink>(&mut self, t: i64, sink: &mut S)
        requires
            old(sink).wf(),
            old(sink).count() + dod_code(old(self)@, t).len() <= u64::MAX,
        ensures
            final(self)@ == dod_next(old(self)@, t),
            final(sink).wf(),
            final(sink).prefix() == old(sink).prefix(),
            final(sink).count() == old(sink).count() + dod_code(old(self)@, t).len(),
            forall|s: Seq<bool>| #[trigger]
                old(sink).holds(s) ==> final(sink).holds(s + dod_code(old(self)@, t)),
    {
        proof {
            lemma_dod_code_len(self@, t);
            lemma_twos_complement(t);
            bitseq::lemma_bits_of_len(twos_complement(t), 64);
        }
        if !self.started {
            sink.put(t as u64, 64);
            self.prev = t;
            self.started = true;
            return;
        }
        let delta: i64 = t.wrapping_sub(self.prev);
        let dod: i64 = delta.wrapping_sub(self.prev_delta);
        proof {
            lemma_twos_complement(dod);
        }
        self.prev = t;
        self.prev_delta = delta;
        if dod == 0 {
            sink.put(0, 1);
        } else if -63 <= dod && dod <= 64 {
            put_pair(sink, 0b10, 2, (dod + 63) as u64, 7);
        } else if -255 <= dod && dod <= 256 {
            put_pair(sink, 0b110, 3, (dod + 255) as u64, 9);
        } else if -2047 <= dod && dod <= 2048 {
            put_pair(sink, 0b1110, 4, (dod + 2047) as u64, 12);
        } else if i32::MIN as i64 <= dod && dod <= i32::MAX as i64 {
            put_pair(sink, 0b11110, 5, dod as u64, 32);
        } else {
            put_pair(sink, 0b11111, 5, dod as u64, 64);
        }
    }

    pub fn decode(&mut self, r: &mut BitReader) -> (res: Result<i64, DecodeError>)
        requires
            old(r).wf(),
        ensures
            final(r).wf(),
            (res, final(self)@, final(r)@) == dod_take(old(self)@, old(r)@),
    {
        proof {
            words::lemma_pow2_values();
        }
        if !self.started {
            let raw: u64 = r.read(64)?;
            proof {
                words::lemma_as_i64(raw);
            }
            self.prev = raw as i64;
            self.started = true;
            return Ok(self.prev);
        }
        let dod: i64 = read_dod(r)?;
        self.prev_delta = self.prev_delta.wrapping_add(dod);
        self.prev = self.prev.wrapping_add(self.prev_delta);
        Ok(self.prev)
    }
}

/// Read one delta of deltas.
fn read_dod(r: &mut BitReader) -> (res: Result<i64, DecodeError>)
    requires
        old(r).wf(),
    ensures
        final(r).wf(),
        (res, final(r)@) == take_dod(old(r)@, 0),
{
    proof {
        words::lemma_pow2_values();
        reveal_with_fuel(take_dod, 6);
    }
    if !r.read_bit()? {
        return Ok(0);
    }
    if !r.read_bit()? {
        let ghost s = r@;
        let v: u64 = r.read(7)?;
        proof {
            bitseq::lemma_value_of_bound(s.take(7));
        }
        return Ok(v as i64 - 63);
    }
    if !r.read_bit()? {
        let ghost s = r@;
        let v: u64 = r.read(9)?;
        proof {
            bitseq::lemma_value_of_bound(s.take(9));
        }
        return Ok(v as i64 - 255);
    }
    if !r.read_bit()? {
        let ghost s = r@;
        let v: u64 = r.read(12)?;
        proof {
            bitseq::lemma_value_of_bound(s.take(12));
        }
        return Ok(v as i64 - 2047);
    }
    if !r.read_bit()? {
        let ghost s = r@;
        let v: u64 = r.read(32)?;
        proof {
            bitseq::lemma_value_of_bound(s.take(32));
        }
        if v < 0x8000_0000 {
            return Ok(v as i64);
        }
        return Ok(v as i64 - 0x1_0000_0000);
    }
    let v: u64 = r.read(64)?;
    proof {
        words::lemma_as_i64(v);
    }
    Ok(v as i64)
}

/// Reading gives back the delta of deltas that was written.
proof fn lemma_dod_reads_back(dod: i64, rest: Seq<bool>)
    ensures
        take_dod(dod_bits(dod) + rest, 0) == (Ok::<i64, DecodeError>(dod), rest),
{
    words::lemma_pow2_values();
    lemma_short_flags();
    lemma_long_flags();
    reveal_with_fuel(take_dod, 6);
    let s = dod_bits(dod) + rest;
    if dod == 0 {
        bits::bit_reads_back(false, rest);
    } else if -63 <= dod <= 64 {
        let tail = bitseq::bits_of((dod + 63) as nat, 7) + rest;
        assert(s =~= seq![true] + (seq![false] + tail));
        bits::bit_reads_back(true, seq![false] + tail);
        bits::bit_reads_back(false, tail);
        bits::bits_read_back((dod + 63) as u64, 7, rest);
    } else if -255 <= dod <= 256 {
        let tail = bitseq::bits_of((dod + 255) as nat, 9) + rest;
        let s1 = seq![true] + (seq![false] + tail);
        assert(s =~= seq![true] + s1);
        bits::bit_reads_back(true, s1);
        bits::bit_reads_back(true, seq![false] + tail);
        bits::bit_reads_back(false, tail);
        bits::bits_read_back((dod + 255) as u64, 9, rest);
    } else if -2047 <= dod <= 2048 {
        let tail = bitseq::bits_of((dod + 2047) as nat, 12) + rest;
        let s2 = seq![true] + (seq![false] + tail);
        let s1 = seq![true] + s2;
        assert(s =~= seq![true] + s1);
        bits::bit_reads_back(true, s1);
        bits::bit_reads_back(true, s2);
        bits::bit_reads_back(true, seq![false] + tail);
        bits::bit_reads_back(false, tail);
        bits::bits_read_back((dod + 2047) as u64, 12, rest);
    } else {
        let small = i32::MIN <= dod <= i32::MAX;
        let n: nat = if small {
            32
        } else {
            64
        };
        let u = twos_complement(dod);
        let low = if small && dod < 0 {
            (dod + 0x1_0000_0000) as nat
        } else {
            u
        };
        if small && dod < 0 {
            assert(u % 0x1_0000_0000 == low);
            lemma_small_mod(low, pow2(32));
            bitseq::lemma_bits_of_mod(u, low, 32);
        }
        let tail = bitseq::bits_of(low, n) + rest;
        let s4 = seq![!small] + tail;
        let s3 = seq![true] + s4;
        let s2 = seq![true] + s3;
        let s1 = seq![true] + s2;
        assert(s =~= seq![true] + s1);
        bits::bit_reads_back(true, s1);
        bits::bit_reads_back(true, s2);
        bits::bit_reads_back(true, s3);
        bits::bit_reads_back(true, s4);
        bits::bit_reads_back(!small, tail);
        bits::bits_read_back(low as u64, n, rest);
    }
}

/// Reading gives back the timestamp that was written and brings the reader to
/// the writer's state.
pub proof fn timestamp_reads_back(st: DodModel, t: i64, rest: Seq<bool>)
    ensures
        dod_take(st, dod_code(st, t) + rest) == (
            Ok::<i64, DecodeError>(t),
            dod_next(st, t),
            rest,
        ),
{
    words::lemma_pow2_values();
    if !st.started {
        bits::bits_read_back(twos_complement(t) as u64, 64, rest);
    } else {
        lemma_dod_reads_back(dod_of(st, t), rest);
    }
}

/// The bits written for a list of timestamps.
pub open spec fn dod_codes(st: DodModel, ts: Seq<i64>) -> Seq<bool>
    decreases ts.len(),
{
    if ts.len() == 0 {
        Seq::empty()
    } else {
        dod_code(st, ts[0]) + dod_codes(dod_next(st, ts[0]), ts.skip(1))
    }
}

/// The state after a list of timestamps.
pub open spec fn dod_after(st: DodModel, ts: Seq<i64>) -> DodModel
    decreases ts.len(),
{
    if ts.len() == 0 {
        st
    } else {
        dod_after(dod_next(st, ts[0]), ts.skip(1))
    }
}

/// What reading `n` timestamps gives, up to the first failure.
pub open spec fn dod_take_many(st: DodModel, s: Seq<bool>, n: nat) -> (
    Result<Seq<i64>, DecodeError>,
    DodModel,
    Seq<bool>,
)
    decreases n,
{
    if n == 0 {
        (Ok(Seq::empty()), st, s)
    } else {
        match dod_take(st, s) {
            (Err(e), st, s) => (Err(e), st, s),
            (Ok(t), st, s) => match dod_take_many(st, s, (n - 1) as nat) {
                (Err(e), st, s) => (Err(e), st, s),
                (Ok(ts), st, s) => (Ok(seq![t] + ts), st, s),
            },
        }
    }
}

pub proof fn lemma_dod_codes_push(st: DodModel, a: Seq<i64>, t: i64)
    ensures
        dod_codes(st, a.push(t)) == dod_codes(st, a) + dod_code(dod_after(st, a), t),
        dod_after(st, a.push(t)) == dod_next(dod_after(st, a), t),
    decreases a.len(),
{
    if a.len() == 0 {
        let one = a.push(t);
        assert(one.skip(1) =~= Seq::empty());
        assert(dod_codes(dod_next(st, t), one.skip(1)) =~= Seq::empty());
        assert(dod_codes(st, one) =~= dod_codes(st, a) + dod_code(st, t));
        assert(dod_after(st, one) == dod_after(dod_next(st, t), one.skip(1)));
    } else {
        let next = dod_next(st, a[0]);
        assert(a.push(t).skip(1) =~= a.skip(1).push(t));
        lemma_dod_codes_push(next, a.skip(1), t);
        assert(dod_code(st, a[0]) + (dod_codes(next, a.skip(1)) + dod_code(dod_after(st, a), t))
            =~= dod_codes(st, a) + dod_code(dod_after(st, a), t));
    }
}

proof fn lemma_dod_codes_len(st: DodModel, ts: Seq<i64>)
    ensures
        ts.len() <= dod_codes(st, ts).len() <= 69 * ts.len(),
    decreases ts.len(),
{
    if ts.len() > 0 {
        lemma_dod_code_len(st, ts[0]);
        lemma_dod_codes_len(dod_next(st, ts[0]), ts.skip(1));
    }
}

/// Reading as many timestamps as were written gives them back.
pub proof fn timestamps_read_back(st: DodModel, ts: Seq<i64>, rest: Seq<bool>)
    ensures
        dod_take_many(st, dod_codes(st, ts) + rest, ts.len()) == (
            Ok::<Seq<i64>, DecodeError>(ts),
            dod_after(st, ts),
            rest,
        ),
    decreases ts.len(),
{
    if ts.len() == 0 {
        assert(dod_codes(st, ts) + rest =~= rest);
        assert(ts =~= Seq::empty());
    } else {
        let t = ts[0];
        let more = ts.skip(1);
        let tail = dod_codes(dod_next(st, t), more) + rest;
        assert(dod_codes(st, ts) + rest =~= dod_code(st, t) + tail);
        timestamp_reads_back(st, t, tail);
        timestamps_read_back(dod_next(st, t), more, rest);
        assert(seq![t] + more =~= ts);
    }
}

proof fn lemma_take_dod_prefix(s: Seq<bool>, t: Seq<bool>, ones: nat)
    requires
        !bits::at_end(take_dod(s, ones).0),
    ensures
        take_dod(s + t, ones) == (take_dod(s, ones).0, take_dod(s, ones).1 + t),
    decreases 5 - ones,
{
    if ones >= 5 {
        bits::lemma_bits_prefix(s, t, 64);
    } else {
        bits::lemma_bit_prefix(s, t);
        let (flag, s1) = bits::take_bit(s);
        if flag == Ok::<bool, DecodeError>(true) {
            lemma_take_dod_prefix(s1, t, ones + 1);
        } else if ones == 1 {
            bits::lemma_bits_prefix(s1, t, 7);
        } else if ones == 2 {
            bits::lemma_bits_prefix(s1, t, 9);
        } else if ones == 3 {
            bits::lemma_bits_prefix(s1, t, 12);
        } else if ones == 4 {
            bits::lemma_bits_prefix(s1, t, 32);
        }
    }
}

proof fn lemma_dod_take_many_prefix(st: DodModel, s: Seq<bool>, t: Seq<bool>, n: nat)
    requires
        !bits::at_end(dod_take_many(st, s, n).0),
    ensures
        dod_take_many(st, s + t, n) == (
            dod_take_many(st, s, n).0,
            dod_take_many(st, s, n).1,
            dod_take_many(st, s, n).2 + t,
        ),
    decreases n,
{
    if n > 0 {
        if st.started {
            lemma_take_dod_prefix(s, t, 0);
        } else {
            bits::lemma_bits_prefix(s, t, 64);
        }
        let (x, st1, s1) = dod_take(st, s);
        if x is Ok {
            lemma_dod_take_many_prefix(st1, s1, t, (n - 1) as nat);
        }
    }
}

/// The encoded column of timestamps: value count, then the delta-of-delta bit
/// stream.
pub open spec fn timestamp_column(ts: Seq<i64>) -> Seq<u8> {
    bits::varint(ts.len()) + bitseq::pack(dod_codes(DodModel::fresh(), ts))
}

/// What decoding a column of timestamps gives.
pub open spec fn timestamps_decoded(data: Seq<u8>) -> Result<Seq<i64>, DecodeError> {
    match bits::take_varint(data) {
        (Err(e), _) => Err(e),
        (Ok(n), used) => dod_take_many(
            DodModel::fresh(),
            bitseq::byte_bits(data.skip(used as int)),
            n as nat,
        ).0,
    }
}

pub fn encode_timestamps(ts: &[i64]) -> (out: Vec<u8>)
    requires
        69 * ts@.len() <= u64::MAX,
    ensures
        out@ == timestamp_column(ts@),
{
    let mut prefix: Vec<u8> = Vec::new();
    put_varint(&mut prefix, ts.len() as u64);
    assert(prefix@ =~= bits::varint(ts@.len()));
    let mut w = BitWriter::with_prefix(prefix);
    let mut st = DodState::default();
    let ghost fresh = DodModel::fresh();
    let mut i: usize = 0;
    proof {
        assert(ts@.take(0) =~= Seq::empty());
    }
    while i < ts.len()
        invariant
            i <= ts@.len(),
            69 * ts@.len() <= u64::MAX,
            fresh == DodModel::fresh(),
            w.wf(),
            w.prefix() == bits::varint(ts@.len()),
            w@ == dod_codes(fresh, ts@.take(i as int)),
            st@ == dod_after(fresh, ts@.take(i as int)),
        decreases ts@.len() - i,
    {
        proof {
            let done = ts@.take(i as int);
            assert(ts@.take(i + 1) =~= done.push(ts@[i as int]));
            lemma_dod_codes_push(fresh, done, ts@[i as int]);
            lemma_dod_codes_len(fresh, done);
            lemma_dod_code_len(st@, ts@[i as int]);
            w.lemma_count();
            assert(w.holds(w@));
        }
        st.encode(ts[i], &mut w);
        i = i + 1;
    }
    assert(ts@.take(i as int) =~= ts@);
    w.finish()
}

pub fn decode_timestamps(data: &[u8]) -> (res: Result<Vec<i64>, DecodeError>)
    requires
        8 * data@.len() <= u64::MAX,
    ensures
        match res {
            Ok(ts) => timestamps_decoded(data@) == Ok::<Seq<i64>, DecodeError>(ts@),
            Err(e) => timestamps_decoded(data@) == Err::<Seq<i64>, DecodeError>(e),
        },
{
    let mut pos: usize = 0;
    assert(bits::bytes_from(data@, 0) =~= data@);
    let n: u64 = get_varint(data, &mut pos)?;
    proof {
        bits::lemma_varint_prefix(data@, Seq::empty());
        assert(data@.subrange(pos as int, data@.len() as int) =~= data@.skip(pos as int));
    }
    let body = slice_subrange(data, pos, data.len());
    let mut r = BitReader::new(body);
    let mut st = DodState::default();
    let mut out: Vec<i64> = Vec::new();
    let ghost whole = dod_take_many(st@, r@, n as nat);
    let mut i: u64 = 0;
    proof {
        if let (Ok(ts), _, _) = whole {
            assert(out@ + ts =~= ts);
        }
    }
    while i < n
        invariant
            i <= n,
            r.wf(),
            match timestamps_decoded(data@) {
                Ok(ts) => whole.0 == Ok::<Seq<i64>, DecodeError>(ts),
                Err(e) => whole.0 == Err::<Seq<i64>, DecodeError>(e),
            },
            match dod_take_many(st@, r@, (n - i) as nat) {
                (Ok(ts), a, b) => whole == (Ok::<Seq<i64>, DecodeError>(out@ + ts), a, b),
                (Err(e), a, b) => whole == (Err::<Seq<i64>, DecodeError>(e), a, b),
            },
        decreases n - i,
    {
        let ghost before = out@;
        let t: i64 = st.decode(&mut r)?;
        out.push(t);
        i = i + 1;
        proof {
            if let (Ok(ts), _, _) = dod_take_many(st@, r@, (n - i) as nat) {
                assert(before + (seq![t] + ts) =~= out@ + ts);
            }
        }
    }
    assert(out@ + Seq::empty() =~= out@);
    Ok(out)
}

/// Decoding an encoded column of timestamps gives it back, whatever the
/// timestamps are.
pub proof fn timestamp_column_round_trips(ts: Seq<i64>)
    requires
        ts.len() <= u64::MAX,
    ensures
        timestamps_decoded(timestamp_column(ts)) == Ok::<Seq<i64>, DecodeError>(ts),
{
    let head = bits::varint(ts.len());
    let bits = dod_codes(DodModel::fresh(), ts);
    let data = timestamp_column(ts);
    bits::varint_reads_back(ts.len() as u64, bitseq::pack(bits));
    assert(data.skip(head.len() as int) =~= bitseq::pack(bits));
    bitseq::lemma_byte_bits_pack(bits);
    timestamps_read_back(DodModel::fresh(), ts, bitseq::zero_bits(bitseq::padding(bits.len())));
}

/// The delta of deltas of a timestamp is taken from the two before it, the one
/// before counting twice where it is the first.
pub proof fn timestamps_are_taken_from_the_last_two(st: DodModel, a: i64, b: i64, t: i64)
    ensures
        ({
            let dod = t.wrapping_sub(b).wrapping_sub(b.wrapping_sub(a));
            dod_code(dod_next(dod_next(st, a), b), t) == dod_bits(dod)
        }),
        ({
            let dod = t.wrapping_sub(b).wrapping_sub(b.wrapping_sub(b));
            dod_code(dod_next(DodModel::fresh(), b), t) == dod_bits(dod)
        }),
{
}

/// The buckets of the deltas of deltas: a flag, and for all but zero the offset
/// in the bucket, or the low 32 or 64 bits of the number.
pub proof fn timestamps_go_into_their_buckets(d: i64)
    ensures
        ({
            let word = d as u64 as nat;
            dod_bits(d) == if d == 0 {
                bitseq::bits_of(0, 1)
            } else if -63 <= d <= 64 {
                bitseq::bits_of(0b10, 2) + bitseq::bits_of((d + 63) as nat, 7)
            } else if -255 <= d <= 256 {
                bitseq::bits_of(0b110, 3) + bitseq::bits_of((d + 255) as nat, 9)
            } else if -2047 <= d <= 2048 {
                bitseq::bits_of(0b1110, 4) + bitseq::bits_of((d + 2047) as nat, 12)
            } else if i32::MIN <= d <= i32::MAX {
                bitseq::bits_of(0b11110, 5) + bitseq::bits_of(word, 32)
            } else {
                bitseq::bits_of(0b11111, 5) + bitseq::bits_of(word, 64)
            }
        }),
        dod_bits(d).len() == dod_cost(d),
{
    lemma_twos_complement(d);
    lemma_dod_code_len(DodModel { started: true, prev: 0, prev_delta: 0 }, d);
}

/// Bytes after an encoded column of timestamps are ignored.
pub proof fn bytes_after_timestamp_column_are_ignored(values: Seq<i64>, extra: Seq<u8>)
    requires
        values.len() <= u64::MAX,
    ensures
        timestamps_decoded(timestamp_column(values) + extra) == Ok::<Seq<i64>, DecodeError>(values),
{
    let head = bits::varint(values.len());
    let fresh = DodModel::fresh();
    let bits = dod_codes(fresh, values);
    let body = bitseq::pack(bits) + extra;
    let data = timestamp_column(values) + extra;
    assert(data =~= head + body);
    bits::varint_reads_back(values.len() as u64, body);
    assert(data.skip(head.len() as int) =~= body);
    bitseq::lemma_byte_bits_pack(bits);
    bitseq::lemma_byte_bits_concat(bitseq::pack(bits), extra);
    let rest = bitseq::zero_bits(bitseq::padding(bits.len())) + bitseq::byte_bits(extra);
    assert(bitseq::padded(bits) + bitseq::byte_bits(extra) =~= bits + rest);
    timestamps_read_back(fresh, values, rest);
}

/// An encoded column of timestamps that is cut short, anywhere, is reported as
/// the end of the input.
pub proof fn cut_timestamp_column_is_an_error(ts: Seq<i64>, cut: int)
    requires
        ts.len() <= u64::MAX,
        0 <= cut < timestamp_column(ts).len(),
    ensures
        timestamps_decoded(timestamp_column(ts).take(cut)) == Err::<Seq<i64>, DecodeError>(
            DecodeError::UnexpectedEof,
        ),
{
    let n = ts.len() as u64;
    let head = bits::varint(n as nat);
    let fresh = DodModel::fresh();
    let bits = dod_codes(fresh, ts);
    let data = timestamp_column(ts);
    let short = data.take(cut);
    if cut < head.len() {
        assert(short =~= head.take(cut));
        bits::cut_varint_is_an_error(n, cut);
    } else {
        let k = cut - head.len();
        assert(short =~= head + bitseq::pack(bits).take(k));
        bits::varint_reads_back(n, bitseq::pack(bits).take(k));
        assert(short.skip(head.len() as int) =~= bitseq::pack(bits).take(k));
        bitseq::lemma_cut_bits(bits, k);
        timestamps_read_back(fresh, ts, bitseq::zero_bits(bitseq::padding(bits.len())));
        let s = bitseq::byte_bits(bitseq::pack(bits).take(k));
        let t = bitseq::padded(bits).skip(8 * k);
        if !bits::at_end(dod_take_many(fresh, s, n as nat).0) {
            lemma_dod_take_many_prefix(fresh, s, t, n as nat);
        }
    }
}

} // verus!
