//! Price column codec: decimal-grid detection with a Gorilla XOR fallback.
//!
//! Stream layout: LEB128 value count, LEB128 block size, then one bit stream
//! holding every block. Each block starts with a 2-bit tag:
//!
//! * `00` grid block: 4 bits scale, sized zigzag base mantissa, sized tick,
//!   sized zigzag frame-of-reference minimum, 7 bits delta width, 2 bits
//!   payload mode, then the tick deltas.
//! * `01` Gorilla block: the values XOR-encoded, continuing the XOR state of
//!   the whole column.
//! * `10`, `11` are reserved and rejected by the decoder.
//!
//! A "sized" field is 7 bits of width followed by that many bits. Prices are
//! doubles, given by their bit patterns.

use crate::bits;
use crate::bits::{BitCounter, BitReader, BitSink, BitWriter, get_varint, put_varint};
use crate::bitseq;
use crate::float;
use crate::float::grid_mantissa;
use crate::gorilla;
use crate::gorilla::{XorModel, XorState, decode_all, encode_all};
use crate::grid;
use crate::grid::{TAG_GRID, decode_grid, plan_grid, write_grid};
use crate::size;
use crate::words;
use crate::DecodeError;
use vstd::prelude::*;
use vstd::slice::slice_subrange;

verus! {

pub const DEFAULT_BLOCK_SIZE: usize = 1024;

/// Largest number of decimal places of a grid.
pub const MAX_SCALE: u32 = 12;

/// How the tick deltas of a grid block are laid out.
#[derive(Debug, Clone, Copy, PartialEq, Eq, Structural)]
pub enum Mode {
    /// Every delta as `q - min` in `width` bits.
    Packed,
    /// One flag bit per delta; non-zero deltas follow the flag in `width` bits.
    ZeroFlag,
    /// Zero runs: run length in `run_width` bits, then the non-zero delta.
    Runs,
}

/// What the encoder decided for one block.
#[derive(Debug, Clone, Copy, PartialEq, Eq, Structural)]
pub enum BlockKind {
    Grid {
        scale: u32,
        /// Tick size in mantissa units at `scale`.
        tick: u64,
        mode: Mode,
    },
    Gorilla {
        /// Why the grid path was not used.
        reason: FallbackReason,
    },
}

#[derive(Debug, Clone, Copy, PartialEq, Eq, Structural)]
pub enum FallbackReason {
    /// Some value has no exact decimal representation at scale 0..=12
    /// (NaN, infinity, -0.0, subnormal, off-grid, or a mantissa outside i64).
    NoDecimalScale,
    /// Consecutive mantissas differ by more than i64 can hold.
    DeltaOverflow,
    /// The grid encoding existed but Gorilla was not larger.
    Smaller,
}

#[derive(Debug, Clone, Copy, PartialEq, Eq, Structural)]
pub struct BlockInfo {
    pub start: usize,
    pub len: usize,
    pub kind: BlockKind,
    /// Bits used by the block, tag included.
    pub bits: u64,
}

/// Every value has an exact mantissa at the scale `k`.
pub open spec fn all_exact(values: Seq<u64>, k: nat) -> bool {
    forall|i: int| 0 <= i < values.len() ==> float::mantissa_of(#[trigger] values[i], k) is Some
}

/// The smallest scale from `k` to 12 at which every value is exact.
pub open spec fn scale_from(values: Seq<u64>, k: nat) -> Option<u32>
    decreases 13 - k,
{
    if k > 12 {
        None
    } else if all_exact(values, k) {
        Some(k as u32)
    } else {
        scale_from(values, k + 1)
    }
}

/// The smallest scale from 0 to 12 at which every value is exact.
pub open spec fn scale_of(values: Seq<u64>) -> Option<u32> {
    scale_from(values, 0)
}

/// Mantissa of the double `v` at `scale` if it reconstructs bit-for-bit, using
/// exactly the arithmetic the decoder uses.
pub fn exact_mantissa(v: u64, scale: u32) -> (res: Option<i64>)
    requires
        scale <= MAX_SCALE,
    ensures
        res == float::mantissa_of(v, scale as nat),
{
    grid_mantissa(v, scale)
}

/// The smallest scale in 0..=12 at which every value is exact.
pub fn detect_scale(values: &[u64]) -> (res: Option<u32>)
    ensures
        res == scale_of(values@),
        match res {
            Some(k) => k <= 12 && all_exact(values@, k as nat) && forall|j: nat|
                j < k ==> !#[trigger] all_exact(values@, j),
            None => forall|j: nat| j <= 12 ==> !#[trigger] all_exact(values@, j),
        },
{
    let mut k: u32 = 0;
    while k <= MAX_SCALE
        invariant
            k <= 13,
            scale_of(values@) == scale_from(values@, k as nat),
            forall|j: nat| j < k ==> !#[trigger] all_exact(values@, j),
        decreases 13 - k,
    {
        if exact_at(values, k) {
            return Some(k);
        }
        k = k + 1;
    }
    None
}

/// Whether every value has an exact mantissa at the scale `k`.
fn exact_at(values: &[u64], k: u32) -> (all: bool)
    requires
        k <= MAX_SCALE,
    ensures
        all == all_exact(values@, k as nat),
{
    let mut i: usize = 0;
    while i < values.len()
        invariant
            i <= values@.len(),
            k <= MAX_SCALE,
            forall|j: int| 0 <= j < i ==> float::mantissa_of(#[trigger] values@[j],
                k as nat) is Some,
        decreases values@.len() - i,
    {
        if exact_mantissa(values[i], k).is_none() {
            assert(float::mantissa_of(values@[i as int], k as nat) is None);
            return false;
        }
        i = i + 1;
    }
    true
}

/// Tag of a Gorilla block.
pub const TAG_GORILLA: u64 = 1;

/// The bits of a block in the Gorilla encoding, from the XOR state `st`.
pub open spec fn gorilla_code(st: XorModel, block: Seq<u64>) -> Seq<bool> {
    bitseq::bits_of(TAG_GORILLA as nat, 2) + gorilla::xor_codes(st, block)
}

/// The bits of a block in the grid encoding, if it has one.
pub open spec fn grid_code_of(block: Seq<u64>) -> Result<Seq<bool>, FallbackReason> {
    match grid::grid_scale(block) {
        Ok(k) => Ok(grid::grid_code(k as nat, grid::mantissas(block, k as nat))),
        Err(reason) => Err(reason),
    }
}

/// The grid encoding of a block exists and is strictly shorter than the Gorilla
/// encoding.
pub open spec fn takes_grid(st: XorModel, block: Seq<u64>) -> bool {
    grid_code_of(block) matches Ok(code) && code.len() < gorilla_code(st, block).len()
}

/// The bits of a block: the shorter of its two encodings.
#[verifier::opaque]
pub open spec fn block_code(st: XorModel, block: Seq<u64>) -> Seq<bool> {
    if takes_grid(st, block) {
        grid_code_of(block)->Ok_0
    } else {
        gorilla_code(st, block)
    }
}

/// What the encoder decides for a block.
#[verifier::opaque]
pub open spec fn block_kind(st: XorModel, block: Seq<u64>) -> BlockKind {
    if takes_grid(st, block) {
        let k = grid::grid_scale(block)->Ok_0;
        let m = grid::mantissas(block, k as nat);
        BlockKind::Grid {
            scale: k,
            tick: grid::tick_of(m) as u64,
            mode: grid::best_mode(grid::tick_deltas(m)),
        }
    } else {
        BlockKind::Gorilla {
            reason: match grid::grid_scale(block) {
                Ok(_) => FallbackReason::Smaller,
                Err(reason) => reason,
            },
        }
    }
}

/// The bits of all blocks. The XOR state passes every value, those of grid
/// blocks too.
pub open spec fn column_code(st: XorModel, values: Seq<u64>, block_size: nat) -> Seq<bool>
    decreases values.len(),
{
    if values.len() == 0 || block_size == 0 {
        Seq::empty()
    } else {
        let n = size::block_len(values.len(), block_size) as int;
        let block = values.take(n);
        block_code(st, block) + column_code(gorilla::xor_after(st, block), values.skip(n),
            block_size)
    }
}

/// The report of all blocks, the first of which starts at the index `start`.
pub open spec fn column_infos(st: XorModel, values: Seq<u64>, block_size: nat, start: nat) -> Seq<
    BlockInfo,
>
    decreases values.len(),
{
    if values.len() == 0 || block_size == 0 {
        Seq::empty()
    } else {
        let n = size::block_len(values.len(), block_size);
        let block = values.take(n as int);
        let info = BlockInfo {
            start: start as usize,
            len: n as usize,
            kind: block_kind(st, block),
            bits: block_code(st, block).len() as u64,
        };
        seq![info] + column_infos(
            gorilla::xor_after(st, block),
            values.skip(n as int),
            block_size,
            start + n,
        )
    }
}

/// The encoded column: value count, block size, then the bits of all blocks.
pub open spec fn price_column(values: Seq<u64>, block_size: nat) -> Seq<u8> {
    bits::varint(values.len()) + bits::varint(block_size) + bitseq::pack(
        column_code(XorModel::fresh(), values, block_size),
    )
}

/// The report on an encoded column.
pub open spec fn price_infos(values: Seq<u64>, block_size: nat) -> Seq<BlockInfo> {
    column_infos(XorModel::fresh(), values, block_size, 0)
}

/// A block never takes more than two bits over its XOR codes.
pub proof fn lemma_block_code_len(st: XorModel, block: Seq<u64>)
    requires
        st.wf(),
    ensures
        block_code(st, block).len() <= 2 + gorilla::xor_codes(st, block).len(),
        gorilla::xor_codes(st, block).len() <= 77 * block.len(),
        gorilla_code(st, block).len() == 2 + gorilla::xor_codes(st, block).len(),
        gorilla::xor_after(st, block).wf(),
{
    reveal(block_code);
    bitseq::lemma_bits_of_len(TAG_GORILLA as nat, 2);
    gorilla::lemma_xor_codes_len(st, block);
}

/// Encode with [`DEFAULT_BLOCK_SIZE`].
pub fn encode(values: &[u64]) -> (out: Vec<u8>)
    requires
        256 * values@.len() <= u64::MAX,
    ensures
        out@ == price_column(values@, DEFAULT_BLOCK_SIZE as nat),
        out@ == price_column(values@, 1024),
{
    encode_with(values, DEFAULT_BLOCK_SIZE).0
}

/// Writes one block and advances the XOR state past it.
fn put_block(
    w: &mut BitWriter,
    xor: &mut XorState,
    block: &[u64],
    q: &mut Vec<i64>,
    m: &mut Vec<i64>,
) -> (kind: BlockKind)
    requires
        old(w).wf(),
        old(xor)@.wf(),
        block@.len() > 0,
        256 * block@.len() <= u64::MAX,
        old(w)@.len() + 2 + 77 * block@.len() <= u64::MAX,
    ensures
        final(w).wf(),
        final(w).prefix() == old(w).prefix(),
        final(w)@ == old(w)@ + block_code(old(xor)@, block@),
        final(xor)@ == gorilla::xor_after(old(xor)@, block@),
        final(xor)@.wf(),
        kind == block_kind(old(xor)@, block@),
{
    let ghost st0 = xor@;
    let ghost codes = gorilla::xor_codes(st0, block@);
    let ghost start = w@;
    proof {
        reveal(block_code);
        reveal(block_kind);
        lemma_block_code_len(st0, block@);
        w.lemma_count();
        assert(w.holds(w@));
    }
    let mut after: XorState = *xor;
    let mut counter = BitCounter::default();
    assert(counter.holds(Seq::empty()));
    encode_all(&mut after, block, &mut counter);
    let gorilla_bits: u64 = 2 + counter.bits;
    let reason: FallbackReason = match plan_grid(block, q, m) {
        Ok(plan) => {
            if plan.bits < gorilla_bits {
                proof {
                    grid::lemma_offsets_fit(q@);
                    grid::lemma_plan_covers(plan, grid::mantissas(block@, plan.scale as nat));
                    assert(plan.code(q@) == grid_code_of(block@)->Ok_0);
                }
                write_grid(w, &plan, q.as_slice());
                *xor = after;
                return BlockKind::Grid { scale: plan.scale, tick: plan.tick, mode: plan.mode };
            }
            FallbackReason::Smaller
        },
        Err(reason) => reason,
    };
    w.put(TAG_GORILLA, 2);
    proof {
        assert(w.holds(w@));
        w.lemma_count();
    }
    encode_all(xor, block, w);
    assert(w@ =~= start + gorilla_code(st0, block@));
    BlockKind::Gorilla { reason }
}

/// The first block of a column, after what has been written already.
proof fn lemma_first_block(
    st: XorModel,
    values: Seq<u64>,
    block_size: nat,
    start: nat,
    written: Seq<bool>,
    infos: Seq<BlockInfo>,
)
    requires
        block_size > 0,
        values.len() > 0,
    ensures
        ({
            let n = size::block_len(values.len(), block_size);
            let block = values.take(n as int);
            let after = gorilla::xor_after(st, block);
            let rest = values.skip(n as int);
            let info = BlockInfo {
                start: start as usize,
                len: n as usize,
                kind: block_kind(st, block),
                bits: block_code(st, block).len() as u64,
            };
            &&& written + column_code(st, values, block_size) == (written + block_code(st, block))
                + column_code(after, rest, block_size)
            &&& infos + column_infos(st, values, block_size, start) == infos.push(info)
                + column_infos(after, rest, block_size, start + n)
        }),
{
    let n = size::block_len(values.len(), block_size);
    let block = values.take(n as int);
    let after = gorilla::xor_after(st, block);
    let rest = values.skip(n as int);
    let code = block_code(st, block);
    let more = column_code(after, rest, block_size);
    let info = BlockInfo {
        start: start as usize,
        len: n as usize,
        kind: block_kind(st, block),
        bits: code.len() as u64,
    };
    let later = column_infos(after, rest, block_size, start + n);
    assert(written + (code + more) =~= (written + code) + more);
    assert(infos + (seq![info] + later) =~= infos.push(info) + later);
}

/// Encode with a chosen block size, which must be positive, and report the
/// decision for each block.
pub fn encode_with(values: &[u64], block_size: usize) -> (res: (Vec<u8>, Vec<BlockInfo>))
    requires
        block_size > 0,
        256 * values@.len() <= u64::MAX,
    ensures
        res.0@ == price_column(values@, block_size as nat),
        res.1@ == price_infos(values@, block_size as nat),
{
    let mut prefix: Vec<u8> = Vec::new();
    put_varint(&mut prefix, values.len() as u64);
    put_varint(&mut prefix, block_size as u64);
    assert(prefix@ =~= bits::varint(values@.len()) + bits::varint(block_size as nat));
    let mut w = BitWriter::with_prefix(prefix);
    let mut xor = XorState::new();
    let mut infos: Vec<BlockInfo> = Vec::new();
    let mut q: Vec<i64> = Vec::new();
    let mut m: Vec<i64> = Vec::new();
    let mut at: usize = 0;
    let ghost bs = block_size as nat;
    let ghost bits = column_code(xor@, values@, bs);
    let ghost report = column_infos(xor@, values@, bs, 0);
    proof {
        assert(values@.skip(0) =~= values@);
        assert(w@ + bits =~= bits);
        assert(infos@ + report =~= report);
    }
    while at < values.len()
        invariant
            at <= values@.len(),
            block_size > 0,
            bs == block_size,
            256 * values@.len() <= u64::MAX,
            w.wf(),
            w.prefix() == bits::varint(values@.len()) + bits::varint(bs),
            w@.len() <= 79 * at,
            xor@.wf(),
            w@ + column_code(xor@, values@.skip(at as int), bs) == bits,
            infos@ + column_infos(xor@, values@.skip(at as int), bs, at as nat) == report,
        decreases values@.len() - at,
    {
        let left: usize = values.len() - at;
        let n: usize = if left < block_size {
            left
        } else {
            block_size
        };
        let block = slice_subrange(values, at, at + n);
        proof {
            let rest = values@.skip(at as int);
            assert(rest.take(n as int) =~= block@);
            assert(rest.skip(n as int) =~= values@.skip(at + n));
            lemma_first_block(xor@, rest, bs, at as nat, w@, infos@);
            lemma_block_code_len(xor@, block@);
            w.lemma_count();
        }
        let start_bits: u64 = w.bit_len();
        let kind = put_block(&mut w, &mut xor, block, &mut q, &mut m);
        proof {
            w.lemma_count();
        }
        let bits_used: u64 = w.bit_len() - start_bits;
        infos.push(BlockInfo { start: at, len: n, kind, bits: bits_used });
        at = at + n;
    }
    proof {
        assert(w@ + Seq::empty() =~= w@);
        assert(infos@ + Seq::empty() =~= infos@);
    }
    (w.finish(), infos)
}

/// What reading one block of `len` values gives, from the XOR state `st` and the
/// bits `s`: the values, the XOR state past them and the bits left.
#[verifier::opaque]
pub open spec fn take_block(st: XorModel, s: Seq<bool>, len: nat) -> (
    Result<Seq<u64>, DecodeError>,
    XorModel,
    Seq<bool>,
) {
    match bits::take_bits(s, 2) {
        (Err(e), s) => (Err(e), st, s),
        (Ok(tag), s) => if tag == TAG_GRID {
            match grid::take_grid(s, len) {
                (Err(e), s) => (Err(e), st, s),
                (Ok(xs), s) => (Ok(xs), gorilla::xor_after(st, xs), s),
            }
        } else if tag == TAG_GORILLA {
            gorilla::xor_take_many(st, s, len)
        } else {
            (Err(DecodeError::Corrupt("reserved block tag")), st, s)
        },
    }
}

/// What reading blocks that hold `left` values gives, and the bits left.
pub open spec fn take_blocks(st: XorModel, s: Seq<bool>, left: nat, block_size: nat) -> (
    Result<Seq<u64>, DecodeError>,
    Seq<bool>,
)
    decreases left,
{
    if left == 0 || block_size == 0 {
        (Ok(Seq::empty()), s)
    } else {
        let n = size::block_len(left, block_size);
        match take_block(st, s, n) {
            (Err(e), _, s) => (Err(e), s),
            (Ok(xs), st, s) => match take_blocks(st, s, (left - n) as nat, block_size) {
                (Err(e), s) => (Err(e), s),
                (Ok(more), s) => (Ok(xs + more), s),
            },
        }
    }
}

/// What decoding a price column gives.
pub open spec fn prices_decoded(data: Seq<u8>) -> Result<Seq<u64>, DecodeError> {
    match bits::take_varint(data).0 {
        Err(e) => Err(e),
        Ok(n) => match bits::take_varint(size::after_varint(data)).0 {
            Err(e) => Err(e),
            Ok(block_size) => if block_size == 0 && n > 0 {
                Err(DecodeError::Corrupt("zero block size"))
            } else {
                take_blocks(
                    XorModel::fresh(),
                    bitseq::byte_bits(size::after_varint(size::after_varint(data))),
                    n as nat,
                    block_size as nat,
                ).0
            },
        },
    }
}

/// Moves the XOR state past the values of `out` from the index `from` on.
fn pass_values(xor: &mut XorState, out: &Vec<u64>, from: usize)
    requires
        old(xor)@.wf(),
        from <= out@.len(),
    ensures
        final(xor)@ == gorilla::xor_after(old(xor)@, out@.skip(from as int)),
        final(xor)@.wf(),
{
    let ghost whole = gorilla::xor_after(xor@, out@.skip(from as int));
    let mut i: usize = from;
    while i < out.len()
        invariant
            from <= i <= out@.len(),
            xor@.wf(),
            gorilla::xor_after(xor@, out@.skip(i as int)) == whole,
        decreases out@.len() - i,
    {
        proof {
            gorilla::lemma_xor_code_len(xor@, out@[i as int]);
            assert(out@.skip(i as int).skip(1) =~= out@.skip(i + 1));
        }
        let mut counter = BitCounter::default();
        xor.encode(out[i], &mut counter);
        i = i + 1;
    }
}

/// Reads one block of `len` values and appends them to `out`.
fn get_block(xor: &mut XorState, r: &mut BitReader, len: u64, out: &mut Vec<u64>) -> (res: Result<
    (),
    DecodeError,
>)
    requires
        old(xor)@.wf(),
        old(r).wf(),
        len > 0,
    ensures
        final(xor)@.wf(),
        final(r).wf(),
        match take_block(old(xor)@, old(r)@, len as nat) {
            (Ok(xs), st, s) => {
                &&& res is Ok
                &&& final(xor)@ == st
                &&& final(r)@ == s
                &&& final(out)@ == old(out)@ + xs
            },
            (Err(e), st, s) => {
                &&& res == Err::<(), DecodeError>(e)
                &&& final(xor)@ == st
                &&& final(r)@ == s
            },
        },
{
    proof {
        reveal(take_block);
    }
    let start: usize = out.len();
    let tag: u64 = r.read(2)?;
    if tag == TAG_GRID {
        let ghost xs = grid::take_grid(r@, len as nat).0->Ok_0;
        decode_grid(r, len, out)?;
        assert(out@.skip(start as int) =~= xs);
        pass_values(xor, out, start);
        Ok(())
    } else if tag == TAG_GORILLA {
        decode_all(xor, r, len, out)
    } else {
        Err(DecodeError::Corrupt("reserved block tag"))
    }
}

pub fn decode(data: &[u8]) -> (res: Result<Vec<u64>, DecodeError>)
    requires
        8 * data@.len() <= u64::MAX,
    ensures
        match res {
            Ok(values) => prices_decoded(data@) == Ok::<Seq<u64>, DecodeError>(values@),
            Err(e) => prices_decoded(data@) == Err::<Seq<u64>, DecodeError>(e),
        },
{
    let mut pos: usize = 0;
    proof {
        assert(data@.skip(0) =~= data@);
        bits::lemma_take_varint_used(data@);
        bits::lemma_take_varint_used(size::after_varint(data@));
    }
    let n: u64 = get_varint(data, &mut pos)?;
    let ghost s1 = size::after_varint(data@);
    assert(data@.skip(pos as int) =~= s1);
    let block_size: u64 = get_varint(data, &mut pos)?;
    assert(data@.skip(pos as int) =~= size::after_varint(s1));
    if block_size == 0 && n > 0 {
        return Err(DecodeError::Corrupt("zero block size"));
    }
    assert(data@.subrange(pos as int, data@.len() as int) =~= data@.skip(pos as int));
    let mut r = BitReader::new(slice_subrange(data, pos, data.len()));
    let mut xor = XorState::new();
    let mut out: Vec<u64> = Vec::new();
    let mut remaining: u64 = n;
    let ghost bs = block_size as nat;
    let ghost whole = take_blocks(xor@, r@, n as nat, bs);
    proof {
        if let (Ok(xs), _) = whole {
            assert(out@ + xs =~= xs);
        }
    }
    while remaining > 0
        invariant
            remaining <= n,
            n > 0 ==> block_size > 0,
            bs == block_size,
            r.wf(),
            xor@.wf(),
            prices_decoded(data@) == whole.0,
            match take_blocks(xor@, r@, remaining as nat, bs) {
                (Ok(xs), s) => whole == (Ok::<Seq<u64>, DecodeError>(out@ + xs), s),
                (Err(e), s) => whole == (Err::<Seq<u64>, DecodeError>(e), s),
            },
        decreases remaining,
    {
        let len: u64 = if remaining < block_size {
            remaining
        } else {
            block_size
        };
        remaining = remaining - len;
        let ghost before = out@;
        let ghost block = take_block(xor@, r@, len as nat);
        get_block(&mut xor, &mut r, len, &mut out)?;
        proof {
            let xs = block.0->Ok_0;
            if let (Ok(more), _) = take_blocks(xor@, r@, remaining as nat, bs) {
                assert(before + (xs + more) =~= out@ + more);
            }
        }
    }
    assert(out@ + Seq::<u64>::empty() =~= out@);
    Ok(out)
}

/// A block reads back, and brings the reader to the writer's XOR state.
pub proof fn block_reads_back(st: XorModel, block: Seq<u64>, rest: Seq<bool>)
    requires
        st.wf(),
        block.len() > 0,
        block.len() <= i64::MAX,
    ensures
        take_block(st, block_code(st, block) + rest, block.len()) == (
            Ok::<Seq<u64>, DecodeError>(block),
            gorilla::xor_after(st, block),
            rest,
        ),
{
    reveal(block_code);
    reveal(take_block);
    if takes_grid(st, block) {
        grid::grid_block_reads_back(block, rest);
    } else {
        let codes = gorilla::xor_codes(st, block) + rest;
        assert(gorilla_code(st, block) + rest =~= bitseq::bits_of(TAG_GORILLA as nat, 2) + codes);
        words::lemma_pow2_values();
        bits::bits_read_back(TAG_GORILLA, 2, codes);
        gorilla::xor_values_read_back(st, block, rest);
    }
}

proof fn lemma_blocks_read_back(st: XorModel, values: Seq<u64>, block_size: nat, rest: Seq<bool>)
    requires
        st.wf(),
        block_size > 0,
        values.len() <= i64::MAX,
    ensures
        take_blocks(st, column_code(st, values, block_size) + rest, values.len(), block_size) == (
            Ok::<Seq<u64>, DecodeError>(values),
            rest,
        ),
    decreases values.len(),
{
    if values.len() == 0 {
        assert(column_code(st, values, block_size) + rest =~= rest);
        assert(values =~= Seq::empty());
    } else {
        let n = size::block_len(values.len(), block_size) as int;
        let block = values.take(n);
        let more = values.skip(n);
        let after = gorilla::xor_after(st, block);
        let tail = column_code(after, more, block_size) + rest;
        assert(column_code(st, values, block_size) + rest =~= block_code(st, block) + tail);
        lemma_block_code_len(st, block);
        block_reads_back(st, block, tail);
        lemma_blocks_read_back(after, more, block_size, rest);
        assert(block + more =~= values);
    }
}

/// Decoding an encoded price column gives every bit pattern back, whatever the
/// doubles and the block size are.
pub proof fn price_column_round_trips(values: Seq<u64>, block_size: nat)
    requires
        values.len() <= i64::MAX,
        0 < block_size <= u64::MAX,
    ensures
        prices_decoded(price_column(values, block_size)) == Ok::<Seq<u64>, DecodeError>(values),
{
    let fresh = XorModel::fresh();
    let bits = column_code(fresh, values, block_size);
    size::lemma_counts_read_back(values.len() as u64, block_size as u64, bitseq::pack(bits));
    bitseq::lemma_byte_bits_pack(bits);
    lemma_blocks_read_back(fresh, values, block_size,
        bitseq::zero_bits(bitseq::padding(bits.len())));
}

/// Bytes after an encoded price column are ignored.
#[verifier::spinoff_prover]
#[verifier::rlimit(40)]
pub proof fn bytes_after_price_column_are_ignored(
    values: Seq<u64>,
    block_size: nat,
    extra: Seq<u8>,
)
    requires
        values.len() <= i64::MAX,
        0 < block_size <= u64::MAX,
    ensures
        prices_decoded(price_column(values, block_size) + extra) == Ok::<Seq<u64>, DecodeError>(
            values,
        ),
{
    let fresh = XorModel::fresh();
    let bits = column_code(fresh, values, block_size);
    let head = bits::varint(values.len()) + bits::varint(block_size);
    let body = bitseq::pack(bits) + extra;
    assert(price_column(values, block_size) + extra =~= head + body);
    size::lemma_counts_read_back(values.len() as u64, block_size as u64, body);
    bitseq::lemma_byte_bits_pack(bits);
    bitseq::lemma_byte_bits_concat(bitseq::pack(bits), extra);
    let rest = bitseq::zero_bits(bitseq::padding(bits.len())) + bitseq::byte_bits(extra);
    assert(bitseq::padded(bits) + bitseq::byte_bits(extra) =~= bits + rest);
    lemma_blocks_read_back(fresh, values, block_size, rest);
}

/// Bits after those that are read do not change what is read.
proof fn lemma_take_block_prefix(st: XorModel, s: Seq<bool>, t: Seq<bool>, len: nat)
    requires
        len > 0,
        !bits::at_end(take_block(st, s, len).0),
    ensures
        take_block(st, s + t, len) == (
            take_block(st, s, len).0,
            take_block(st, s, len).1,
            take_block(st, s, len).2 + t,
        ),
{
    reveal(take_block);
    bits::lemma_bits_prefix(s, t, 2);
    let (tag, s1) = bits::take_bits(s, 2);
    if tag->Ok_0 == TAG_GRID {
        grid::lemma_take_grid_prefix(s1, t, len);
    } else if tag->Ok_0 == TAG_GORILLA {
        gorilla::lemma_xor_take_many_prefix(st, s1, t, len);
    }
}

/// Bits after those that are read do not change what is read.
proof fn lemma_take_blocks_prefix(
    st: XorModel,
    s: Seq<bool>,
    t: Seq<bool>,
    left: nat,
    block_size: nat,
)
    requires
        !bits::at_end(take_blocks(st, s, left, block_size).0),
    ensures
        take_blocks(st, s + t, left, block_size) == (
            take_blocks(st, s, left, block_size).0,
            take_blocks(st, s, left, block_size).1 + t,
        ),
    decreases left,
{
    if left > 0 && block_size > 0 {
        let n = size::block_len(left, block_size);
        lemma_take_block_prefix(st, s, t, n);
        let (xs, st1, s1) = take_block(st, s, n);
        if xs is Ok {
            lemma_take_blocks_prefix(st1, s1, t, (left - n) as nat, block_size);
        }
    }
}

/// An encoded price column that is cut short, anywhere, is reported as the end
/// of the input.
pub proof fn cut_price_column_is_an_error(values: Seq<u64>, block_size: nat, cut: int)
    requires
        values.len() <= i64::MAX,
        0 < block_size <= u64::MAX,
        0 <= cut < price_column(values, block_size).len(),
    ensures
        prices_decoded(price_column(values, block_size).take(cut)) == Err::<
            Seq<u64>,
            DecodeError,
        >(DecodeError::UnexpectedEof),
{
    let data = price_column(values, block_size);
    let (n, b) = (values.len() as u64, block_size as u64);
    let head = bits::varint(n as nat) + bits::varint(b as nat);
    let fresh = XorModel::fresh();
    let bits = column_code(fresh, values, block_size);
    let short = data.take(cut);
    let gone = data.skip(cut);
    assert(short + gone =~= data);
    size::lemma_counts_read_back(n, b, bitseq::pack(bits));
    if !bits::at_end(prices_decoded(short)) {
        size::lemma_after_varint_prefix(short, gone);
        size::lemma_after_varint_prefix(size::after_varint(short), gone);
        let body = size::after_varint(size::after_varint(short));
        let k = body.len() as int;
        assert(body + gone == bitseq::pack(bits));
        assert(body =~= bitseq::pack(bits).take(k));
        bitseq::lemma_cut_bits(bits, k);
        let s = bitseq::byte_bits(body);
        let t = bitseq::padded(bits).skip(8 * k);
        lemma_take_blocks_prefix(fresh, s, t, n as nat, block_size);
        lemma_blocks_read_back(fresh, values, block_size,
            bitseq::zero_bits(bitseq::padding(bits.len())));
    }
}

/// A block is written in the shorter of its two encodings, on the grid exactly
/// if that is strictly shorter, and never takes more than two bits over what
/// the XOR encoding of its values takes.
pub proof fn block_takes_the_shorter_encoding(st: XorModel, block: Seq<u64>)
    ensures
        block_code(st, block).len() <= 2 + gorilla::xor_codes(st, block).len(),
        grid_code_of(block) matches Ok(code) ==> block_code(st, block).len() <= code.len(),
        block_kind(st, block) is Grid <==> (grid_code_of(block) matches Ok(code) && code.len() < 2
            + gorilla::xor_codes(st, block).len()),
        block_kind(st, block) is Gorilla ==> block_code(st, block).len() == 2 + gorilla::xor_codes(
            st,
            block,
        ).len(),
{
    reveal(block_code);
    reveal(block_kind);
    bitseq::lemma_bits_of_len(TAG_GORILLA as nat, 2);
}

/// Every block of a report has fallen back to the Gorilla encoding.
pub open spec fn all_gorilla(infos: Seq<BlockInfo>) -> bool {
    forall|i: int| 0 <= i < infos.len() ==> #[trigger] infos[i].kind is Gorilla
}

/// The bits that the blocks of a report take together.
pub open spec fn total_bits(infos: Seq<BlockInfo>) -> nat
    decreases infos.len(),
{
    if infos.len() == 0 {
        0
    } else {
        infos[0].bits as nat + total_bits(infos.skip(1))
    }
}

proof fn lemma_column_costs(st: XorModel, values: Seq<u64>, block_size: nat, start: nat)
    requires
        st.wf(),
        block_size > 0,
    ensures
        ({
            let code = column_code(st, values, block_size).len();
            let infos = column_infos(st, values, block_size, start);
            let bound = gorilla::xor_codes(st, values).len() + 2 * infos.len();
            &&& code <= bound
            &&& all_gorilla(infos) ==> code == bound
            &&& 256 * values.len() <= u64::MAX ==> total_bits(infos) == code
        }),
    decreases values.len(),
{
    if values.len() > 0 {
        let n = size::block_len(values.len(), block_size);
        let block = values.take(n as int);
        let more = values.skip(n as int);
        let after = gorilla::xor_after(st, block);
        let infos = column_infos(st, values, block_size, start);
        let later = column_infos(after, more, block_size, start + n);
        lemma_block_code_len(st, block);
        block_takes_the_shorter_encoding(st, block);
        lemma_column_costs(after, more, block_size, start + n);
        assert(block + more =~= values);
        gorilla::xor_codes_concat(st, block, more);
        assert(infos.skip(1) =~= later);
        if all_gorilla(infos) {
            assert(infos[0].kind is Gorilla);
            assert forall|i: int| 0 <= i < later.len()
                implies #[trigger] later[i].kind is Gorilla by {
                assert(infos[i + 1] == later[i]);
            }
        }
    }
}

/// The bits of a price column are at most those of the Gorilla baseline, two
/// more for every block. They are exactly that many when no block takes the
/// grid: the fallback costs what the baseline does.
pub proof fn never_more_than_two_bits_per_block(values: Seq<u64>, block_size: nat)
    requires
        block_size > 0,
    ensures
        ({
            let fresh = XorModel::fresh();
            let code = column_code(fresh, values, block_size).len();
            let bound = gorilla::xor_codes(fresh, values).len()
                + 2 * price_infos(values, block_size).len();
            &&& code <= bound
            &&& all_gorilla(price_infos(values, block_size)) ==> code == bound
        }),
{
    lemma_column_costs(XorModel::fresh(), values, block_size, 0);
}

/// In bytes: a price column is at most as long as the Gorilla baseline, the
/// block size, and two bits for every block, rounded up.
pub proof fn never_much_longer_than_gorilla(values: Seq<u64>, block_size: nat)
    requires
        block_size > 0,
    ensures
        price_column(values, block_size).len() <= gorilla::f64_column(values).len() + bits::varint(
            block_size,
        ).len() + (2 * price_infos(values, block_size).len() + 7) / 8,
{
    let fresh = XorModel::fresh();
    lemma_column_costs(fresh, values, block_size, 0);
}

/// The report accounts for every bit of the column: the bits of its blocks,
/// rounded up to bytes, are what follows the two counts.
pub proof fn report_accounts_for_every_bit(values: Seq<u64>, block_size: nat)
    requires
        block_size > 0,
        256 * values.len() <= u64::MAX,
    ensures
        price_column(values, block_size).len() == bits::varint(values.len()).len() + bits::varint(
            block_size,
        ).len() + (total_bits(price_infos(values, block_size)) + 7) / 8,
{
    let fresh = XorModel::fresh();
    lemma_column_costs(fresh, values, block_size, 0);
}

/// `info` is the report on the block of `values` that it names, encoded after
/// all that comes before it.
pub open spec fn reports(info: BlockInfo, values: Seq<u64>) -> bool {
    let st = gorilla::xor_after(XorModel::fresh(), values.take(info.start as int));
    let block = values.subrange(info.start as int, info.start + info.len);
    &&& 0 < info.len
    &&& info.start + info.len <= values.len()
    &&& info.kind == block_kind(st, block)
    &&& info.bits == block_code(st, block).len()
}

#[verifier::spinoff_prover]
#[verifier::rlimit(40)]
proof fn lemma_infos_tile(values: Seq<u64>, block_size: nat, at: nat)
    requires
        block_size > 0,
        at < values.len() <= usize::MAX,
        256 * values.len() <= u64::MAX,
    ensures
        ({
            let fresh = XorModel::fresh();
            let st = gorilla::xor_after(fresh, values.take(at as int));
            let infos = column_infos(st, values.skip(at as int), block_size, at);
            &&& infos.len() > 0
            &&& infos[0].start == at
            &&& infos.last().start + infos.last().len == values.len()
            &&& forall|i: int|
                0 <= i < infos.len() ==> reports(#[trigger] infos[i], values) && infos[i].len
                    <= block_size
            &&& forall|i: int|
                0 <= i < infos.len() - 1 ==> (#[trigger] infos[i]).len == block_size && infos[i
                    + 1].start == infos[i].start + block_size
        }),
    decreases values.len() - at,
{
    let fresh = XorModel::fresh();
    let rest = values.skip(at as int);
    let st = gorilla::xor_after(fresh, values.take(at as int));
    let infos = column_infos(st, rest, block_size, at);
    let n = size::block_len(rest.len(), block_size);
    let block = rest.take(n as int);
    let next = at + n;
    let after = gorilla::xor_after(st, block);
    let later = column_infos(after, rest.skip(n as int), block_size, next);
    assert(infos =~= seq![infos[0]] + later);
    gorilla::lemma_xor_codes_len(fresh, values.take(at as int));
    lemma_block_code_len(st, block);
    assert(block =~= values.subrange(at as int, next as int));
    assert(reports(infos[0], values));
    assert(values.take(next as int) =~= values.take(at as int) + block);
    gorilla::xor_codes_concat(fresh, values.take(at as int), block);
    assert(rest.skip(n as int) =~= values.skip(next as int));
    if next < values.len() {
        lemma_infos_tile(values, block_size, next);
        assert forall|i: int| 0 <= i < infos.len() implies reports(#[trigger] infos[i], values)
            && infos[i].len <= block_size by {
            if i > 0 {
                assert(infos[i] == later[i - 1]);
            }
        }
        assert forall|i: int| 0 <= i < infos.len() - 1 implies (#[trigger] infos[i]).len
            == block_size && infos[i + 1].start == infos[i].start + block_size by {
            assert(infos[i + 1] == later[i]);
            if i > 0 {
                assert(infos[i] == later[i - 1]);
            }
        }
        assert(infos.last() == later.last());
    } else {
        assert(later =~= Seq::empty());
    }
}

/// The blocks of a report follow each other without a gap from the first value
/// to the last, every one but the last is full, and each entry says how its
/// block was encoded.
pub proof fn report_tiles_the_column(values: Seq<u64>, block_size: nat)
    requires
        block_size > 0,
        values.len() <= usize::MAX,
        256 * values.len() <= u64::MAX,
    ensures
        ({
            let infos = price_infos(values, block_size);
            &&& infos.len() == 0 <==> values.len() == 0
            &&& values.len() > 0 ==> infos[0].start == 0 && infos.last().start + infos.last().len
                == values.len()
            &&& forall|i: int|
                0 <= i < infos.len() ==> reports(#[trigger] infos[i], values) && infos[i].len
                    <= block_size
            &&& forall|i: int|
                0 <= i < infos.len() - 1 ==> (#[trigger] infos[i]).len == block_size && infos[i
                    + 1].start == infos[i].start + block_size
        }),
{
    if values.len() > 0 {
        lemma_infos_tile(values, block_size, 0);
        assert(values.take(0) =~= Seq::empty());
        assert(values.skip(0) =~= values);
    }
}

/// Block by block: a Gorilla block takes two bits more than its values take in
/// the stream of the baseline, and a grid block takes less than that.
pub proof fn every_block_against_the_baseline(values: Seq<u64>, block_size: nat, i: int)
    requires
        block_size > 0,
        values.len() <= usize::MAX,
        256 * values.len() <= u64::MAX,
        0 <= i < price_infos(values, block_size).len(),
    ensures
        ({
            let fresh = XorModel::fresh();
            let info = price_infos(values, block_size)[i];
            let before = gorilla::xor_codes(fresh, values.take(info.start as int)).len();
            let upto = gorilla::xor_codes(fresh, values.take(info.start + info.len)).len();
            &&& info.kind is Gorilla ==> info.bits == upto - before + 2
            &&& info.kind is Grid ==> info.bits < upto - before + 2
        }),
{
    let fresh = XorModel::fresh();
    report_tiles_the_column(values, block_size);
    let info = price_infos(values, block_size)[i];
    assert(reports(info, values));
    let head = values.take(info.start as int);
    let block = values.subrange(info.start as int, info.start + info.len);
    let st = gorilla::xor_after(fresh, head);
    assert(values.take(info.start + info.len) =~= head + block);
    gorilla::xor_codes_concat(fresh, head, block);
    block_takes_the_shorter_encoding(st, block);
}

proof fn lemma_no_scale(values: Seq<u64>, k: nat, i: int)
    requires
        0 <= i < values.len(),
        forall|j: nat| j <= 12 ==> #[trigger] float::mantissa_of(values[i], j) is None,
    ensures
        scale_from(values, k) is None,
    decreases 13 - k,
{
    if k <= 12 {
        assert(float::mantissa_of(values[i], k) is None);
        lemma_no_scale(values, k + 1, i);
    }
}

/// A block that holds one value that is on no grid falls back to the Gorilla
/// encoding.
pub proof fn off_grid_value_falls_back(st: XorModel, block: Seq<u64>, i: int)
    requires
        0 <= i < block.len(),
        forall|k: nat| k <= 12 ==> #[trigger] float::mantissa_of(block[i], k) is None,
    ensures
        block_kind(st, block) == (BlockKind::Gorilla { reason: FallbackReason::NoDecimalScale }),
{
    reveal(block_kind);
    lemma_no_scale(block, 0, i);
}

/// A block that holds a NaN, an infinity, negative zero or a subnormal double
/// falls back to the Gorilla encoding.
pub proof fn special_values_fall_back(st: XorModel, block: Seq<u64>, i: int)
    requires
        0 <= i < block.len(),
        !float::is_finite(block[i]) || block[i] == 0x8000_0000_0000_0000
            || float::is_subnormal(block[i]),
    ensures
        block_kind(st, block) == (BlockKind::Gorilla { reason: FallbackReason::NoDecimalScale }),
{
    assert forall|j: nat| j <= 12 implies #[trigger] float::mantissa_of(block[i], j) is None by {
        float::special_values_have_no_mantissa(block[i], j);
    }
    off_grid_value_falls_back(st, block, i);
}

} // verus!
