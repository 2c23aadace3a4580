//! Size column codec: per-block frame of reference plus varints.
//!
//! Layout: LEB128 count, LEB128 block size, then per block the zigzag varint
//! of the block minimum followed by one LEB128 varint per value holding
//! `value - minimum` (always non-negative, so it needs no zigzag).

use crate::bits;
use crate::bits::{get_varint, put_varint, unzigzag, zigzag};
use crate::words;
use crate::DecodeError;
use vstd::prelude::*;
use vstd::slice::slice_subrange;

verus! {

pub const DEFAULT_BLOCK_SIZE: usize = 1024;

/// The smallest value of a non-empty list.
pub open spec fn minimum(block: Seq<i64>) -> i64
    decreases block.len(),
{
    if block.len() <= 1 {
        block[0]
    } else {
        let m = minimum(block.drop_last());
        if block.last() < m {
            block.last()
        } else {
            m
        }
    }
}

/// One varint per value, holding the value minus `min`.
pub open spec fn offsets(block: Seq<i64>, min: i64) -> Seq<u8>
    decreases block.len(),
{
    if block.len() == 0 {
        Seq::empty()
    } else {
        offsets(block.drop_last(), min) + bits::varint((block.last() - min) as nat)
    }
}

/// The bytes of one block.
pub open spec fn size_block(block: Seq<i64>) -> Seq<u8> {
    let min = minimum(block);
    bits::varint(bits::zigzag_of(min) as nat) + offsets(block, min)
}

/// Length of the next block when `left` values are left.
pub open spec fn block_len(left: nat, block_size: nat) -> nat {
    if left < block_size {
        left
    } else {
        block_size
    }
}

/// The bytes of all blocks.
pub open spec fn size_blocks(sizes: Seq<i64>, block_size: nat) -> Seq<u8>
    decreases sizes.len(),
{
    if sizes.len() == 0 || block_size == 0 {
        Seq::empty()
    } else {
        let n = block_len(sizes.len(), block_size) as int;
        size_block(sizes.take(n)) + size_blocks(sizes.skip(n), block_size)
    }
}

/// The encoded column.
pub open spec fn size_column(sizes: Seq<i64>, block_size: nat) -> Seq<u8> {
    bits::varint(sizes.len()) + bits::varint(block_size) + size_blocks(sizes, block_size)
}

/// What is left of `s` once the varint at its front has been read.
pub open spec fn after_varint(s: Seq<u8>) -> Seq<u8> {
    s.skip(bits::take_varint(s).1 as int)
}

/// What reading `n` values of a block with the minimum `min` gives.
pub open spec fn take_offsets(s: Seq<u8>, min: i64, n: nat) -> (
    Result<Seq<i64>, DecodeError>,
    Seq<u8>,
)
    decreases n,
{
    if n == 0 {
        (Ok(Seq::empty()), s)
    } else {
        match bits::take_varint(s).0 {
            Err(e) => (Err(e), after_varint(s)),
            Ok(x) => match take_offsets(after_varint(s), min, (n - 1) as nat) {
                (Err(e), s) => (Err(e), s),
                (Ok(v), s) => (Ok(seq![min.wrapping_add(x as i64)] + v), s),
            },
        }
    }
}

/// What reading blocks that hold `left` values gives.
pub open spec fn take_size_blocks(s: Seq<u8>, left: nat, block_size: nat) -> (
    Result<Seq<i64>, DecodeError>,
    Seq<u8>,
)
    decreases left,
{
    if left == 0 || block_size == 0 {
        (Ok(Seq::empty()), s)
    } else {
        let n = block_len(left, block_size);
        match bits::take_varint(s).0 {
            Err(e) => (Err(e), after_varint(s)),
            Ok(z) => match take_offsets(after_varint(s), bits::unzigzag_of(z), n) {
                (Err(e), s) => (Err(e), s),
                (Ok(v), s) => match take_size_blocks(s, (left - n) as nat, block_size) {
                    (Err(e), s) => (Err(e), s),
                    (Ok(w), s) => (Ok(v + w), s),
                },
            },
        }
    }
}

/// What decoding a size column gives.
pub open spec fn sizes_decoded(data: Seq<u8>) -> Result<Seq<i64>, DecodeError> {
    match bits::take_varint(data).0 {
        Err(e) => Err(e),
        Ok(n) => match bits::take_varint(after_varint(data)).0 {
            Err(e) => Err(e),
            Ok(block_size) => if block_size == 0 && n > 0 {
                Err(DecodeError::Corrupt("zero block size"))
            } else {
                match take_size_blocks(
                    after_varint(after_varint(data)),
                    n as nat,
                    block_size as nat,
                ) {
                    (Err(e), _) => Err(e),
                    (Ok(v), s) => if s.len() > 0 {
                        Err(DecodeError::Corrupt("trailing bytes after size column"))
                    } else {
                        Ok(v)
                    },
                }
            },
        },
    }
}

/// `minimum` is a value of the list and none is smaller.
pub proof fn lemma_minimum(block: Seq<i64>)
    requires
        block.len() > 0,
    ensures
        block.contains(minimum(block)),
        forall|i: int| 0 <= i < block.len() ==> minimum(block) <= #[trigger] block[i],
    decreases block.len(),
{
    if block.len() == 1 {
        assert(block[0] == minimum(block));
    } else {
        let init = block.drop_last();
        lemma_minimum(init);
        let m = minimum(init);
        let k = choose|k: int| 0 <= k < init.len() && init[k] == m;
        assert(block[k] == m);
        assert(block[block.len() - 1] == block.last());
        assert forall|i: int| 0 <= i < block.len()
            implies minimum(block) <= #[trigger] block[i] by {
            if i < block.len() - 1 {
                assert(init[i] == block[i]);
            }
        }
    }
}

/// The smallest value of a non-empty block.
fn block_minimum(block: &[i64]) -> (min: i64)
    requires
        block@.len() > 0,
    ensures
        min == minimum(block@),
{
    let mut min: i64 = block[0];
    let mut i: usize = 1;
    assert(block@.take(1).len() == 1);
    while i < block.len()
        invariant
            1 <= i <= block@.len(),
            min == minimum(block@.take(i as int)),
        decreases block@.len() - i,
    {
        assert(block@.take(i + 1).drop_last() =~= block@.take(i as int));
        if block[i] < min {
            min = block[i];
        }
        i = i + 1;
    }
    assert(block@.take(i as int) =~= block@);
    min
}

fn put_block(out: &mut Vec<u8>, block: &[i64])
    requires
        block@.len() > 0,
    ensures
        final(out)@ == old(out)@ + size_block(block@),
{
    let min: i64 = block_minimum(block);
    let ghost start = out@;
    put_varint(out, zigzag(min));
    let ghost head = start + bits::varint(bits::zigzag_of(min) as nat);
    let mut i: usize = 0;
    proof {
        lemma_minimum(block@);
        assert(out@ + offsets(block@.take(0), min) =~= out@);
    }
    while i < block.len()
        invariant
            i <= block@.len(),
            forall|j: int| 0 <= j < block@.len() ==> min <= #[trigger] block@[j],
            out@ == head + offsets(block@.take(i as int), min),
        decreases block@.len() - i,
    {
        proof {
            let done = block@.take(i as int);
            let more = block@.take(i + 1);
            assert(more.drop_last() =~= done);
            assert(min <= block@[i as int]);
            let v = bits::varint((block@[i as int] - min) as nat);
            assert(head + (offsets(done, min) + v) =~= (head + offsets(done, min)) + v);
        }
        put_varint(out, (block[i] as i128 - min as i128) as u64);
        i = i + 1;
    }
    assert(block@.take(i as int) =~= block@);
    assert(out@ =~= start + size_block(block@));
}

pub fn encode(sizes: &[i64]) -> (out: Vec<u8>)
    ensures
        out@ == size_column(sizes@, DEFAULT_BLOCK_SIZE as nat),
        out@ == size_column(sizes@, 1024),
{
    encode_with(sizes, DEFAULT_BLOCK_SIZE)
}

/// Encode in blocks of `block_size` values, which must be positive.
pub fn encode_with(sizes: &[i64], block_size: usize) -> (out: Vec<u8>)
    requires
        block_size > 0,
    ensures
        out@ == size_column(sizes@, block_size as nat),
{
    let mut out: Vec<u8> = Vec::new();
    put_varint(&mut out, sizes.len() as u64);
    put_varint(&mut out, block_size as u64);
    let ghost whole = size_column(sizes@, block_size as nat);
    let mut at: usize = 0;
    proof {
        assert(sizes@.skip(0) =~= sizes@);
        assert(out@ + size_blocks(sizes@, block_size as nat) =~= whole);
    }
    while at < sizes.len()
        invariant
            at <= sizes@.len(),
            block_size > 0,
            out@ + size_blocks(sizes@.skip(at as int), block_size as nat) == whole,
        decreases sizes@.len() - at,
    {
        let left: usize = sizes.len() - at;
        let n: usize = if left < block_size {
            left
        } else {
            block_size
        };
        let block = slice_subrange(sizes, at, at + n);
        proof {
            let rest = sizes@.skip(at as int);
            assert(rest.take(n as int) =~= block@);
            assert(rest.skip(n as int) =~= sizes@.skip(at + n));
            assert(out@ + (size_block(block@) + size_blocks(sizes@.skip(at + n), block_size as nat))
                =~= (out@ + size_block(block@)) + size_blocks(
                sizes@.skip(at + n),
                block_size as nat,
            ));
        }
        put_block(&mut out, block);
        at = at + n;
    }
    proof {
        assert(out@ + size_blocks(sizes@.skip(at as int), block_size as nat) =~= out@);
    }
    out
}

/// Read `n` values of a block into `out`.
fn get_offsets(data: &[u8], pos: &mut usize, min: i64, n: u64, out: &mut Vec<i64>) -> (res: Result<
    (),
    DecodeError,
>)
    requires
        *old(pos) <= data@.len(),
    ensures
        *final(pos) <= data@.len(),
        data@.skip(*final(pos) as int) == take_offsets(
            data@.skip(*old(pos) as int),
            min,
            n as nat,
        ).1,
        match take_offsets(data@.skip(*old(pos) as int), min, n as nat).0 {
            Ok(v) => res is Ok && final(out)@ == old(out)@ + v,
            Err(e) => res == Err::<(), DecodeError>(e),
        },
{
    let ghost start = out@;
    let ghost whole = take_offsets(data@.skip(*pos as int), min, n as nat);
    let mut i: u64 = 0;
    proof {
        if let (Ok(v), _) = whole {
            assert(Seq::<i64>::empty() + v =~= v);
        }
        assert(start + Seq::<i64>::empty() =~= start);
    }
    let ghost mut got = Seq::<i64>::empty();
    while i < n
        invariant
            i <= n,
            *pos <= data@.len(),
            start == old(out)@,
            whole == take_offsets(data@.skip(*old(pos) as int), min, n as nat),
            out@ == start + got,
            match take_offsets(data@.skip(*pos as int), min, (n - i) as nat) {
                (Ok(v), s) => whole == (Ok::<Seq<i64>, DecodeError>(got + v), s),
                (Err(e), s) => whole == (Err::<Seq<i64>, DecodeError>(e), s),
            },
        decreases n - i,
    {
        let ghost s = data@.skip(*pos as int);
        proof {
            bits::lemma_take_varint_used(s);
        }
        let ghost at = *pos as int;
        let r = get_varint(data, pos);
        proof {
            assert(s.skip(bits::take_varint(s).1 as int) =~= data@.skip(*pos as int));
        }
        let x: u64 = r?;
        let v: i64 = min.wrapping_add(x as i64);
        out.push(v);
        i = i + 1;
        proof {
            let before = got;
            got = got.push(v);
            assert(out@ =~= start + got);
            if let (Ok(w), _) = take_offsets(data@.skip(*pos as int), min, (n - i) as nat) {
                assert(before + (seq![v] + w) =~= got + w);
            }
        }
    }
    assert(got + Seq::<i64>::empty() =~= got);
    Ok(())
}

pub fn decode(data: &[u8]) -> (res: Result<Vec<i64>, DecodeError>)
    ensures
        match res {
            Ok(sizes) => sizes_decoded(data@) == Ok::<Seq<i64>, DecodeError>(sizes@),
            Err(e) => sizes_decoded(data@) == Err::<Seq<i64>, DecodeError>(e),
        },
{
    let mut pos: usize = 0;
    proof {
        assert(data@.skip(0) =~= data@);
        bits::lemma_take_varint_used(data@);
        bits::lemma_take_varint_used(after_varint(data@));
    }
    let n: u64 = get_varint(data, &mut pos)?;
    let ghost s1 = after_varint(data@);
    assert(data@.skip(pos as int) =~= s1);
    let block_size: u64 = get_varint(data, &mut pos)?;
    assert(data@.skip(pos as int) =~= after_varint(s1));
    if block_size == 0 && n > 0 {
        return Err(DecodeError::Corrupt("zero block size"));
    }
    let mut out: Vec<i64> = Vec::new();
    let mut remaining: u64 = n;
    let ghost whole = take_size_blocks(after_varint(s1), n as nat, block_size as nat);
    proof {
        if let (Ok(v), _) = whole {
            assert(out@ + v =~= v);
        }
    }
    while remaining > 0
        invariant
            pos <= data@.len(),
            remaining <= n,
            n > 0 ==> block_size > 0,
            sizes_decoded(data@) == (match whole {
                (Err(e), _) => Err::<Seq<i64>, DecodeError>(e),
                (Ok(v), s) => if s.len() > 0 {
                    Err(DecodeError::Corrupt("trailing bytes after size column"))
                } else {
                    Ok(v)
                },
            }),
            match take_size_blocks(
                data@.skip(pos as int),
                remaining as nat,
                block_size as nat,
            ) {
                (Ok(v), s) => whole == (Ok::<Seq<i64>, DecodeError>(out@ + v), s),
                (Err(e), s) => whole == (Err::<Seq<i64>, DecodeError>(e), s),
            },
        decreases remaining,
    {
        let len: u64 = if remaining < block_size {
            remaining
        } else {
            block_size
        };
        let ghost s = data@.skip(pos as int);
        proof {
            bits::lemma_take_varint_used(s);
        }
        remaining = remaining - len;
        let z: u64 = get_varint(data, &mut pos)?;
        assert(data@.skip(pos as int) =~= after_varint(s));
        let min: i64 = unzigzag(z);
        let ghost before = out@;
        get_offsets(data, &mut pos, min, len, &mut out)?;
        proof {
            let v = take_offsets(after_varint(s), min, len as nat).0->Ok_0;
            if let (Ok(w), _) = take_size_blocks(
                data@.skip(pos as int),
                remaining as nat,
                block_size as nat,
            ) {
                assert(before + (v + w) =~= out@ + w);
            }
        }
    }
    assert(out@ + Seq::<i64>::empty() =~= out@);
    if pos != data.len() {
        return Err(DecodeError::Corrupt("trailing bytes after size column"));
    }
    Ok(out)
}

proof fn lemma_offsets_front(block: Seq<i64>, min: i64)
    requires
        block.len() > 0,
    ensures
        offsets(block, min) == bits::varint((block[0] - min) as nat) + offsets(block.skip(1), min),
    decreases block.len(),
{
    let head = bits::varint((block[0] - min) as nat);
    if block.len() == 1 {
        assert(offsets(block.drop_last(), min) =~= Seq::empty());
        assert(offsets(block.skip(1), min) =~= Seq::empty());
        assert(offsets(block, min) =~= head + offsets(block.skip(1), min));
    } else {
        let init = block.drop_last();
        lemma_offsets_front(init, min);
        assert(init.skip(1) =~= block.skip(1).drop_last());
        assert(block.skip(1).last() == block.last());
        let last = bits::varint((block.last() - min) as nat);
        assert((head + offsets(init.skip(1), min)) + last =~= head + (offsets(init.skip(1), min)
            + last));
    }
}

proof fn lemma_varint_front(v: u64, rest: Seq<u8>)
    ensures
        bits::take_varint(bits::varint(v as nat) + rest).0 == Ok::<u64, DecodeError>(v),
        after_varint(bits::varint(v as nat) + rest) == rest,
{
    bits::varint_reads_back(v, rest);
    assert((bits::varint(v as nat) + rest).skip(bits::varint(v as nat).len() as int) =~= rest);
}

proof fn lemma_offsets_read_back(block: Seq<i64>, min: i64, rest: Seq<u8>)
    requires
        forall|i: int| 0 <= i < block.len() ==> min <= #[trigger] block[i],
    ensures
        take_offsets(offsets(block, min) + rest, min, block.len()) == (
            Ok::<Seq<i64>, DecodeError>(block),
            rest,
        ),
    decreases block.len(),
{
    if block.len() == 0 {
        assert(offsets(block, min) + rest =~= rest);
        assert(block =~= Seq::empty());
    } else {
        lemma_offsets_front(block, min);
        assert(min <= block[0]);
        let x = (block[0] - min) as u64;
        let more = block.skip(1);
        let tail = offsets(more, min) + rest;
        assert(offsets(block, min) + rest =~= bits::varint(x as nat) + tail);
        lemma_varint_front(x, tail);
        words::lemma_as_i64(x);
        assert(min.wrapping_add(x as i64) == block[0]);
        assert forall|i: int| 0 <= i < more.len() implies min <= #[trigger] more[i] by {
            assert(more[i] == block[i + 1]);
        }
        lemma_offsets_read_back(more, min, rest);
        assert(seq![block[0]] + more =~= block);
    }
}

proof fn lemma_blocks_read_back(sizes: Seq<i64>, block_size: nat, rest: Seq<u8>)
    requires
        block_size > 0,
    ensures
        take_size_blocks(size_blocks(sizes, block_size) + rest, sizes.len(), block_size) == (
            Ok::<Seq<i64>, DecodeError>(sizes),
            rest,
        ),
    decreases sizes.len(),
{
    if sizes.len() == 0 {
        assert(size_blocks(sizes, block_size) + rest =~= rest);
        assert(sizes =~= Seq::empty());
    } else {
        let n = block_len(sizes.len(), block_size) as int;
        let block = sizes.take(n);
        let more = sizes.skip(n);
        let min = minimum(block);
        let tail = size_blocks(more, block_size) + rest;
        let body = offsets(block, min) + tail;
        lemma_minimum(block);
        assert(size_blocks(sizes, block_size) + rest
            =~= bits::varint(bits::zigzag_of(min) as nat) + body);
        lemma_varint_front(bits::zigzag_of(min), body);
        bits::zigzag_is_a_bijection(min, 0);
        lemma_offsets_read_back(block, min, tail);
        lemma_blocks_read_back(more, block_size, rest);
        assert(block + more =~= sizes);
    }
}

/// Both counts of a column read back, and what follows them is left.
pub proof fn lemma_counts_read_back(n: u64, block_size: u64, rest: Seq<u8>)
    ensures
        ({
            let data = bits::varint(n as nat) + bits::varint(block_size as nat) + rest;
            &&& bits::take_varint(data).0 == Ok::<u64, DecodeError>(n)
            &&& bits::take_varint(after_varint(data)).0 == Ok::<u64, DecodeError>(block_size)
            &&& after_varint(after_varint(data)) == rest
        }),
{
    let data = bits::varint(n as nat) + bits::varint(block_size as nat) + rest;
    assert(data =~= bits::varint(n as nat) + (bits::varint(block_size as nat) + rest));
    lemma_varint_front(n, bits::varint(block_size as nat) + rest);
    lemma_varint_front(block_size, rest);
}

/// Decoding an encoded size column gives it back, whatever the sizes and the
/// block size are.
pub proof fn size_column_round_trips(sizes: Seq<i64>, block_size: nat)
    requires
        sizes.len() <= u64::MAX,
        0 < block_size <= u64::MAX,
    ensures
        sizes_decoded(size_column(sizes, block_size)) == Ok::<Seq<i64>, DecodeError>(sizes),
{
    let body = size_blocks(sizes, block_size);
    lemma_counts_read_back(sizes.len() as u64, block_size as u64, body);
    lemma_blocks_read_back(sizes, block_size, Seq::empty());
    assert(body + Seq::<u8>::empty() =~= body);
}

/// Bytes after an encoded size column are an error.
pub proof fn bytes_after_size_column_are_an_error(
    sizes: Seq<i64>,
    block_size: nat,
    extra: Seq<u8>,
)
    requires
        sizes.len() <= u64::MAX,
        0 < block_size <= u64::MAX,
        extra.len() > 0,
    ensures
        sizes_decoded(size_column(sizes, block_size) + extra) == Err::<Seq<i64>, DecodeError>(
            DecodeError::Corrupt("trailing bytes after size column"),
        ),
{
    let body = size_blocks(sizes, block_size);
    let head = bits::varint(sizes.len()) + bits::varint(block_size);
    assert(size_column(sizes, block_size) + extra =~= head + (body + extra));
    lemma_counts_read_back(sizes.len() as u64, block_size as u64, body + extra);
    lemma_blocks_read_back(sizes, block_size, extra);
}

/// Bytes after a varint do not change what is read, and stay behind it.
pub proof fn lemma_after_varint_prefix(s: Seq<u8>, t: Seq<u8>)
    requires
        !bits::at_end(bits::take_varint(s).0),
    ensures
        bits::take_varint(s + t).0 == bits::take_varint(s).0,
        after_varint(s + t) == after_varint(s) + t,
{
    bits::lemma_varint_prefix(s, t);
    bits::lemma_take_varint_used(s);
    assert(after_varint(s + t) =~= after_varint(s) + t);
}

proof fn lemma_take_offsets_prefix(s: Seq<u8>, t: Seq<u8>, min: i64, n: nat)
    requires
        !bits::at_end(take_offsets(s, min, n).0),
    ensures
        take_offsets(s + t, min, n) == (take_offsets(s, min, n).0, take_offsets(s, min, n).1 + t),
    decreases n,
{
    if n > 0 {
        lemma_after_varint_prefix(s, t);
        if bits::take_varint(s).0 is Ok {
            lemma_take_offsets_prefix(after_varint(s), t, min, (n - 1) as nat);
        }
    }
}

proof fn lemma_take_size_blocks_prefix(s: Seq<u8>, t: Seq<u8>, left: nat, block_size: nat)
    requires
        !bits::at_end(take_size_blocks(s, left, block_size).0),
    ensures
        take_size_blocks(s + t, left, block_size) == (
            take_size_blocks(s, left, block_size).0,
            take_size_blocks(s, left, block_size).1 + t,
        ),
    decreases left,
{
    if left > 0 && block_size > 0 {
        let n = block_len(left, block_size);
        lemma_after_varint_prefix(s, t);
        if let Ok(z) = bits::take_varint(s).0 {
            let min = bits::unzigzag_of(z);
            let s1 = after_varint(s);
            lemma_take_offsets_prefix(s1, t, min, n);
            let (v, s2) = take_offsets(s1, min, n);
            if v is Ok {
                lemma_take_size_blocks_prefix(s2, t, (left - n) as nat, block_size);
            }
        }
    }
}

/// An encoded size column that is cut short, anywhere, is reported as the end of
/// the input.
pub proof fn cut_size_column_is_an_error(sizes: Seq<i64>, block_size: nat, cut: int)
    requires
        sizes.len() <= u64::MAX,
        0 < block_size <= u64::MAX,
        0 <= cut < size_column(sizes, block_size).len(),
    ensures
        sizes_decoded(size_column(sizes, block_size).take(cut)) == Err::<Seq<i64>, DecodeError>(
            DecodeError::UnexpectedEof,
        ),
{
    let data = size_column(sizes, block_size);
    let s = data.take(cut);
    let t = data.skip(cut);
    assert(s + t =~= data);
    lemma_counts_read_back(sizes.len() as u64, block_size as u64, size_blocks(sizes, block_size));
    lemma_blocks_read_back(sizes, block_size, Seq::empty());
    assert(size_blocks(sizes, block_size) + Seq::<u8>::empty() =~= size_blocks(sizes, block_size));
    if !bits::at_end(sizes_decoded(s)) {
        lemma_after_varint_prefix(s, t);
        lemma_after_varint_prefix(after_varint(s), t);
        let n = bits::take_varint(s).0->Ok_0;
        let b = bits::take_varint(after_varint(s)).0->Ok_0;
        lemma_take_size_blocks_prefix(
            after_varint(after_varint(s)),
            t,
            n as nat,
            b as nat,
        );
    }
}

/// The varints of a list of numbers, one after the other.
pub open spec fn varints(xs: Seq<u64>) -> Seq<u8> {
    xs.map_values(|x: u64| bits::varint(x as nat)).flatten()
}

/// The distances of the values of a block from `min`.
pub open spec fn distances(block: Seq<i64>, min: i64) -> Seq<u64> {
    Seq::new(block.len(), |i: int| (block[i] - min) as u64)
}

/// `min` is one of the values of the block, and none is smaller.
pub open spec fn is_least(block: Seq<i64>, min: i64) -> bool {
    block.contains(min) && forall|i: int| 0 <= i < block.len() ==> min <= #[trigger] block[i]
}

proof fn lemma_varints_front(xs: Seq<u64>)
    requires
        xs.len() > 0,
    ensures
        varints(xs) == bits::varint(xs[0] as nat) + varints(xs.skip(1)),
{
    let all = xs.map_values(|x: u64| bits::varint(x as nat));
    assert(all.drop_first() =~= xs.skip(1).map_values(|x: u64| bits::varint(x as nat)));
}

proof fn lemma_offsets_are_distances(block: Seq<i64>, min: i64)
    requires
        forall|i: int| 0 <= i < block.len() ==> min <= #[trigger] block[i],
    ensures
        offsets(block, min) == varints(distances(block, min)),
    decreases block.len(),
{
    let xs = distances(block, min);
    if block.len() == 0 {
        assert(offsets(block, min) =~= varints(xs));
    } else {
        let more = block.skip(1);
        assert(min <= block[0]);
        assert forall|i: int| 0 <= i < more.len() implies min <= #[trigger] more[i] by {
            assert(more[i] == block[i + 1]);
        }
        lemma_offsets_front(block, min);
        lemma_offsets_are_distances(more, min);
        lemma_varints_front(xs);
        assert(xs.skip(1) =~= distances(more, min));
    }
}

/// A block is its smallest value and then how far each value lies above it: the
/// first varint is the zigzag of a value that is in the block and that none of
/// the block is below, and the varint behind it at `i` holds the value at `i`
/// less that one. So some varint is zero, and none is longer than that of the
/// largest value.
pub proof fn block_is_its_minimum_and_the_distances_above(block: Seq<i64>, min: i64, max: i64)
    requires
        is_least(block, min),
        forall|i: int| 0 <= i < block.len() ==> #[trigger] block[i] <= max,
    ensures
        size_block(block) == bits::varint(bits::zigzag_of(min) as nat) + varints(
            distances(block, min),
        ),
        distances(block, min).contains(0),
        size_block(block).len() <= bits::varint(bits::zigzag_of(min) as nat).len() + block.len()
            * bits::varint((max - min) as nat).len(),
{
    lemma_minimum(block);
    let m = minimum(block);
    let i = choose|i: int| 0 <= i < block.len() && block[i] == min;
    let j = choose|j: int| 0 <= j < block.len() && block[j] == m;
    assert(block[i] == min && block[j] == m);
    assert(m == min);
    lemma_offsets_are_distances(block, min);
    let xs = distances(block, min);
    assert(xs[i] == 0);
    let all = xs.map_values(|x: u64| bits::varint(x as nat));
    let longest = bits::varint((max - min) as nat).len();
    assert forall|k: int| 0 <= k < all.len() implies (#[trigger] all[k]).len() <= longest by {
        assert(block[k] <= max);
        lemma_varint_len_monotonic((block[k] - min) as nat, (max - min) as nat);
    }
    all.lemma_flatten_length_le_mul(longest as int);
    all.lemma_flatten_and_flatten_alt_are_equivalent();
}

/// A larger number has no shorter varint.
proof fn lemma_varint_len_monotonic(a: nat, b: nat)
    requires
        a <= b,
    ensures
        1 <= bits::varint(a).len() <= bits::varint(b).len(),
    decreases b,
{
    if a >= 128 {
        lemma_varint_len_monotonic(a / 128, b / 128);
    } else if b >= 128 {
        lemma_varint_len_monotonic(0, b / 128);
    }
}

/// A column of at most `block_size` values is the two counts and one block.
pub proof fn column_of_one_block(sizes: Seq<i64>, block_size: nat, min: i64)
    requires
        0 < sizes.len() <= block_size,
        is_least(sizes, min),
    ensures
        size_column(sizes, block_size) == bits::varint(sizes.len()) + bits::varint(block_size) + (
        bits::varint(bits::zigzag_of(min) as nat) + varints(distances(sizes, min))),
        size_column(Seq::empty(), block_size) == bits::varint(0) + bits::varint(block_size),
{
    let n = sizes.len() as int;
    assert(sizes.take(n) =~= sizes);
    assert(sizes.skip(n) =~= Seq::empty());
    lemma_any_maximum(sizes, min);
    assert(size_blocks(Seq::empty(), block_size) =~= Seq::empty());
    assert(block_len(sizes.len(), block_size) == n);
    assert(size_blocks(sizes, block_size) =~= size_block(sizes));
    assert(size_column(Seq::empty(), block_size) =~= bits::varint(0) + bits::varint(block_size));
}

/// Every value of a block is at most the largest `i64`.
proof fn lemma_any_maximum(block: Seq<i64>, min: i64)
    requires
        is_least(block, min),
    ensures
        size_block(block) == bits::varint(bits::zigzag_of(min) as nat) + varints(
            distances(block, min),
        ),
{
    block_is_its_minimum_and_the_distances_above(block, min, i64::MAX);
}

/// A full block in front of other values changes nothing of how these are
/// written: behind the counts stands the block, and then what stands behind the
/// counts of the column of the others.
pub proof fn column_is_block_after_block(a: Seq<i64>, b: Seq<i64>, block_size: nat, min: i64) -> (
    rest: Seq<u8>)
    requires
        0 < block_size == a.len(),
        is_least(a, min),
    ensures
        size_column(b, block_size) == bits::varint(b.len()) + bits::varint(block_size) + rest,
        size_column(a + b, block_size) == bits::varint(a.len() + b.len()) + bits::varint(
            block_size,
        ) + (bits::varint(bits::zigzag_of(min) as nat) + varints(distances(a, min)) + rest),
{
    let rest = size_blocks(b, block_size);
    let n = block_size as int;
    assert((a + b).take(n) =~= a);
    assert((a + b).skip(n) =~= b);
    lemma_any_maximum(a, min);
    rest
}

proof fn lemma_varints_read_back(xs: Seq<u64>, min: i64, rest: Seq<u8>)
    ensures
        take_offsets(varints(xs) + rest, min, xs.len()) == (
            Ok::<Seq<i64>, DecodeError>(
                Seq::new(xs.len(), |i: int| min.wrapping_add(xs[i] as i64)),
            ),
            rest,
        ),
    decreases xs.len(),
{
    let out = Seq::new(xs.len(), |i: int| min.wrapping_add(xs[i] as i64));
    if xs.len() == 0 {
        assert(varints(xs) + rest =~= rest);
        assert(out =~= Seq::empty());
    } else {
        let more = xs.skip(1);
        lemma_varints_front(xs);
        assert(varints(xs) + rest =~= bits::varint(xs[0] as nat) + (varints(more) + rest));
        lemma_varint_front(xs[0], varints(more) + rest);
        lemma_varints_read_back(more, min, rest);
        let others = Seq::new(more.len(), |i: int| min.wrapping_add(more[i] as i64));
        assert(seq![min.wrapping_add(xs[0] as i64)] + others =~= out);
    }
}

/// The decoder takes any number for the first varint of a block and any
/// distances behind it, and adds them up modulo `2^64`. What follows a full block
/// is decoded as if it stood alone behind the counts.
pub proof fn blocks_are_decoded_one_by_one(
    min: i64,
    xs: Seq<u64>,
    block_size: u64,
    left: nat,
    rest: Seq<u8>,
)
    requires
        0 < xs.len() <= block_size,
        xs.len() < block_size ==> left == 0,
        xs.len() + left <= u64::MAX,
    ensures
        ({
            let block = bits::varint(bits::zigzag_of(min) as nat) + varints(xs);
            let counts = bits::varint(xs.len() + left) + bits::varint(block_size as nat);
            let after = bits::varint(left) + bits::varint(block_size as nat) + rest;
            let values = Seq::new(xs.len(), |i: int| min.wrapping_add(xs[i] as i64));
            sizes_decoded(counts + (block + rest)) == match sizes_decoded(after) {
                Ok(v) => Ok::<Seq<i64>, DecodeError>(values + v),
                Err(e) => Err(e),
            }
        }),
{
    let n = xs.len();
    let block = bits::varint(bits::zigzag_of(min) as nat) + varints(xs);
    lemma_counts_read_back((n + left) as u64, block_size, block + rest);
    lemma_counts_read_back(left as u64, block_size, rest);
    assert(block + rest =~= bits::varint(bits::zigzag_of(min) as nat) + (varints(xs) + rest));
    lemma_varint_front(bits::zigzag_of(min), varints(xs) + rest);
    bits::zigzag_is_a_bijection(min, 0);
    lemma_varints_read_back(xs, min, rest);
    assert(block_len(n + left, block_size as nat) == n);
}

/// Without values nothing may follow the counts, and with values the block size
/// must be positive.
pub proof fn counts_are_checked(n: u64, block_size: u64, rest: Seq<u8>)
    ensures
        ({
            let data = bits::varint(n as nat) + bits::varint(block_size as nat) + rest;
            if n > 0 && block_size == 0 {
                sizes_decoded(data) == Err::<Seq<i64>, DecodeError>(
                    DecodeError::Corrupt("zero block size"),
                )
            } else if n == 0 && rest.len() > 0 {
                sizes_decoded(data) == Err::<Seq<i64>, DecodeError>(
                    DecodeError::Corrupt("trailing bytes after size column"),
                )
            } else if n == 0 {
                sizes_decoded(data) == Ok::<Seq<i64>, DecodeError>(Seq::empty())
            } else {
                true
            }
        }),
{
    lemma_counts_read_back(n, block_size, rest);
}

/// A column is decoded by the numbers that its counts stand for, however their
/// varints are written, and a count that cannot be read is the error.
pub proof fn counts_may_be_written_anyhow(data: Seq<u8>)
    ensures
        match bits::take_varint(data) {
            (Err(e), _) => sizes_decoded(data) == Err::<Seq<i64>, DecodeError>(e),
            (Ok(n), used) => match bits::take_varint(data.skip(used as int)) {
                (Err(e), _) => sizes_decoded(data) == Err::<Seq<i64>, DecodeError>(e),
                (Ok(block_size), more) => sizes_decoded(data) == sizes_decoded(
                    bits::varint(n as nat) + bits::varint(block_size as nat) + data.skip(
                        used as int,
                    ).skip(more as int),
                ),
            },
        },
{
    if let (Ok(n), used) = bits::take_varint(data) {
        if let (Ok(block_size), more) = bits::take_varint(data.skip(used as int)) {
            lemma_counts_read_back(n, block_size, data.skip(used as int).skip(more as int));
        }
    }
}

/// A varint that cannot be read, for the reference of a block or for a distance in
/// it, is the error.
pub proof fn unreadable_varints_are_the_error(
    min: i64,
    xs: Seq<u64>,
    n: u64,
    block_size: u64,
    rest: Seq<u8>,
    e: DecodeError,
)
    requires
        xs.len() < n,
        xs.len() < block_size,
        bits::take_varint(rest).0 == Err::<u64, DecodeError>(e),
    ensures
        ({
            let counts = bits::varint(n as nat) + bits::varint(block_size as nat);
            let block = bits::varint(bits::zigzag_of(min) as nat) + varints(xs);
            &&& sizes_decoded(counts + rest) == Err::<Seq<i64>, DecodeError>(e)
            &&& sizes_decoded(counts + (block + rest)) == Err::<Seq<i64>, DecodeError>(e)
        }),
{
    let block = bits::varint(bits::zigzag_of(min) as nat) + varints(xs);
    lemma_counts_read_back(n, block_size, rest);
    lemma_counts_read_back(n, block_size, block + rest);
    assert(block + rest =~= bits::varint(bits::zigzag_of(min) as nat) + (varints(xs) + rest));
    lemma_varint_front(bits::zigzag_of(min), varints(xs) + rest);
    lemma_varints_break_off(xs, bits::unzigzag_of(bits::zigzag_of(min)), rest, e,
        block_len(n as nat, block_size as nat));
}

proof fn lemma_varints_break_off(
    xs: Seq<u64>,
    min: i64,
    rest: Seq<u8>,
    e: DecodeError,
    n: nat,
)
    requires
        xs.len() < n,
        bits::take_varint(rest).0 == Err::<u64, DecodeError>(e),
    ensures
        take_offsets(varints(xs) + rest, min, n).0 == Err::<Seq<i64>, DecodeError>(e),
    decreases xs.len(),
{
    if xs.len() == 0 {
        assert(varints(xs) + rest =~= rest);
    } else {
        let more = xs.skip(1);
        lemma_varints_front(xs);
        assert(varints(xs) + rest =~= bits::varint(xs[0] as nat) + (varints(more) + rest));
        lemma_varint_front(xs[0], varints(more) + rest);
        lemma_varints_break_off(more, min, rest, e, (n - 1) as nat);
    }
}

} // verus!
