//! LZVN wrapper payloads and the resource-fork block layout of Apple file
//! compression.

use crate::bytes::{
    extend_bytes, le_u32, lemma_le_u32_append, lemma_u32_roundtrip, push_u32_le, read_u32_le,
    u32_le_bytes,
};
use crate::error::{Error, Result};
use crate::raw;
use crate::raw::decode::{decode_window, unchanged_outside};
use crate::raw::encode::encode_spec;
use crate::raw::opcode::{opcode_kind, OpcodeKind};
use crate::raw::semantics::{decode_spec, initial_state, lemma_run_step, run, step, Step};
use vstd::prelude::*;

verus! {

/// The size of the independently compressed blocks of a resource fork.
pub const CHUNK_SIZE: usize = 0x1_0000;

/// The first byte of a wrapper payload that stores its bytes uncompressed.
pub const UNCOMPRESSED_SENTINEL: u8 = 0x06;

/// What an LZVN wrapper payload (inline, or one resource-fork block)
/// decodes to when `expected` bytes are wanted: a `0x06` byte followed by
/// exactly `expected` bytes stores them as they are; anything else is a raw
/// LZVN stream decoded into `expected` bytes of room.
pub open spec fn wrapper_decode_spec(payload: Seq<u8>, expected: usize) -> core::result::Result<
    Seq<u8>,
    Error,
> {
    if payload.len() == expected + 1 && payload[0] == UNCOMPRESSED_SENTINEL {
        Ok(payload.subrange(1, payload.len() as int))
    } else {
        decode_spec(payload, expected as nat)
    }
}

/// Number of 64 KiB blocks that hold `size` bytes.
pub open spec fn block_count_spec(size: usize) -> nat {
    ((size + 0xFFFF) / 0x10000) as nat
}

/// Number of bytes in block `index` of `total` bytes.
pub open spec fn block_size_spec(total: usize, index: nat) -> nat {
    let start = index * 0x10000;
    if total - start < 0x10000 {
        (total - start) as nat
    } else {
        0x10000
    }
}

/// The `index`-th entry of a resource fork's offset table.
pub open spec fn offset_spec(fork: Seq<u8>, index: nat) -> nat {
    le_u32(fork, (4 * index) as int)
}

/// Decodes the blocks `index..count` of a resource fork, the previous block
/// having ended at `prev`, after `acc` was decoded from the blocks before.
pub open spec fn blocks_spec(
    fork: Seq<u8>,
    expected: usize,
    count: nat,
    index: nat,
    prev: nat,
    acc: Seq<u8>,
) -> core::result::Result<Seq<u8>, Error>
    decreases count - index,
{
    if index >= count {
        if prev != fork.len() {
            Err(
                Error::InvalidResourceFork {
                    reason: "last block offset does not reach end of resource fork",
                },
            )
        } else {
            Ok(acc)
        }
    } else {
        let next = offset_spec(fork, index + 1);
        if next < prev || next > fork.len() {
            Err(Error::InvalidResourceFork { reason: "block offsets are invalid" })
        } else {
            let size = block_size_spec(expected, index);
            match wrapper_decode_spec(fork.subrange(prev as int, next as int), size as usize) {
                Err(e) => Err(e),
                Ok(out) => if out.len() != size {
                    Err(Error::SizeMismatch { expected: size as usize, actual: out.len() as usize })
                } else {
                    blocks_spec(fork, expected, count, index + 1, next, acc + out)
                },
            }
        }
    }
}

/// What a resource fork decodes to when it must hold `expected` bytes.
pub open spec fn fork_spec(fork: Seq<u8>, expected: usize) -> core::result::Result<Seq<u8>, Error> {
    let count = block_count_spec(expected);
    let table_len = (count + 1) * 4;
    if fork.len() < table_len {
        Err(Error::InvalidResourceFork { reason: "offset table is truncated" })
    } else if offset_spec(fork, 0) != table_len {
        Err(
            Error::InvalidResourceFork {
                reason: "first block offset does not match offset table size",
            },
        )
    } else if count == 0 {
        if table_len != fork.len() {
            Err(Error::InvalidResourceFork { reason: "empty resource fork has trailing data" })
        } else {
            Ok(Seq::empty())
        }
    } else {
        blocks_spec(fork, expected, count, 0, table_len, Seq::empty())
    }
}

/// `new` holds `out` at its start, and agrees with `old` after it.
pub open spec fn written_prefix(old: Seq<u8>, new: Seq<u8>, out: Seq<u8>) -> bool {
    &&& new.subrange(0, out.len() as int) == out
    &&& unchanged_outside(old, new, 0, out.len() as int)
}

/// `payload` is a raw LZVN stream that decodes to `src`.
pub open spec fn is_raw_encoding_of(payload: Seq<u8>, src: Seq<u8>) -> bool {
    forall|cap: nat| cap >= src.len() ==> #[trigger] decode_spec(payload, cap) == Ok::<
        Seq<u8>,
        Error,
    >(src)
}

/// `payload` is a wrapper payload for `src`: it decodes to `src` and is no
/// longer than the uncompressed form.
pub open spec fn is_wrapper_payload_of(payload: Seq<u8>, src: Seq<u8>) -> bool {
    &&& src.len() <= usize::MAX
    &&& wrapper_decode_spec(payload, src.len() as usize) == Ok::<Seq<u8>, Error>(src)
    &&& payload.len() <= src.len() + 1
    &&& payload == seq![UNCOMPRESSED_SENTINEL] + src || is_raw_encoding_of(payload, src)
}

/// The payload the encoder stores for `src`: the uncompressed form behind
/// the sentinel byte when it is shorter than the raw encoding
/// [`encode_spec`], the raw encoding otherwise.
pub open spec fn best_payload_spec(src: Seq<u8>) -> Seq<u8> {
    let compressed = encode_spec(src);
    if src.len() + 1 < compressed.len() {
        seq![UNCOMPRESSED_SENTINEL] + src
    } else {
        compressed
    }
}

/// The payload stored for `src` is the shorter of its raw encoding and
/// its uncompressed form behind the sentinel byte, the raw encoding when
/// the two are as long: never longer than either.
pub proof fn lemma_best_payload_is_shorter_form(src: Seq<u8>)
    ensures
        best_payload_spec(src).len() <= encode_spec(src).len(),
        best_payload_spec(src).len() <= src.len() + 1,
        encode_spec(src).len() <= src.len() + 1 ==> best_payload_spec(src) == encode_spec(src),
        src.len() + 1 < encode_spec(src).len() ==> best_payload_spec(src) == seq![
            UNCOMPRESSED_SENTINEL,
        ] + src,
{
}

/// Block `j` of `src`: its `j`-th run of 64 KiB, the last one shorter.
pub open spec fn chunk_spec(src: Seq<u8>, j: int) -> Seq<u8> {
    src.subrange(j * 0x10000, j * 0x10000 + block_size_spec(src.len() as usize, j as nat))
}

/// `fork` is the resource fork the encoder builds for `src`: an offset
/// table of one entry per block and one more, the first entry just past the
/// table and the last at the end of the fork, then the stored payload of each
/// block in turn.
pub open spec fn fork_encodes(fork: Seq<u8>, src: Seq<u8>) -> bool {
    let n = block_count_spec(src.len() as usize);
    &&& fork.len() >= 4 * (n + 1)
    &&& offset_spec(fork, 0) == 4 * (n + 1)
    &&& offset_spec(fork, n) == fork.len()
    &&& forall|j: int|
        0 <= j < n ==> {
            let payload = best_payload_spec(#[trigger] chunk_spec(src, j));
            &&& offset_spec(fork, (j + 1) as nat) == offset_spec(fork, j as nat) + payload.len()
            &&& fork.subrange(
                offset_spec(fork, j as nat) as int,
                offset_spec(fork, (j + 1) as nat) as int,
            ) == payload
        }
}

/// A raw stream whose first byte is the end marker decodes to nothing.
proof fn lemma_leading_eos_decodes_empty(payload: Seq<u8>, cap: nat)
    requires
        payload.len() > 0,
        payload[0] == UNCOMPRESSED_SENTINEL,
    ensures
        decode_spec(payload, cap) matches Ok(out) ==> out.len() == 0,
{
    assert(opcode_kind(payload[0]) == Some(OpcodeKind::Eos));
    lemma_run_step(payload, cap, initial_state());
}

/// The smaller of the raw encoding and the uncompressed form of `src`.
pub fn best_lzvn_wrapper_payload(src: &[u8]) -> (payload: Vec<u8>)
    ensures
        is_wrapper_payload_of(payload@, src@),
        payload@ == best_payload_spec(src@),
        payload@.len() <= src@.len() + 1,
        src@.len() + 1 < 8 ==> payload@ == seq![UNCOMPRESSED_SENTINEL] + src@,
        payload@.len() <= encode_spec(src@).len(),
        encode_spec(src@).len() <= src@.len() + 1 ==> payload@ == encode_spec(src@),
        src@.len() + 1 < encode_spec(src@).len() ==> payload@ == seq![UNCOMPRESSED_SENTINEL]
            + src@,
{
    let len = src.len();
    let compressed = raw::encode(src);
    let sentinel = lzvn_uncompressed_payload(src);
    if sentinel.len() < compressed.len() {
        proof {
            assert(sentinel@.subrange(1, sentinel@.len() as int) =~= src@);
        }
        sentinel
    } else {
        proof {
            assert(decode_spec(compressed@, len as nat) == Ok::<Seq<u8>, Error>(src@));
            if compressed@.len() == len + 1 && compressed@[0] == UNCOMPRESSED_SENTINEL {
                lemma_leading_eos_decodes_empty(compressed@, len as nat);
                assert(false);
            }
        }
        compressed
    }
}

/// `src` stored uncompressed behind the sentinel byte.
pub fn lzvn_uncompressed_payload(src: &[u8]) -> (payload: Vec<u8>)
    ensures
        payload@ == seq![UNCOMPRESSED_SENTINEL] + src@,
{
    let mut payload = Vec::new();
    payload.push(UNCOMPRESSED_SENTINEL);
    let mut index: usize = 0;
    while index < src.len()
        invariant
            index <= src@.len(),
            payload@ == seq![UNCOMPRESSED_SENTINEL] + src@.subrange(0, index as int),
        decreases src@.len() - index,
    {
        payload.push(src[index]);
        index = index + 1;
        proof {
            assert(payload@ =~= seq![UNCOMPRESSED_SENTINEL] + src@.subrange(0, index as int));
        }
    }
    proof {
        assert(src@.subrange(0, src@.len() as int) =~= src@);
    }
    payload
}

/// Number of 64 KiB blocks that hold `size` bytes.
pub fn block_count(size: usize) -> (count: usize)
    ensures
        count == block_count_spec(size),
        count * 0x10000 < size + 0x10000,
        count * 0x10000 >= size,
        count <= usize::MAX / 0x10000 + 1,
{
    let count = if size == 0 {
        0
    } else {
        size / CHUNK_SIZE + if size % CHUNK_SIZE != 0 { 1 } else { 0 }
    };
    proof {
        assert(count == block_count_spec(size) && count * 0x10000 < size + 0x10000 && count
            * 0x10000 >= size) by (nonlinear_arith)
            requires
                count == (if size == 0 {
                    0
                } else {
                    size / 0x10000 + if size % 0x10000 != 0 { 1int } else { 0 }
                }),
        ;
    }
    count
}

/// Number of bytes in block `block_index` of `total` bytes.
pub fn remaining_block_size(total: usize, block_index: usize) -> (size: usize)
    requires
        block_index * 0x10000 < total,
    ensures
        size == block_size_spec(total, block_index as nat),
        0 < size <= 0x10000,
{
    let start = block_index * CHUNK_SIZE;
    let rest = total - start;
    if rest < CHUNK_SIZE {
        rest
    } else {
        CHUNK_SIZE
    }
}

/// The length of an offset table for `block_count` blocks.
pub fn offset_table_len(block_count: usize) -> (r: Result<usize>)
    ensures
        (block_count + 1) * 4 <= usize::MAX ==> r == Ok::<usize, Error>(
            ((block_count + 1) * 4) as usize,
        ),
        block_count + 1 > usize::MAX ==> r == Err::<usize, Error>(
            Error::SizeOverflow {
                value: usize::MAX,
                max: usize::MAX,
                what: "decmpfs resource fork block count",
            },
        ),
        block_count + 1 <= usize::MAX && (block_count + 1) * 4 > usize::MAX ==> r == Err::<
            usize,
            Error,
        >(
            Error::SizeOverflow {
                value: usize::MAX,
                max: u32::MAX as usize,
                what: "decmpfs resource fork offset table",
            },
        ),
{
    let entries = match block_count.checked_add(1) {
        Some(e) => e,
        None => {
            return Err(
                Error::SizeOverflow {
                    value: usize::MAX,
                    max: usize::MAX,
                    what: "decmpfs resource fork block count",
                },
            )
        },
    };
    match entries.checked_mul(4) {
        Some(len) => Ok(len),
        None => Err(
            Error::SizeOverflow {
                value: usize::MAX,
                max: u32::MAX as usize,
                what: "decmpfs resource fork offset table",
            },
        ),
    }
}

/// Reads entry `index` of a resource fork's offset table.
pub fn read_offset(resource_fork: &[u8], index: usize) -> (r: Result<usize>)
    requires
        index * 4 + 4 <= usize::MAX || index * 4 > usize::MAX,
    ensures
        index * 4 > usize::MAX ==> r == Err::<usize, Error>(
            Error::InvalidResourceFork { reason: "offset table index overflowed" },
        ),
        index * 4 <= usize::MAX && (index + 1) * 4 <= resource_fork@.len() ==> r == Ok::<
            usize,
            Error,
        >(offset_spec(resource_fork@, index as nat) as usize),
        index * 4 <= usize::MAX && (index + 1) * 4 > resource_fork@.len() ==> r == Err::<
            usize,
            Error,
        >(Error::InvalidResourceFork { reason: "offset table is truncated" }),
{
    let start = match index.checked_mul(4) {
        Some(s) => s,
        None => return Err(Error::InvalidResourceFork { reason: "offset table index overflowed" }),
    };
    let end = start + 4;
    if end > resource_fork.len() {
        return Err(Error::InvalidResourceFork { reason: "offset table is truncated" });
    }
    Ok(read_u32_le(resource_fork, start) as usize)
}

/// Decodes one wrapper payload into `dst[base..base + expected]`.
pub fn decode_lzvn_block(payload: &[u8], expected: usize, dst: &mut [u8], base: usize) -> (r: Result<
    usize,
>)
    requires
        base + expected <= old(dst)@.len(),
    ensures
        final(dst)@.len() == old(dst)@.len(),
        match wrapper_decode_spec(payload@, expected) {
            Err(e) => r == Err::<usize, Error>(e),
            Ok(out) => r == Ok::<usize, Error>(out.len() as usize) && out.len() <= expected
                && final(dst)@.subrange(base as int, base + out.len()) == out
                && unchanged_outside(old(dst)@, final(dst)@, base as int, out.len() as int),
        },
{
    if payload.len() == expected.saturating_add(1) && expected < usize::MAX && payload[0]
        == UNCOMPRESSED_SENTINEL {
        let dst_len = dst.len();
        let mut index: usize = 0;
        while index < expected
            invariant
                index <= expected,
                base + expected <= dst@.len(),
                dst@.len() <= usize::MAX,
                payload@.len() == expected + 1,
                unchanged_outside(old(dst)@, dst@, base as int, index as int),
                forall|k: int| 0 <= k < index ==> #[trigger] dst@[base + k] == payload@[k + 1],
            decreases expected - index,
        {
            dst[base + index] = payload[index + 1];
            index = index + 1;
        }
        proof {
            assert forall|k: int| 0 <= k < expected implies #[trigger] dst@.subrange(
                base as int,
                base + expected,
            )[k] == payload@.subrange(1, payload@.len() as int)[k] by {
                assert(dst@[base + k] == payload@[k + 1]);
            }
            assert(dst@.subrange(base as int, base + expected) =~= payload@.subrange(
                1,
                payload@.len() as int,
            ));
        }
        return Ok(expected);
    }
    decode_window(payload, dst, base, expected)
}

/// Decodes a resource fork of LZVN blocks into `dst[..expected]`.
pub fn decode_lzvn_resource_fork(resource_fork: &[u8], expected: usize, dst: &mut [u8]) -> (r: Result<
    usize,
>)
    requires
        expected <= old(dst)@.len(),
    ensures
        final(dst)@.len() == old(dst)@.len(),
        match fork_spec(resource_fork@, expected) {
            Err(e) => r == Err::<usize, Error>(e),
            Ok(out) => r == Ok::<usize, Error>(out.len() as usize) && out.len() <= expected
                && written_prefix(old(dst)@, final(dst)@, out),
        },
{
    let fork_len = resource_fork.len();
    let block_count = block_count(expected);
    let table_len = match offset_table_len(block_count) {
        Ok(len) => len,
        Err(e) => return Err(e),
    };
    if resource_fork.len() < table_len {
        return Err(Error::InvalidResourceFork { reason: "offset table is truncated" });
    }
    let first_offset = match read_offset(resource_fork, 0) {
        Ok(o) => o,
        Err(e) => return Err(e),
    };
    if first_offset != table_len {
        return Err(
            Error::InvalidResourceFork {
                reason: "first block offset does not match offset table size",
            },
        );
    }
    if block_count == 0 {
        if first_offset != resource_fork.len() {
            return Err(
                Error::InvalidResourceFork { reason: "empty resource fork has trailing data" },
            );
        }
        proof {
            assert(dst@.subrange(0, 0) =~= Seq::<u8>::empty());
        }
        return Ok(0);
    }
    let ghost fork = resource_fork@;
    let mut produced: usize = 0;
    let mut previous_offset = first_offset;
    let mut block_index: usize = 0;
    proof {
        assert(dst@.subrange(0, 0) =~= Seq::<u8>::empty());
    }
    while block_index < block_count
        invariant
            fork == resource_fork@,
            fork_len == fork.len(),
            block_count == block_count_spec(expected),
            block_count * 0x10000 < expected + 0x10000,
            block_count * 0x10000 >= expected,
            block_count <= usize::MAX / 0x10000 + 1,
            table_len == (block_count + 1) * 4,
            table_len <= fork.len(),
            block_index <= block_count,
            block_index < block_count ==> produced == block_index * 0x10000,
            block_index == block_count ==> produced == expected,
            produced <= expected,
            previous_offset <= fork.len(),
            expected <= dst@.len(),
            dst@.len() == old(dst)@.len(),
            unchanged_outside(old(dst)@, dst@, 0, produced as int),
            fork_spec(fork, expected) == blocks_spec(
                fork,
                expected,
                block_count as nat,
                block_index as nat,
                previous_offset as nat,
                dst@.subrange(0, produced as int),
            ),
        decreases block_count - block_index,
    {
        let next_offset = match read_offset(resource_fork, block_index + 1) {
            Ok(o) => o,
            Err(e) => return Err(e),
        };
        if next_offset < previous_offset || next_offset > resource_fork.len() {
            return Err(Error::InvalidResourceFork { reason: "block offsets are invalid" });
        }
        let expected_block = remaining_block_size(expected, block_index);
        let block = &resource_fork[previous_offset..next_offset];
        let ghost before = dst@;
        let written = match decode_lzvn_block(block, expected_block, dst, produced) {
            Ok(w) => w,
            Err(e) => return Err(e),
        };
        if written != expected_block {
            return Err(Error::SizeMismatch { expected: expected_block, actual: written });
        }
        proof {
            let acc = before.subrange(0, produced as int);
            let out = dst@.subrange(produced as int, produced + written);
            assert(dst@.subrange(0, produced + written) =~= acc + out) by {
                assert forall|i: int| 0 <= i < produced implies dst@[i] == before[i] by {}
            }
        }
        produced = produced + expected_block;
        previous_offset = next_offset;
        block_index = block_index + 1;
    }
    if previous_offset != resource_fork.len() {
        return Err(
            Error::InvalidResourceFork {
                reason: "last block offset does not reach end of resource fork",
            },
        );
    }
    Ok(produced)
}

/// Where block `index` of `len` bytes starts, or `len` past the last block.
pub open spec fn chunk_start(len: nat, index: nat) -> nat {
    if index * 0x10000 < len {
        index * 0x10000
    } else {
        len
    }
}

/// The resource fork is an offset table of `offsets`, then `blocks` in order.
pub open spec fn fork_layout(fork: Seq<u8>, offsets: Seq<u32>, blocks: Seq<Vec<u8>>) -> bool {
    &&& offsets.len() == blocks.len() + 1
    &&& offsets[0] == 4 * offsets.len()
    &&& forall|j: int| 0 <= j < offsets.len() ==> offset_spec(fork, j as nat) == #[trigger] offsets[j]
    &&& forall|j: int|
        0 <= j < blocks.len() ==> #[trigger] offsets[j + 1] == offsets[j] + blocks[j]@.len()
    &&& forall|j: int|
        0 <= j < blocks.len() ==> #[trigger] fork.subrange(offsets[j] as int, offsets[j + 1] as int)
            == blocks[j]@
    &&& forall|j: int| 0 <= j < offsets.len() ==> #[trigger] offsets[j] <= fork.len()
    &&& offsets[blocks.len() as int] == fork.len()
}

/// Each block decodes to its 64 KiB chunk of `src`.
pub open spec fn blocks_hold(src: Seq<u8>, blocks: Seq<Vec<u8>>) -> bool {
    forall|j: int|
        0 <= j < blocks.len() ==> wrapper_decode_spec(
            #[trigger] blocks[j]@,
            block_size_spec(src.len() as usize, j as nat) as usize,
        ) == Ok::<Seq<u8>, Error>(
            src.subrange(j * 0x10000, j * 0x10000 + block_size_spec(src.len() as usize, j as nat)),
        )
}

proof fn lemma_blocks_decode(
    fork: Seq<u8>,
    src: Seq<u8>,
    offsets: Seq<u32>,
    blocks: Seq<Vec<u8>>,
    i: nat,
)
    requires
        src.len() <= usize::MAX,
        blocks.len() == block_count_spec(src.len() as usize),
        blocks.len() * 0x10000 >= src.len(),
        blocks.len() * 0x10000 < src.len() + 0x10000,
        fork_layout(fork, offsets, blocks),
        blocks_hold(src, blocks),
        i <= blocks.len(),
    ensures
        blocks_spec(
            fork,
            src.len() as usize,
            blocks.len(),
            i,
            offsets[i as int] as nat,
            src.subrange(0, chunk_start(src.len(), i) as int),
        ) == Ok::<Seq<u8>, Error>(src),
    decreases blocks.len() - i,
{
    let len = src.len();
    let count = blocks.len();
    if i >= count {
        assert(src.subrange(0, len as int) =~= src);
    } else {
        let size = block_size_spec(len as usize, i);
        let start = i * 0x10000;
        assert(start < len);
        let next = offset_spec(fork, i + 1);
        assert(next == offsets[i as int + 1]);
        assert(offsets[i as int + 1] == offsets[i as int] + blocks[i as int]@.len());
        assert(fork.subrange(offsets[i as int] as int, offsets[i as int + 1] as int) == blocks[i as int]@);
        assert(offsets[i as int + 1] <= fork.len());
        let out = src.subrange(start as int, (start + size) as int);
        assert(wrapper_decode_spec(blocks[i as int]@, size as usize) == Ok::<Seq<u8>, Error>(out));
        assert(src.subrange(0, start as int) + out =~= src.subrange(0, (start + size) as int));
        assert(chunk_start(len, i) == start);
        assert(chunk_start(len, i + 1) == start + size);
        lemma_blocks_decode(fork, src, offsets, blocks, i + 1);
    }
}

/// A resource fork laid out from blocks of `src` decodes back to `src`.
proof fn lemma_fork_decodes(fork: Seq<u8>, src: Seq<u8>, offsets: Seq<u32>, blocks: Seq<Vec<u8>>)
    requires
        src.len() <= usize::MAX,
        blocks.len() == block_count_spec(src.len() as usize),
        blocks.len() * 0x10000 >= src.len(),
        blocks.len() * 0x10000 < src.len() + 0x10000,
        fork_layout(fork, offsets, blocks),
        blocks_hold(src, blocks),
    ensures
        fork_spec(fork, src.len() as usize) == Ok::<Seq<u8>, Error>(src),
{
    assert(offset_spec(fork, 0) == offsets[0]);
    assert(offsets[0] <= fork.len());
    if blocks.len() == 0 {
        assert(src.len() == 0);
        assert(src =~= Seq::<u8>::empty());
    } else {
        lemma_blocks_decode(fork, src, offsets, blocks, 0);
        assert(src.subrange(0, 0) =~= Seq::<u8>::empty());
    }
}

/// A resource fork for `len` bytes certainly fits 32-bit offsets: the
/// table, plus every block stored uncompressed behind its sentinel byte.
pub open spec fn fork_fits(len: usize) -> bool {
    len + 5 * block_count_spec(len) + 4 <= u32::MAX
}

/// How encoding `src` as a resource fork answers for its size: an offset
/// table past the 32-bit offset range, or a fork past it, is an overflow
/// naming what overflowed; a fork that fits succeeds.
pub open spec fn fork_size_outcome<T>(src: Seq<u8>, r: core::result::Result<T, Error>) -> bool {
    let table = 4 * (block_count_spec(src.len() as usize) + 1);
    let total = table + fork_payload_total(src, block_count_spec(src.len() as usize));
    &&& table > u32::MAX ==> r == Err::<T, Error>(
        Error::SizeOverflow {
            value: table as usize,
            max: u32::MAX as usize,
            what: "decmpfs resource fork offset table",
        },
    )
    &&& table <= u32::MAX && total > u32::MAX ==> r == Err::<T, Error>(
        Error::SizeOverflow { value: usize::MAX, max: u32::MAX as usize, what: "decmpfs resource fork" },
    )
    &&& total <= u32::MAX ==> r is Ok
}

/// The number of payload bytes the first `k` blocks of `src` take.
pub open spec fn fork_payload_total(src: Seq<u8>, k: nat) -> nat
    decreases k,
{
    if k == 0 {
        0
    } else {
        fork_payload_total(src, (k - 1) as nat) + best_payload_spec(
            chunk_spec(src, k - 1),
        ).len()
    }
}

/// The payload bytes of more blocks are at least those of fewer.
proof fn lemma_payload_total_grows(src: Seq<u8>, i: nat, j: nat)
    requires
        i <= j,
    ensures
        fork_payload_total(src, i) <= fork_payload_total(src, j),
    decreases j - i,
{
    if i < j {
        lemma_payload_total_grows(src, i, (j - 1) as nat);
    }
}

/// Encode `src` as a resource fork of independently compressed 64 KiB
/// blocks behind an offset table.
///
/// The fork decodes back to `src`; the only failures are sizes that do not
/// fit the table's 32-bit offsets.
pub fn encode_resource_fork(src: &[u8]) -> (r: Result<Vec<u8>>)
    ensures
        r matches Ok(fork) ==> fork_spec(fork@, src@.len() as usize) == Ok::<Seq<u8>, Error>(src@),
        r matches Ok(fork) ==> fork_encodes(fork@, src@),
        r matches Err(e) ==> e is SizeOverflow,
        fork_fits(src@.len() as usize) ==> r is Ok,
        fork_size_outcome(src@, r),
{
    let len = src.len();
    let block_count = block_count(len);
    let table_len = match offset_table_len(block_count) {
        Ok(t) => t,
        Err(e) => return Err(e),
    };
    if table_len > u32::MAX as usize {
        return Err(
            Error::SizeOverflow {
                value: table_len,
                max: u32::MAX as usize,
                what: "decmpfs resource fork offset table",
            },
        );
    }
    let mut offset: u32 = table_len as u32;
    let mut offsets: Vec<u32> = Vec::new();
    offsets.push(offset);
    let mut blocks: Vec<Vec<u8>> = Vec::new();
    let mut start: usize = 0;
    let mut index: usize = 0;
    while start < len
        invariant
            len == src@.len(),
            block_count == block_count_spec(len),
            block_count * 0x10000 >= len,
            block_count * 0x10000 < len + 0x10000,
            table_len == (block_count + 1) * 4,
            index <= block_count,
            index < block_count ==> start == index * 0x10000,
            index == block_count ==> start == len,
            start <= len,
            blocks@.len() == index,
            offsets@.len() == index + 1,
            offsets@[0] == table_len,
            offsets@[index as int] == offset,
            forall|j: int|
                0 <= j < index ==> #[trigger] offsets@[j + 1] == offsets@[j] + blocks@[j]@.len(),
            forall|j: int| 0 <= j <= index ==> #[trigger] offsets@[j] <= offset,
            blocks_hold(src@, blocks@),
            forall|j: int| 0 <= j < index ==> #[trigger] blocks@[j]@ == best_payload_spec(chunk_spec(src@, j)),
            offset <= table_len + start + index,
            offset == table_len + fork_payload_total(src@, index as nat),
        decreases len - start,
    {
        let end = if len - start > CHUNK_SIZE { start + CHUNK_SIZE } else { len };
        let block = best_lzvn_wrapper_payload(&src[start..end]);
        proof {
            assert(end - start == block_size_spec(len, index as nat));
            assert(src@.subrange(start as int, end as int) =~= chunk_spec(src@, index as int));
            assert(fork_payload_total(src@, (index + 1) as nat) == fork_payload_total(src@, index as nat)
                + block@.len());
            lemma_payload_total_grows(src@, (index + 1) as nat, block_count as nat);
        }
        if block.len() > u32::MAX as usize {
            return Err(
                Error::SizeOverflow {
                    value: block.len(),
                    max: u32::MAX as usize,
                    what: "decmpfs resource block",
                },
            );
        }
        let block_len = block.len() as u32;
        offset = match offset.checked_add(block_len) {
            Some(o) => o,
            None => {
                return Err(
                    Error::SizeOverflow {
                        value: usize::MAX,
                        max: u32::MAX as usize,
                        what: "decmpfs resource fork",
                    },
                )
            },
        };
        let ghost old_blocks = blocks@;
        let ghost old_offsets = offsets@;
        offsets.push(offset);
        blocks.push(block);
        proof {
            assert(end - start == block_size_spec(len, index as nat));
            assert forall|j: int| 0 <= j < index + 1 implies #[trigger] blocks@[j]@ == best_payload_spec(chunk_spec(src@, j)) by {
                if j < index {
                    assert(blocks@[j] == old_blocks[j]);
                } else {
                    assert(src@.subrange(start as int, end as int) =~= chunk_spec(src@, j));
                }
            }
            assert forall|j: int| 0 <= j < blocks@.len() implies wrapper_decode_spec(
                #[trigger] blocks@[j]@,
                block_size_spec(src@.len() as usize, j as nat) as usize,
            ) == Ok::<Seq<u8>, Error>(
                src@.subrange(j * 0x10000, j * 0x10000 + block_size_spec(src@.len() as usize, j as nat)),
            ) by {
                if j < index {
                    assert(blocks@[j] == old_blocks[j]);
                }
            }
            assert forall|j: int| 0 <= j < index + 1 implies #[trigger] offsets@[j + 1] == offsets@[j]
                + blocks@[j]@.len() by {
                if j < index {
                    assert(offsets@[j + 1] == old_offsets[j + 1]);
                    assert(offsets@[j] == old_offsets[j]);
                    assert(blocks@[j] == old_blocks[j]);
                }
            }
        }
        start = end;
        index = index + 1;
    }
    let mut fork: Vec<u8> = Vec::new();
    let mut k: usize = 0;
    let entries = offsets.len();
    while k < entries
        invariant
            entries == offsets@.len(),
            k <= entries,
            fork@.len() == 4 * k,
            forall|j: int| 0 <= j < k ==> offset_spec(fork@, j as nat) == #[trigger] offsets@[j],
        decreases entries - k,
    {
        let ghost before = fork@;
        push_u32_le(&mut fork, offsets[k]);
        proof {
            lemma_u32_roundtrip(offsets@[k as int] as nat);
            lemma_le_u32_append(before, u32_le_bytes(offsets@[k as int] as nat));
            assert forall|j: int| 0 <= j < k + 1 implies offset_spec(fork@, j as nat) == #[trigger] offsets@[j] by {
                if j < k {
                    assert(le_u32(before, 4 * j) == offsets@[j]);
                }
            }
        }
        k = k + 1;
    }
    let mut b: usize = 0;
    while b < index
        invariant
            b <= index,
            blocks@.len() == index,
            offsets@.len() == index + 1,
            offsets@[0] == table_len,
            table_len == 4 * (index + 1),
            fork@.len() == offsets@[b as int],
            forall|j: int|
                0 <= j < index ==> #[trigger] offsets@[j + 1] == offsets@[j] + blocks@[j]@.len(),
            forall|j: int| 0 <= j <= index ==> offset_spec(fork@, j as nat) == #[trigger] offsets@[j],
            forall|j: int|
                0 <= j < b ==> #[trigger] fork@.subrange(offsets@[j] as int, offsets@[j + 1] as int)
                    == blocks@[j]@,
            forall|j: int| 0 <= j <= index ==> #[trigger] offsets@[j] <= offset,
            offsets@[index as int] == offset,
        decreases index - b,
    {
        let ghost before = fork@;
        extend_bytes(&mut fork, blocks[b].as_slice());
        proof {
            lemma_le_u32_append(before, blocks@[b as int]@);
            assert forall|j: int| 0 <= j <= index implies offset_spec(fork@, j as nat) == #[trigger] offsets@[j] by {
                assert(4 * j + 4 <= table_len);
                assert(table_len <= before.len()) by {
                    assert(offsets@[0] <= offsets@[b as int]) by {
                        lemma_offsets_grow(offsets@, blocks@, 0, b as nat);
                    }
                }
            }
            assert forall|j: int| 0 <= j < b + 1 implies #[trigger] fork@.subrange(offsets@[j] as int, offsets@[j + 1] as int)
                == blocks@[j]@ by {
                if j < b {
                    lemma_offsets_grow(offsets@, blocks@, (j + 1) as nat, b as nat);
                    assert(fork@.subrange(offsets@[j] as int, offsets@[j + 1] as int) =~= before.subrange(offsets@[j] as int, offsets@[j + 1] as int));
                } else {
                    assert(fork@.subrange(offsets@[j] as int, offsets@[j + 1] as int) =~= blocks@[j]@);
                }
            }
        }
        b = b + 1;
    }
    proof {
        assert forall|j: int| 0 <= j < offsets@.len() implies #[trigger] offsets@[j] <= fork@.len() by {}
        lemma_fork_decodes(fork@, src@, offsets@, blocks@);
        lemma_fork_encodes(fork@, src@, offsets@, blocks@);
    }
    Ok(fork)
}

/// A fork laid out from the stored payloads of the blocks of `src` is the
/// fork the encoder builds for `src`.
proof fn lemma_fork_encodes(fork: Seq<u8>, src: Seq<u8>, offsets: Seq<u32>, blocks: Seq<Vec<u8>>)
    requires
        blocks.len() == block_count_spec(src.len() as usize),
        fork_layout(fork, offsets, blocks),
        forall|j: int| 0 <= j < blocks.len() ==> #[trigger] blocks[j]@ == best_payload_spec(chunk_spec(src, j)),
    ensures
        fork_encodes(fork, src),
{
    let n = blocks.len();
    assert(offset_spec(fork, 0) == offsets[0]);
    assert(offset_spec(fork, n) == offsets[n as int]);
    assert(offsets[0] <= fork.len());
    assert forall|j: int| 0 <= j < n implies {
        let payload = best_payload_spec(#[trigger] chunk_spec(src, j));
        &&& offset_spec(fork, (j + 1) as nat) == offset_spec(fork, j as nat) + payload.len()
        &&& fork.subrange(
            offset_spec(fork, j as nat) as int,
            offset_spec(fork, (j + 1) as nat) as int,
        ) == payload
    } by {
        assert(blocks[j]@ == best_payload_spec(chunk_spec(src, j)));
        assert(offset_spec(fork, j as nat) == offsets[j]);
        assert(offset_spec(fork, (j + 1) as nat) == offsets[j + 1]);
        assert(offsets[j + 1] == offsets[j] + blocks[j]@.len());
        assert(fork.subrange(offsets[j] as int, offsets[j + 1] as int) == blocks[j]@);
    }
}

/// Offsets only grow.
proof fn lemma_offsets_grow(offsets: Seq<u32>, blocks: Seq<Vec<u8>>, i: nat, j: nat)
    requires
        offsets.len() == blocks.len() + 1,
        forall|k: int|
            0 <= k < blocks.len() ==> #[trigger] offsets[k + 1] == offsets[k] + blocks[k]@.len(),
        i <= j <= blocks.len(),
    ensures
        offsets[i as int] <= offsets[j as int],
    decreases j - i,
{
    if i < j {
        lemma_offsets_grow(offsets, blocks, i, (j - 1) as nat);
        assert(offsets[j - 1 + 1] == offsets[j - 1] + blocks[j - 1]@.len());
    }
}

/// The views of an optional byte slice.
pub open spec fn option_view(o: Option<&[u8]>) -> Option<Seq<u8>> {
    match o {
        None => None,
        Some(s) => Some(s@),
    }
}

/// The views of an optional byte vector.
pub open spec fn vec_option_view(o: Option<Vec<u8>>) -> Option<Seq<u8>> {
    match o {
        None => None,
        Some(v) => Some(v@),
    }
}

} // verus!
