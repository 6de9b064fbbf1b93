//! Safe LZVN encoding and decoding primitives.
//!
//! The crate provides raw LZVN streams and the Apple wrappers `bvxn` and
//! `decmpfs`, each with a specification that the code is proved against:
//! decoders return exactly what the stream's meaning
//! ([`raw::semantics::run`]) gives, and every encoder's output decodes back
//! to its input.

pub mod apple;
mod bytes;
mod error;
pub mod raw;
mod stream;

pub use apple::bvxn::{
    parse_header as parse_bvxn_header, BvxnDecoder, BvxnEncoder, BvxnHeader, BVXN_MAGIC,
};
pub use apple::fs::decmpfs::{
    parse_header as parse_decmpfs_header, DecmpfsCompressionType, DecmpfsHeader, EncodedDecmpfs,
    DECMPFS_CHUNK_SIZE, DECMPFS_HEADER_LEN, DECMPFS_MAGIC, DECMPFS_MAX_XATTR_DATA_SIZE,
    DECMPFS_MAX_XATTR_SIZE,
};
pub use error::{Error, Result};
pub use raw::{RawDecoder, RawEncoder};
pub use stream::{StreamProgress, StreamStatus};

use apple::bvxn::{decode_block_spec, split_spec};
use apple::fs::blocks::option_view;
use apple::fs::decmpfs::{decode_into_outcome, decode_wrapper_spec, encode_outcome};
use raw::decode::unchanged_outside;
use raw::encode::encode_spec;
use raw::encoding::eos_marker;
use raw::semantics::{decode_exact_spec, decode_spec};
use vstd::prelude::*;

verus! {

/// Encode bytes as a raw LZVN stream.
///
/// The returned stream includes the padded 8-byte end-of-stream marker emitted
/// by Apple-compatible encoders, and decodes back to `src` into any buffer
/// that can hold it. It is at most two bytes per source byte, plus eight,
/// and is exactly [`raw::encode::encode_spec`] of `src`.
pub fn encode_raw(src: &[u8]) -> (out: Vec<u8>)
    ensures
        forall|cap: nat| cap >= src@.len() ==> #[trigger] decode_spec(out@, cap) == Ok::<
            Seq<u8>,
            Error,
        >(src@),
        out@.len() >= 8,
        out@.subrange(out@.len() - 8, out@.len() as int) == eos_marker(),
        out@.len() <= 2 * src@.len() + 8,
        out@ == encode_spec(src@),
{
    raw::encode(src)
}

/// Decode a raw LZVN stream into a newly allocated buffer.
///
/// The caller supplies the expected decoded size because raw LZVN streams do
/// not carry it on their own.
pub fn decode_raw(src: &[u8], decoded_len: usize) -> (r: Result<Vec<u8>>)
    ensures
        match decode_exact_spec(src@, decoded_len as nat) {
            Ok(out) => r matches Ok(v) && v@ == out,
            Err(e) => r == Err::<Vec<u8>, Error>(e),
        },
{
    raw::decode(src, decoded_len)
}

/// Decode a raw LZVN stream into an existing output buffer.
///
/// Returns the number of bytes written before the end-of-stream marker.
pub fn decode_raw_into(src: &[u8], dst: &mut [u8]) -> (r: Result<usize>)
    ensures
        unchanged_outside(old(dst)@, final(dst)@, 0, old(dst)@.len() as int),
        match decode_spec(src@, old(dst)@.len() as nat) {
            Ok(out) => r == Ok::<usize, Error>(out.len() as usize) && out.len() <= old(dst)@.len()
                && final(dst)@.subrange(0, out.len() as int) == out
                && unchanged_outside(old(dst)@, final(dst)@, 0, out.len() as int),
            Err(e) => r == Err::<usize, Error>(e),
        },
{
    raw::decode_into(src, dst)
}

/// Encode bytes as an Apple `decmpfs` LZVN wrapper.
///
/// Small payloads are stored inline in the xattr and larger payloads are
/// stored in a resource fork.
pub fn encode_decmpfs(src: &[u8]) -> (r: Result<EncodedDecmpfs>)
    ensures
        encode_outcome(src@, r),
{
    apple::fs::decmpfs::encode(src)
}

/// Decode an Apple `decmpfs` wrapper into a newly allocated buffer.
pub fn decode_decmpfs(xattr: &[u8], resource_fork: Option<&[u8]>) -> (r: Result<Vec<u8>>)
    ensures
        match decode_wrapper_spec(xattr@, option_view(resource_fork)) {
            Ok(out) => r matches Ok(v) && v@ == out,
            Err(e) => r == Err::<Vec<u8>, Error>(e),
        },
{
    apple::fs::decmpfs::decode(xattr, resource_fork)
}

/// Decode an Apple `decmpfs` wrapper into an existing output buffer.
pub fn decode_decmpfs_into(xattr: &[u8], resource_fork: Option<&[u8]>, dst: &mut [u8]) -> (r: Result<
    usize,
>)
    ensures
        decode_into_outcome(xattr@, option_view(resource_fork), old(dst)@, final(dst)@, r),
{
    apple::fs::decmpfs::decode_into(xattr, resource_fork, dst)
}

/// Encode bytes as an Apple `bvxn` block.
///
/// The block decodes back to `src`; a source or payload longer than
/// `u32::MAX` bytes is refused with `SizeOverflow`.
pub fn encode_bvxn(src: &[u8]) -> (r: Result<Vec<u8>>)
    ensures
        apple::bvxn::encode_outcome(src@, r),
{
    apple::bvxn::encode(src)
}

/// Decode an Apple `bvxn` block into a newly allocated buffer.
pub fn decode_bvxn(src: &[u8]) -> (r: Result<Vec<u8>>)
    ensures
        match decode_block_spec(src@) {
            Ok(out) => r matches Ok(v) && v@ == out,
            Err(e) => r == Err::<Vec<u8>, Error>(e),
        },
{
    apple::bvxn::decode(src)
}

/// Decode an Apple `bvxn` block into an existing output buffer.
///
/// Returns the number of bytes written.
pub fn decode_bvxn_into(src: &[u8], dst: &mut [u8]) -> (r: Result<usize>)
    ensures
        final(dst)@.len() == old(dst)@.len(),
        match split_spec(src@) {
            Err(e) => r == Err::<usize, Error>(e) && final(dst)@ == old(dst)@,
            Ok((header, payload)) => match decode_spec(payload, old(dst)@.len() as nat) {
                Err(e) => r == Err::<usize, Error>(e),
                Ok(out) => if out.len() == header.raw_bytes {
                    r == Ok::<usize, Error>(out.len() as usize)
                        && final(dst)@.subrange(0, out.len() as int) == out
                        && unchanged_outside(old(dst)@, final(dst)@, 0, out.len() as int)
                } else {
                    r == Err::<usize, Error>(
                        Error::SizeMismatch { expected: header.raw_bytes, actual: out.len() as usize },
                    )
                },
            },
        },
{
    apple::bvxn::decode_into(src, dst)
}

/// A raw stream decoded into a new buffer of `decoded_len` bytes
/// ([`decode_raw`]) and into a caller's buffer of `decoded_len` bytes
/// ([`decode_raw_into`]): the first succeeds exactly when the second
/// succeeds and fills the whole buffer, and then both give the same bytes;
/// when the second fails, the first fails with the same error.
pub proof fn lemma_decode_raw_matches_decode_raw_into(src: Seq<u8>, decoded_len: nat)
    ensures
        decode_exact_spec(src, decoded_len) is Ok <==> (decode_spec(src, decoded_len) matches Ok(
            out,
        ) && out.len() == decoded_len),
        decode_exact_spec(src, decoded_len) matches Ok(out) ==> decode_spec(src, decoded_len)
            == Ok::<Seq<u8>, Error>(out),
        decode_spec(src, decoded_len) matches Err(e) ==> decode_exact_spec(src, decoded_len) == Err::<
            Seq<u8>,
            Error,
        >(e),
{
}

/// A `bvxn` block decoded into a new buffer ([`decode_bvxn`]) and into a
/// caller's buffer of the size its header announces ([`decode_bvxn_into`])
/// gives the same result: the same bytes, or the same error.
pub proof fn lemma_decode_bvxn_matches_decode_bvxn_into(src: Seq<u8>)
    ensures
        match split_spec(src) {
            Err(e) => decode_block_spec(src) == Err::<Seq<u8>, Error>(e),
            Ok((header, payload)) => decode_block_spec(src) == match decode_spec(
                payload,
                header.raw_bytes as nat,
            ) {
                Ok(out) => if out.len() == header.raw_bytes {
                    Ok::<Seq<u8>, Error>(out)
                } else {
                    Err::<Seq<u8>, Error>(
                        Error::SizeMismatch { expected: header.raw_bytes, actual: out.len() as usize },
                    )
                },
                Err(e) => Err::<Seq<u8>, Error>(e),
            },
        },
{
}

/// The size of the output buffer only decides whether a raw stream fits:
/// once it decodes into one buffer, it decodes to the same bytes into any
/// buffer that holds them, and into a buffer that does not it fails with
/// `OutputTooSmall`, naming that buffer's capacity.
pub proof fn lemma_buffer_size_only_decides_room(src: Seq<u8>, cap1: nat, cap2: nat)
    requires
        decode_spec(src, cap1) is Ok,
    ensures
        decode_spec(src, cap1) matches Ok(out) && (out.len() <= cap2 ==> decode_spec(src, cap2)
            == Ok::<Seq<u8>, Error>(out)) && (out.len() > cap2 ==> decode_spec(src, cap2) is Err)
            && (out.len() > cap2 && cap2 <= usize::MAX ==> (decode_spec(src, cap2) matches Err(
            Error::OutputTooSmall { written, capacity },
        ) && written <= cap2 && capacity == cap2 as usize)),
{
    if let Ok(out) = decode_spec(src, cap1) {
        if out.len() <= cap2 {
            raw::semantics::lemma_run_cap(src, cap1, cap2, raw::semantics::initial_state());
        } else {
            if let Ok(other) = decode_spec(src, cap2) {
                raw::semantics::lemma_run_within_cap(src, cap1, raw::semantics::initial_state());
                raw::semantics::lemma_run_within_cap(src, cap2, raw::semantics::initial_state());
                raw::semantics::lemma_run_cap(src, cap2, cap1, raw::semantics::initial_state());
            }
            if cap2 <= usize::MAX {
                raw::semantics::lemma_run_cap_exceeds(src, cap1, cap2, raw::semantics::initial_state());
            }
        }
    }
}

/// A raw stream that decodes with a compact one-byte end marker decodes the
/// same with up to seven zero bytes after the marker (the padded form);
/// more padding, or a padding byte that is not zero, is trailing data.
pub proof fn lemma_end_marker_padding(body: Seq<u8>, pad: Seq<u8>, cap: nat)
    requires
        decode_spec(body.push(0x06), cap) is Ok,
    ensures
        decode_spec(body.push(0x06) + pad, cap) == if raw::semantics::has_nonzero_from(pad, 0) {
            Err::<Seq<u8>, Error>(Error::TrailingData { remaining: pad.len() as usize })
        } else if pad.len() > 7 {
            Err::<Seq<u8>, Error>(Error::TrailingData { remaining: (pad.len() - 7) as usize })
        } else {
            decode_spec(body.push(0x06), cap)
        },
{
    let src = body.push(0x06);
    assert(src[src.len() - 1] == 0x06);
    raw::semantics::lemma_run_padding(src, pad, cap, raw::semantics::initial_state());
}

} // verus!
