//! Apple `decmpfs` wrappers for LZVN data: a 16-byte xattr header (magic,
//! compression type, decoded size), then either the payload inline or a
//! resource fork of independently compressed 64 KiB blocks behind an
//! offset table.

use crate::apple::fs::blocks::{
    best_lzvn_wrapper_payload, decode_lzvn_block, decode_lzvn_resource_fork, encode_resource_fork,
    best_payload_spec, fork_encodes, fork_fits, fork_size_outcome, fork_spec, is_wrapper_payload_of, option_view, vec_option_view, wrapper_decode_spec,
    written_prefix, CHUNK_SIZE,
};
use crate::bytes::{
    extend_bytes, le_u32, le_u32_value, le_u64, le_u64_usize, lemma_read_header_fields,
    len_usize, push_u32_le, push_usize_u64_le, read_u32_le, read_u64_le_usize, suffix_from,
    u32_bytes, usize_u64_bytes,
};
use crate::error::{Error, Result};
use vstd::prelude::*;

verus! {

/// Little-endian magic value for a `decmpfs` xattr header.
pub const DECMPFS_MAGIC: u32 = 0x636D_7066;

/// The size of the fixed `decmpfs` xattr header.
pub const DECMPFS_HEADER_LEN: usize = 16;

/// The maximum size of a `decmpfs` xattr.
pub const DECMPFS_MAX_XATTR_SIZE: usize = 3_802;

/// The maximum number of payload bytes that fit in the xattr after the header.
pub const DECMPFS_MAX_XATTR_DATA_SIZE: usize = DECMPFS_MAX_XATTR_SIZE - DECMPFS_HEADER_LEN;

/// The independent chunk size used by resource-fork-backed LZVN data.
pub const DECMPFS_CHUNK_SIZE: usize = CHUNK_SIZE;

/// Parsed `decmpfs` compression type values.
#[derive(Debug, Clone, Copy, PartialEq, Eq, Structural)]
pub enum DecmpfsCompressionType {
    /// zlib payload stored in the xattr.
    ZlibXattr,
    /// zlib payload stored in the resource fork.
    ZlibResourceFork,
    /// LZVN payload stored in the xattr.
    LzvnXattr,
    /// LZVN payload stored in the resource fork.
    LzvnResourceFork,
    /// Raw payload stored in the xattr.
    RawXattr,
    /// Raw payload stored in the resource fork.
    RawResourceFork,
    /// LZFSE payload stored in the xattr.
    LzfseXattr,
    /// LZFSE payload stored in the resource fork.
    LzfseResourceFork,
    /// LZBitmap payload stored in the xattr.
    LzBitmapXattr,
    /// LZBitmap payload stored in the resource fork.
    LzBitmapResourceFork,
    /// An unknown compression type value.
    Unknown(u32),
}

/// The compression type that an on-disk value names.
pub open spec fn type_of_raw(value: u32) -> DecmpfsCompressionType {
    match value {
        3 => DecmpfsCompressionType::ZlibXattr,
        4 => DecmpfsCompressionType::ZlibResourceFork,
        7 => DecmpfsCompressionType::LzvnXattr,
        8 => DecmpfsCompressionType::LzvnResourceFork,
        9 => DecmpfsCompressionType::RawXattr,
        10 => DecmpfsCompressionType::RawResourceFork,
        11 => DecmpfsCompressionType::LzfseXattr,
        12 => DecmpfsCompressionType::LzfseResourceFork,
        13 => DecmpfsCompressionType::LzBitmapXattr,
        14 => DecmpfsCompressionType::LzBitmapResourceFork,
        other => DecmpfsCompressionType::Unknown(other),
    }
}

/// The on-disk value of a compression type.
pub open spec fn raw_of_type(t: DecmpfsCompressionType) -> u32 {
    match t {
        DecmpfsCompressionType::ZlibXattr => 3,
        DecmpfsCompressionType::ZlibResourceFork => 4,
        DecmpfsCompressionType::LzvnXattr => 7,
        DecmpfsCompressionType::LzvnResourceFork => 8,
        DecmpfsCompressionType::RawXattr => 9,
        DecmpfsCompressionType::RawResourceFork => 10,
        DecmpfsCompressionType::LzfseXattr => 11,
        DecmpfsCompressionType::LzfseResourceFork => 12,
        DecmpfsCompressionType::LzBitmapXattr => 13,
        DecmpfsCompressionType::LzBitmapResourceFork => 14,
        DecmpfsCompressionType::Unknown(value) => value,
    }
}

impl DecmpfsCompressionType {
    /// Construct a parsed compression type from the raw on-disk value.
    pub fn from_raw(value: u32) -> (t: Self)
        ensures
            t == type_of_raw(value),
            value == 3 <==> t == DecmpfsCompressionType::ZlibXattr,
            value == 4 <==> t == DecmpfsCompressionType::ZlibResourceFork,
            value == 7 <==> t == DecmpfsCompressionType::LzvnXattr,
            value == 8 <==> t == DecmpfsCompressionType::LzvnResourceFork,
            value == 9 <==> t == DecmpfsCompressionType::RawXattr,
            value == 10 <==> t == DecmpfsCompressionType::RawResourceFork,
            value == 11 <==> t == DecmpfsCompressionType::LzfseXattr,
            value == 12 <==> t == DecmpfsCompressionType::LzfseResourceFork,
            value == 13 <==> t == DecmpfsCompressionType::LzBitmapXattr,
            value == 14 <==> t == DecmpfsCompressionType::LzBitmapResourceFork,
    {
        match value {
            3 => Self::ZlibXattr,
            4 => Self::ZlibResourceFork,
            7 => Self::LzvnXattr,
            8 => Self::LzvnResourceFork,
            9 => Self::RawXattr,
            10 => Self::RawResourceFork,
            11 => Self::LzfseXattr,
            12 => Self::LzfseResourceFork,
            13 => Self::LzBitmapXattr,
            14 => Self::LzBitmapResourceFork,
            other => Self::Unknown(other),
        }
    }

    /// Return the raw on-disk value of the compression type.
    pub fn raw_value(self) -> (v: u32)
        ensures
            v == raw_of_type(self),
            self == DecmpfsCompressionType::ZlibXattr ==> v == 3,
            self == DecmpfsCompressionType::ZlibResourceFork ==> v == 4,
            self == DecmpfsCompressionType::LzvnXattr ==> v == 7,
            self == DecmpfsCompressionType::LzvnResourceFork ==> v == 8,
            self == DecmpfsCompressionType::RawXattr ==> v == 9,
            self == DecmpfsCompressionType::RawResourceFork ==> v == 10,
            self == DecmpfsCompressionType::LzfseXattr ==> v == 11,
            self == DecmpfsCompressionType::LzfseResourceFork ==> v == 12,
            self == DecmpfsCompressionType::LzBitmapXattr ==> v == 13,
            self == DecmpfsCompressionType::LzBitmapResourceFork ==> v == 14,
            self matches DecmpfsCompressionType::Unknown(value) ==> v == value,
    {
        match self {
            Self::ZlibXattr => 3,
            Self::ZlibResourceFork => 4,
            Self::LzvnXattr => 7,
            Self::LzvnResourceFork => 8,
            Self::RawXattr => 9,
            Self::RawResourceFork => 10,
            Self::LzfseXattr => 11,
            Self::LzfseResourceFork => 12,
            Self::LzBitmapXattr => 13,
            Self::LzBitmapResourceFork => 14,
            Self::Unknown(value) => value,
        }
    }

    /// Return whether this type stores its payload in the resource fork.
    pub fn uses_resource_fork(self) -> (b: bool)
        ensures
            b <==> (self is ZlibResourceFork || self is LzvnResourceFork || self is RawResourceFork
                || self is LzfseResourceFork || self is LzBitmapResourceFork),
    {
        match self {
            Self::ZlibResourceFork | Self::LzvnResourceFork | Self::RawResourceFork
            | Self::LzfseResourceFork | Self::LzBitmapResourceFork => true,
            _ => false,
        }
    }
}

/// The on-disk compression type values that the `decmpfs` format fixes:
/// 3 and 4 are zlib, 7 and 8 LZVN, 9 and 10 stored uncompressed, 11 and 12
/// LZFSE, 13 and 14 LZBitmap, each pair first in the xattr, then in the
/// resource fork; any other value is an unknown type that keeps it.
pub proof fn lemma_compression_type_values(other: u32)
    ensures
        type_of_raw(3) == DecmpfsCompressionType::ZlibXattr,
        raw_of_type(DecmpfsCompressionType::ZlibXattr) == 3,
        type_of_raw(4) == DecmpfsCompressionType::ZlibResourceFork,
        raw_of_type(DecmpfsCompressionType::ZlibResourceFork) == 4,
        type_of_raw(7) == DecmpfsCompressionType::LzvnXattr,
        raw_of_type(DecmpfsCompressionType::LzvnXattr) == 7,
        type_of_raw(8) == DecmpfsCompressionType::LzvnResourceFork,
        raw_of_type(DecmpfsCompressionType::LzvnResourceFork) == 8,
        type_of_raw(9) == DecmpfsCompressionType::RawXattr,
        raw_of_type(DecmpfsCompressionType::RawXattr) == 9,
        type_of_raw(10) == DecmpfsCompressionType::RawResourceFork,
        raw_of_type(DecmpfsCompressionType::RawResourceFork) == 10,
        type_of_raw(11) == DecmpfsCompressionType::LzfseXattr,
        raw_of_type(DecmpfsCompressionType::LzfseXattr) == 11,
        type_of_raw(12) == DecmpfsCompressionType::LzfseResourceFork,
        raw_of_type(DecmpfsCompressionType::LzfseResourceFork) == 12,
        type_of_raw(13) == DecmpfsCompressionType::LzBitmapXattr,
        raw_of_type(DecmpfsCompressionType::LzBitmapXattr) == 13,
        type_of_raw(14) == DecmpfsCompressionType::LzBitmapResourceFork,
        raw_of_type(DecmpfsCompressionType::LzBitmapResourceFork) == 14,
        !(3 <= other <= 4 || 7 <= other <= 14) ==> type_of_raw(other)
            == DecmpfsCompressionType::Unknown(other),
{
}

/// Reading a compression type from its on-disk value and writing it back
/// gives the value back; writing a type's value and reading it gives the
/// type back, unless it is `Unknown` of a value that names a known type.
pub proof fn lemma_compression_type_roundtrip(value: u32, t: DecmpfsCompressionType)
    ensures
        raw_of_type(type_of_raw(value)) == value,
        !(t is Unknown && !(type_of_raw(raw_of_type(t)) is Unknown)) ==> type_of_raw(
            raw_of_type(t),
        ) == t,
{
}

/// Parsed metadata from a `decmpfs` xattr header.
#[derive(Debug, Clone, Copy, PartialEq, Eq)]
pub struct DecmpfsHeader {
    /// The compression type declared by the wrapper.
    pub compression_type: DecmpfsCompressionType,
    /// The number of bytes the wrapped payload decodes into.
    pub uncompressed_size: usize,
}

/// Encoded `decmpfs` output.
#[derive(Debug, Clone, PartialEq, Eq)]
pub struct EncodedDecmpfs {
    /// The full `com.apple.decmpfs` xattr value.
    pub xattr: Vec<u8>,
    /// Optional resource fork data when the payload does not fit inline.
    pub resource_fork: Option<Vec<u8>>,
}

/// What the first 16 bytes of an xattr say, or why they are no `decmpfs`
/// header.
pub open spec fn header_spec(xattr: Seq<u8>) -> core::result::Result<DecmpfsHeader, Error> {
    if xattr.len() < 16 {
        Err(Error::TruncatedInput { position: len_usize(xattr) })
    } else if le_u32(xattr, 0) != DECMPFS_MAGIC {
        Err(Error::InvalidDecmpfsMagic { magic: le_u32_value(xattr, 0) })
    } else if le_u64(xattr, 8) > usize::MAX {
        Err(
            Error::SizeOverflow {
                value: usize::MAX,
                max: usize::MAX,
                what: "decmpfs uncompressed size",
            },
        )
    } else {
        Ok(
            DecmpfsHeader {
                compression_type: type_of_raw(le_u32_value(xattr, 4)),
                uncompressed_size: le_u64_usize(xattr, 8),
            },
        )
    }
}

/// What the wrapper's body decodes to, before its size is checked.
pub open spec fn body_spec(
    header: DecmpfsHeader,
    payload: Seq<u8>,
    resource_fork: Option<Seq<u8>>,
) -> core::result::Result<Seq<u8>, Error> {
    match header.compression_type {
        DecmpfsCompressionType::LzvnXattr => wrapper_decode_spec(
            payload,
            header.uncompressed_size,
        ),
        DecmpfsCompressionType::LzvnResourceFork => if payload.len() > 0 {
            Err(Error::TrailingData { remaining: len_usize(payload) })
        } else {
            match resource_fork {
                None => Err(Error::MissingResourceFork),
                Some(fork) => fork_spec(fork, header.uncompressed_size),
            }
        },
        other => Err(
            Error::UnsupportedDecmpfsCompressionType { compression_type: raw_of_type(other) },
        ),
    }
}

/// The decoded body, which must hold exactly the header's size.
pub open spec fn sized_body_spec(
    header: DecmpfsHeader,
    payload: Seq<u8>,
    resource_fork: Option<Seq<u8>>,
) -> core::result::Result<Seq<u8>, Error> {
    match body_spec(header, payload, resource_fork) {
        Err(e) => Err(e),
        Ok(out) => if out.len() != header.uncompressed_size {
            Err(
                Error::SizeMismatch {
                    expected: header.uncompressed_size,
                    actual: len_usize(out),
                },
            )
        } else {
            Ok(out)
        },
    }
}

/// What a `decmpfs` xattr and optional resource fork decode to.
pub open spec fn decode_wrapper_spec(
    xattr: Seq<u8>,
    resource_fork: Option<Seq<u8>>,
) -> core::result::Result<Seq<u8>, Error> {
    match header_spec(xattr) {
        Err(e) => Err(e),
        Ok(header) => sized_body_spec(header, suffix_from(xattr, 16), resource_fork),
    }
}

/// The xattr header for `t` and `size`, followed by `payload`.
pub open spec fn xattr_bytes(t: DecmpfsCompressionType, size: usize, payload: Seq<u8>) -> Seq<u8> {
    u32_bytes(DECMPFS_MAGIC) + u32_bytes(raw_of_type(t)) + usize_u64_bytes(size) + payload
}

/// An xattr built for an LZVN type reads back as that type and size.
pub proof fn lemma_xattr_header(t: DecmpfsCompressionType, size: usize, payload: Seq<u8>)
    requires
        t is LzvnXattr || t is LzvnResourceFork,
    ensures
        header_spec(xattr_bytes(t, size, payload)) == Ok::<DecmpfsHeader, Error>(
            DecmpfsHeader { compression_type: t, uncompressed_size: size },
        ),
        suffix_from(xattr_bytes(t, size, payload), 16) == payload,
{
    lemma_read_header_fields(DECMPFS_MAGIC, raw_of_type(t), size, payload);
}

/// What `encode` returns for `src`: a wrapper that decodes back to `src`,
/// the stored payload ([`best_payload_spec`]) inline when it fits the
/// xattr, and otherwise a resource fork built block by block
/// ([`fork_encodes`]).
pub open spec fn encode_outcome(src: Seq<u8>, r: core::result::Result<EncodedDecmpfs, Error>) -> bool {
    &&& match r {
            Ok(encoded) => {
                &&& decode_wrapper_spec(encoded.xattr@, vec_option_view(encoded.resource_fork))
                    == Ok::<Seq<u8>, Error>(src)
                &&& match encoded.resource_fork {
                    None => {
                        let payload = suffix_from(encoded.xattr@, 16);
                        &&& encoded.xattr@ == xattr_bytes(
                            DecmpfsCompressionType::LzvnXattr,
                            len_usize(src),
                            payload,
                        )
                        &&& payload.len() <= DECMPFS_MAX_XATTR_DATA_SIZE
                        &&& is_wrapper_payload_of(payload, src)
                    },
                    Some(fork) => {
                        &&& encoded.xattr@ == xattr_bytes(
                            DecmpfsCompressionType::LzvnResourceFork,
                            len_usize(src),
                            Seq::empty(),
                        )
                        &&& fork_spec(fork@, len_usize(src)) == Ok::<Seq<u8>, Error>(src)
                        &&& src.len() + 1 > DECMPFS_MAX_XATTR_DATA_SIZE
                    },
                }
            },
            Err(e) => e is SizeOverflow && src.len() + 1 > DECMPFS_MAX_XATTR_DATA_SIZE,
        }
    &&& src.len() + 1 <= DECMPFS_MAX_XATTR_DATA_SIZE ==> (r matches Ok(encoded)
            && encoded.resource_fork is None)
    &&& src.len() <= usize::MAX && fork_fits(len_usize(src)) ==> r is Ok
    &&& best_payload_spec(src).len() <= DECMPFS_MAX_XATTR_DATA_SIZE ==> (r matches Ok(encoded)
        && encoded.resource_fork is None && encoded.xattr@ == xattr_bytes(
        DecmpfsCompressionType::LzvnXattr,
        len_usize(src),
        best_payload_spec(src),
    ))
    &&& best_payload_spec(src).len() > DECMPFS_MAX_XATTR_DATA_SIZE ==> (r matches Ok(encoded)
        ==> encoded.resource_fork matches Some(fork) && fork_encodes(fork@, src))
    &&& best_payload_spec(src).len() > DECMPFS_MAX_XATTR_DATA_SIZE ==> fork_size_outcome(src, r)
}

/// What `decode_into` returns and writes into `old_dst`, which becomes `new_dst`.
pub open spec fn decode_into_outcome(
    xattr: Seq<u8>,
    resource_fork: Option<Seq<u8>>,
    old_dst: Seq<u8>,
    new_dst: Seq<u8>,
    r: core::result::Result<usize, Error>,
) -> bool {
    &&& new_dst.len() == old_dst.len()
    &&& match header_spec(xattr) {
        Err(e) => r == Err::<usize, Error>(e) && new_dst == old_dst,
        Ok(header) => if old_dst.len() < header.uncompressed_size {
            r == Err::<usize, Error>(
                Error::OutputTooSmall { written: 0, capacity: len_usize(old_dst) },
            ) && new_dst == old_dst
        } else {
            match sized_body_spec(header, suffix_from(xattr, 16), resource_fork) {
                Err(e) => r == Err::<usize, Error>(e),
                Ok(out) => r == Ok::<usize, Error>(len_usize(out)) && written_prefix(
                    old_dst,
                    new_dst,
                    out,
                ),
            }
        },
    }
}

/// Parse the fixed 16-byte `decmpfs` header.
pub fn parse_header(xattr: &[u8]) -> (r: Result<DecmpfsHeader>)
    ensures
        r == header_spec(xattr@),
{
    if xattr.len() < DECMPFS_HEADER_LEN {
        return Err(Error::TruncatedInput { position: xattr.len() });
    }
    let magic = read_u32_le(xattr, 0);
    if magic != DECMPFS_MAGIC {
        return Err(Error::InvalidDecmpfsMagic { magic });
    }
    let compression_type = read_u32_le(xattr, 4);
    let uncompressed_size = match read_u64_le_usize(xattr, 8) {
        Some(size) => size,
        None => {
            return Err(
                Error::SizeOverflow {
                    value: usize::MAX,
                    max: usize::MAX,
                    what: "decmpfs uncompressed size",
                },
            )
        },
    };
    Ok(
        DecmpfsHeader {
            compression_type: DecmpfsCompressionType::from_raw(compression_type),
            uncompressed_size,
        },
    )
}

/// Encode bytes as a `decmpfs` LZVN wrapper.
///
/// Small payloads are stored inline in the xattr; larger payloads are split
/// into 64 KiB resource-fork blocks with an offset table. The result decodes
/// back to `src`.
pub fn encode(src: &[u8]) -> (r: Result<EncodedDecmpfs>)
    ensures
        encode_outcome(src@, r),
{
    let inline_payload = best_lzvn_wrapper_payload(src);
    if inline_payload.len() <= DECMPFS_MAX_XATTR_DATA_SIZE {
        let xattr = match build_xattr(
            DecmpfsCompressionType::LzvnXattr,
            src.len(),
            inline_payload.as_slice(),
        ) {
            Ok(x) => x,
            Err(e) => return Err(e),
        };
        proof {
            lemma_xattr_header(DecmpfsCompressionType::LzvnXattr, src.len(), inline_payload@);
        }
        return Ok(EncodedDecmpfs { xattr, resource_fork: None });
    }
    let resource_fork = match encode_resource_fork(src) {
        Ok(f) => f,
        Err(e) => return Err(e),
    };
    let empty: Vec<u8> = Vec::new();
    let xattr = match build_xattr(
        DecmpfsCompressionType::LzvnResourceFork,
        src.len(),
        empty.as_slice(),
    ) {
        Ok(x) => x,
        Err(e) => return Err(e),
    };
    proof {
        lemma_xattr_header(DecmpfsCompressionType::LzvnResourceFork, src.len(), empty@);
    }
    Ok(EncodedDecmpfs { xattr, resource_fork: Some(resource_fork) })
}

/// Decode a `decmpfs` value using optional resource-fork data.
pub fn decode(xattr: &[u8], resource_fork: Option<&[u8]>) -> (r: Result<Vec<u8>>)
    ensures
        match decode_wrapper_spec(xattr@, option_view(resource_fork)) {
            Ok(out) => r matches Ok(v) && v@ == out,
            Err(e) => r == Err::<Vec<u8>, Error>(e),
        },
{
    let (header, payload) = match split_xattr(xattr) {
        Ok(parts) => parts,
        Err(e) => return Err(e),
    };
    let mut dst = vec![0u8; header.uncompressed_size];
    let written = match decode_body(header, payload, resource_fork, dst.as_mut_slice()) {
        Ok(w) => w,
        Err(e) => return Err(e),
    };
    if written != header.uncompressed_size {
        return Err(Error::SizeMismatch { expected: header.uncompressed_size, actual: written });
    }
    proof {
        assert(dst@.subrange(0, dst@.len() as int) =~= dst@);
    }
    Ok(dst)
}

/// Decode a `decmpfs` value into an existing buffer.
///
/// Returns the number of bytes written. A buffer smaller than the header's
/// size is refused before anything is decoded.
pub fn decode_into(xattr: &[u8], resource_fork: Option<&[u8]>, dst: &mut [u8]) -> (r: Result<
    usize,
>)
    ensures
        decode_into_outcome(xattr@, option_view(resource_fork), old(dst)@, final(dst)@, r),
{
    let capacity = dst.len();
    let (header, payload) = match split_xattr(xattr) {
        Ok(parts) => parts,
        Err(e) => return Err(e),
    };
    if dst.len() < header.uncompressed_size {
        return Err(Error::OutputTooSmall { written: 0, capacity: dst.len() });
    }
    let written = match decode_body(header, payload, resource_fork, dst) {
        Ok(w) => w,
        Err(e) => return Err(e),
    };
    if written != header.uncompressed_size {
        return Err(Error::SizeMismatch { expected: header.uncompressed_size, actual: written });
    }
    Ok(written)
}

fn split_xattr(xattr: &[u8]) -> (r: Result<(DecmpfsHeader, &[u8])>)
    ensures
        match header_spec(xattr@) {
            Ok(header) => r matches Ok((h, p)) && h == header && p@ == suffix_from(xattr@, 16),
            Err(e) => r matches Err(e2) && e2 == e,
        },
{
    let header = match parse_header(xattr) {
        Ok(h) => h,
        Err(e) => return Err(e),
    };
    Ok((header, &xattr[DECMPFS_HEADER_LEN..xattr.len()]))
}

fn decode_body(
    header: DecmpfsHeader,
    payload: &[u8],
    resource_fork: Option<&[u8]>,
    dst: &mut [u8],
) -> (r: Result<usize>)
    requires
        header.uncompressed_size <= old(dst)@.len(),
    ensures
        final(dst)@.len() == old(dst)@.len(),
        match body_spec(header, payload@, option_view(resource_fork)) {
            Err(e) => r == Err::<usize, Error>(e),
            Ok(out) => r == Ok::<usize, Error>(len_usize(out)) && out.len()
                <= header.uncompressed_size && written_prefix(old(dst)@, final(dst)@, out),
        },
{
    match header.compression_type {
        DecmpfsCompressionType::LzvnXattr => decode_lzvn_block(
            payload,
            header.uncompressed_size,
            dst,
            0,
        ),
        DecmpfsCompressionType::LzvnResourceFork => {
            if payload.len() != 0 {
                return Err(Error::TrailingData { remaining: payload.len() });
            }
            match resource_fork {
                None => Err(Error::MissingResourceFork),
                Some(fork) => decode_lzvn_resource_fork(fork, header.uncompressed_size, dst),
            }
        },
        other => Err(
            Error::UnsupportedDecmpfsCompressionType { compression_type: other.raw_value() },
        ),
    }
}

/// The xattr for `compression_type` and `uncompressed_size`, with `payload`
/// inline. A size always fits the header's 64-bit field, so this never
/// fails.
fn build_xattr(
    compression_type: DecmpfsCompressionType,
    uncompressed_size: usize,
    payload: &[u8],
) -> (r: Result<Vec<u8>>)
    ensures
        r matches Ok(xattr) && xattr@ == xattr_bytes(compression_type, uncompressed_size, payload@),
{
    let mut xattr = Vec::new();
    push_u32_le(&mut xattr, DECMPFS_MAGIC);
    push_u32_le(&mut xattr, compression_type.raw_value());
    push_usize_u64_le(&mut xattr, uncompressed_size);
    extend_bytes(&mut xattr, payload);
    Ok(xattr)
}

/// A wrapper decoded into a new buffer ([`decode`]) and into a caller's
/// buffer of the size its header announces ([`decode_into`]) gives the same
/// result: the same bytes, or the same error.
pub proof fn lemma_decode_matches_decode_into(
    xattr: Seq<u8>,
    resource_fork: Option<Seq<u8>>,
    old_dst: Seq<u8>,
    new_dst: Seq<u8>,
    r: core::result::Result<usize, Error>,
)
    requires
        header_spec(xattr) matches Ok(header) && old_dst.len() == header.uncompressed_size,
        decode_into_outcome(xattr, resource_fork, old_dst, new_dst, r),
    ensures
        match decode_wrapper_spec(xattr, resource_fork) {
            Ok(out) => r == Ok::<usize, Error>(len_usize(out)) && written_prefix(old_dst, new_dst, out),
            Err(e) => r == Err::<usize, Error>(e),
        },
{
}

} // verus!
