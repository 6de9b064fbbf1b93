use vstd::prelude::*;

verus! {

/// Errors produced while encoding or decoding raw LZVN streams and Apple
/// wrappers such as `bvxn` and `decmpfs`.
#[derive(Debug, Clone, PartialEq, Eq)]
pub enum Error {
    /// The input ended before a full instruction or end marker was available.
    TruncatedInput {
        /// The byte offset where decoding needed more input.
        position: usize,
    },
    /// The decoder found an opcode that is reserved or undefined.
    InvalidOpcode {
        /// The byte offset of the invalid opcode.
        position: usize,
        /// The invalid opcode byte.
        opcode: u8,
    },
    /// A match referred to bytes that do not exist in the decoded history.
    InvalidMatchDistance {
        /// The decoded distance from the instruction.
        distance: usize,
        /// The number of bytes available for a back-reference.
        available: usize,
    },
    /// The output buffer cannot hold the decoded bytes.
    OutputTooSmall {
        /// The number of bytes written before the buffer filled up.
        written: usize,
        /// The total size of the destination buffer.
        capacity: usize,
    },
    /// The decoded byte count does not match the caller's expectation.
    SizeMismatch {
        /// The caller-provided expected length.
        expected: usize,
        /// The actual decoded length.
        actual: usize,
    },
    /// Data remains after a successful end-of-stream marker.
    TrailingData {
        /// The number of trailing bytes.
        remaining: usize,
    },
    /// The Apple block header is well-formed but not a `bvxn` block.
    UnsupportedBlockMagic {
        /// The 32-bit little-endian block magic.
        magic: u32,
    },
    /// The decmpfs xattr header is well-formed but does not have the expected
    /// magic value.
    InvalidDecmpfsMagic {
        /// The 32-bit little-endian decmpfs magic.
        magic: u32,
    },
    /// The decmpfs wrapper uses a compression type this crate does not support.
    UnsupportedDecmpfsCompressionType {
        /// The raw decmpfs compression type value.
        compression_type: u32,
    },
    /// The decmpfs wrapper requires a resource fork but none was provided.
    MissingResourceFork,
    /// The decmpfs resource fork layout is malformed.
    InvalidResourceFork {
        /// A short description of the structural issue.
        reason: &'static str,
    },
    /// A size does not fit inside the target container format.
    SizeOverflow {
        /// The size that could not be represented.
        value: usize,
        /// The maximum representable size.
        max: usize,
        /// A short label describing the overflowing field.
        what: &'static str,
    },
}

/// Result alias used by this crate.
pub type Result<T> = core::result::Result<T, Error>;

} // verus!
