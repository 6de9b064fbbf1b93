//! Raw LZVN stream encoding and decoding.
//!
//! A raw LZVN stream is an opcode stream terminated by an end marker. Apple
//! encoders commonly emit an 8-byte padded form, while decoders may also
//! encounter compact single-byte `0x06` end markers in the wild.
//! Unlike Apple container formats, it does not store the decoded size.

pub mod opcode;
pub mod semantics;
pub mod encoding;
pub mod decode;
pub mod encode;
pub mod stream;

pub use decode::{decode, decode_into};
pub use encode::encode;
pub use stream::{RawDecoder, RawEncoder};
