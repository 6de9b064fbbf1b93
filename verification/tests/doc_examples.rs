//! The examples given in the crate's documentation.

use lzvn::{
    decode_bvxn, decode_bvxn_into, decode_decmpfs, decode_raw, decode_raw_into, encode_bvxn,
    encode_decmpfs, encode_raw, parse_bvxn_header, parse_decmpfs_header, DecmpfsCompressionType,
};

#[test]
fn readme_example_roundtrips() {
    let encoded = encode_raw(b"hello");
    let decoded = decode_raw(&encoded, 5).expect("decode should succeed");
    assert_eq!(decoded, b"hello");
}

#[test]
fn decode_raw_into_example() {
    let encoded = [0xe5, b'h', b'e', b'l', b'l', b'o', 0x06, 0, 0, 0, 0, 0, 0, 0];
    let mut decoded = [0_u8; 5];
    let written = decode_raw_into(&encoded, &mut decoded).expect("decode should succeed");
    assert_eq!(written, 5);
    assert_eq!(&decoded[..written], b"hello");
}

#[test]
fn bvxn_examples() {
    let block = [
        b'b', b'v', b'x', b'n', 0x05, 0x00, 0x00, 0x00, 0x0e, 0x00, 0x00, 0x00, 0xe5, b'h', b'e',
        b'l', b'l', b'o', 0x06, 0, 0, 0, 0, 0, 0, 0,
    ];
    let header = parse_bvxn_header(&block).expect("header should parse");
    assert_eq!(header.raw_bytes, 5);
    assert_eq!(header.payload_bytes, 14);
    assert_eq!(decode_bvxn(&block).expect("decode should succeed"), b"hello");
    let mut decoded = [0_u8; 5];
    let written = decode_bvxn_into(&block, &mut decoded).expect("decode should succeed");
    assert_eq!(written, 5);
    assert_eq!(&decoded[..written], b"hello");
    let encoded = encode_bvxn(b"hello").expect("encode should succeed");
    assert_eq!(decode_bvxn(&encoded).expect("decode should succeed"), b"hello");
}

#[test]
fn decmpfs_examples() {
    let xattr = [
        b'f', b'p', b'm', b'c', 0x07, 0x00, 0x00, 0x00, 0x05, 0x00, 0x00, 0x00, 0x00, 0x00, 0x00,
        0x00, 0x06, b'h', b'e', b'l', b'l', b'o',
    ];
    let header = parse_decmpfs_header(&xattr).expect("header should parse");
    assert_eq!(header.compression_type, DecmpfsCompressionType::LzvnXattr);
    assert_eq!(header.uncompressed_size, 5);
    let encoded = encode_decmpfs(b"hello").expect("encode should succeed");
    let decoded = decode_decmpfs(&encoded.xattr, encoded.resource_fork.as_deref())
        .expect("decode should succeed");
    assert_eq!(decoded, b"hello");
}
