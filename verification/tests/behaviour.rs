//! Edge cases and errors of the one-shot and incremental decoders.

use lzvn::{
    decode_bvxn, decode_bvxn_into, decode_decmpfs, decode_raw, decode_raw_into, encode_bvxn,
    encode_raw, parse_decmpfs_header, BvxnDecoder, DecmpfsCompressionType, Error, RawDecoder,
    StreamStatus, BVXN_MAGIC,
};

const EOS: [u8; 8] = [0x06, 0, 0, 0, 0, 0, 0, 0];

fn hello_block(raw_bytes: u32) -> Vec<u8> {
    let mut block = Vec::new();
    block.extend_from_slice(&BVXN_MAGIC.to_le_bytes());
    block.extend_from_slice(&raw_bytes.to_le_bytes());
    block.extend_from_slice(&14_u32.to_le_bytes());
    block.extend_from_slice(&[0xE5, b'h', b'e', b'l', b'l', b'o']);
    block.extend_from_slice(&EOS);
    block
}

#[test]
fn decode_raw_into_matches_decode_raw() {
    let encoded = encode_raw(b"bananabananabanana");
    let one_shot = decode_raw(&encoded, 18).expect("decode should succeed");
    let mut dst = [0xAA_u8; 32];
    let written = decode_raw_into(&encoded, &mut dst).expect("decode_into should succeed");
    assert_eq!(written, 18);
    assert_eq!(&dst[..written], one_shot.as_slice());
    assert!(dst[written..].iter().all(|b| *b == 0xAA));
}

#[test]
fn raw_stream_error_matches_one_shot() {
    let mut encoded = vec![0x1E];
    encoded.extend_from_slice(&EOS);
    let mut decoder = RawDecoder::new();
    decoder.feed(&encoded);
    decoder.finish_input();
    let mut dst = [0_u8; 8];
    let err = decoder.decode_into(&mut dst).expect_err("invalid opcode should fail");
    assert_eq!(err, Error::InvalidOpcode { position: 0, opcode: 0x1E });
    assert_eq!(decode_raw(&encoded, 0).expect_err("one-shot decode should fail"), err);
}

#[test]
fn raw_stream_reports_truncated_input() {
    let mut decoder = RawDecoder::new();
    decoder.feed(&[0xE1, b'a']);
    decoder.finish_input();
    let mut dst = [0_u8; 8];
    let err = decoder.decode_into(&mut dst).expect_err("missing end marker should fail");
    assert_eq!(err, Error::TruncatedInput { position: 2 });
    assert_eq!(decode_raw(&[0xE1, b'a'], 1).expect_err("one-shot decode should fail"), err);
}

#[test]
fn raw_stream_waits_for_a_whole_instruction() {
    let mut decoder = RawDecoder::new();
    decoder.feed(&[0xE5, b'h']);
    let mut dst = [0_u8; 8];
    let progress = decoder.decode_into(&mut dst).expect("partial input should wait");
    assert_eq!(progress.written, 0);
    assert_eq!(progress.status, StreamStatus::NeedInput);

    decoder.feed(&[b'e', b'l', b'l', b'o', 0x06]);
    let progress = decoder.decode_into(&mut dst).expect("complete input should decode");
    assert_eq!(progress.written, 5);
    assert_eq!(progress.status, StreamStatus::Finished);
    assert_eq!(&dst[..5], b"hello");
    assert!(decoder.is_finished());
}

#[test]
fn raw_stream_accepts_padding_after_the_end() {
    let mut decoder = RawDecoder::new();
    decoder.feed(&[0xE1, b'a', 0x06]);
    let mut dst = [0_u8; 4];
    let progress = decoder.decode_into(&mut dst).expect("stream should decode");
    assert_eq!(progress.status, StreamStatus::Finished);
    assert_eq!(progress.written, 1);

    decoder.feed(&[0, 0, 0]);
    let progress = decoder.decode_into(&mut dst).expect("padding should be accepted");
    assert_eq!(progress.written, 0);
    assert_eq!(progress.status, StreamStatus::Finished);

    decoder.feed(&[0, 0, 0, 0, 0]);
    let err = decoder.decode_into(&mut dst).expect_err("too much padding should fail");
    assert_eq!(err, Error::TrailingData { remaining: 5 });
}

#[test]
fn raw_stream_refuses_trailing_bytes_after_the_end() {
    let mut decoder = RawDecoder::new();
    let mut encoded = vec![0xE1, b'a'];
    encoded.extend_from_slice(&EOS);
    decoder.feed(&encoded);
    let mut dst = [0_u8; 4];
    let progress = decoder.decode_into(&mut dst).expect("stream should decode");
    assert_eq!(progress.status, StreamStatus::Finished);

    decoder.feed(&[0x01]);
    let err = decoder.decode_into(&mut dst).expect_err("trailing byte should fail");
    assert_eq!(err, Error::TrailingData { remaining: 1 });
    assert_eq!(decoder.total_output(), 1);
}

#[test]
fn raw_stream_reports_trailing_bytes_in_one_feed() {
    let mut encoded = vec![0xE1, b'a'];
    encoded.extend_from_slice(&EOS);
    encoded.push(0x00);
    let mut decoder = RawDecoder::new();
    decoder.feed(&encoded);
    decoder.finish_input();
    let mut dst = [0_u8; 4];
    let err = decoder.decode_into(&mut dst).expect_err("trailing data should fail");
    assert_eq!(err, Error::TrailingData { remaining: 1 });
}

#[test]
fn bvxn_stream_rejects_wrong_magic() {
    let mut block = hello_block(5);
    block[0..4].copy_from_slice(&0x3178_7662_u32.to_le_bytes());
    let mut decoder = BvxnDecoder::new();
    decoder.feed(&block);
    let mut dst = [0_u8; 8];
    let err = decoder.decode_into(&mut dst).expect_err("wrong magic should fail");
    assert_eq!(err, Error::UnsupportedBlockMagic { magic: 0x3178_7662 });
}

#[test]
fn bvxn_stream_waits_for_the_header() {
    let block = hello_block(5);
    let mut decoder = BvxnDecoder::new();
    decoder.feed(&block[..5]);
    let mut dst = [0_u8; 8];
    let progress = decoder.decode_into(&mut dst).expect("short header should wait");
    assert_eq!(progress.written, 0);
    assert_eq!(progress.status, StreamStatus::NeedInput);

    decoder.finish_input();
    let err = decoder.decode_into(&mut dst).expect_err("truncated header should fail");
    assert_eq!(err, Error::TruncatedInput { position: 0 });
}

#[test]
fn bvxn_stream_refuses_bytes_past_the_payload() {
    let mut block = hello_block(5);
    block.push(0);
    let mut decoder = BvxnDecoder::new();
    decoder.feed(&block);
    let mut dst = [0_u8; 8];
    let err = decoder.decode_into(&mut dst).expect_err("bytes past the payload should fail");
    assert_eq!(err, Error::TrailingData { remaining: 1 });
    assert_eq!(decode_bvxn(&block).expect_err("one-shot decode should fail"), err);
}

#[test]
fn bvxn_stream_reports_size_mismatch() {
    let mut decoder = BvxnDecoder::new();
    decoder.feed(&hello_block(6));
    decoder.finish_input();
    let mut dst = [0_u8; 8];
    let err = decoder.decode_into(&mut dst).expect_err("short output should fail");
    assert_eq!(err, Error::SizeMismatch { expected: 6, actual: 5 });
    assert!(!decoder.is_finished());

    let mut decoder = BvxnDecoder::new();
    decoder.feed(&hello_block(4));
    decoder.finish_input();
    let err = decoder.decode_into(&mut dst).expect_err("long output should fail");
    assert_eq!(err, Error::SizeMismatch { expected: 4, actual: 5 });
    assert!(!decoder.is_finished());
    assert_eq!(decode_bvxn(&hello_block(4)).expect_err("one-shot decode should fail"), Error::OutputTooSmall { written: 0, capacity: 4 });
}

#[test]
fn bvxn_stream_reports_truncated_payload() {
    let block = hello_block(5);
    let mut decoder = BvxnDecoder::new();
    decoder.feed(&block[..15]);
    decoder.finish_input();
    let mut dst = [0_u8; 8];
    let err = decoder.decode_into(&mut dst).expect_err("truncated payload should fail");
    assert_eq!(err, Error::TruncatedInput { position: 15 });
}

#[test]
fn bvxn_stream_ends_before_missing_padding() {
    let block = hello_block(5);
    let mut decoder = BvxnDecoder::new();
    decoder.feed(&block[..19]);
    decoder.finish_input();
    let mut dst = [0_u8; 8];
    let progress = decoder.decode_into(&mut dst).expect("end marker ends the block");
    assert_eq!(progress.status, StreamStatus::Finished);
    assert_eq!(&dst[..progress.written], b"hello");
    assert_eq!(
        decode_bvxn(&block[..19]).expect_err("one-shot decode wants the whole payload"),
        Error::TruncatedInput { position: 19 }
    );
}

#[test]
fn bvxn_stream_refuses_bytes_after_the_end() {
    let block = encode_bvxn(b"abc").expect("encode should succeed");
    let mut decoder = BvxnDecoder::new();
    decoder.feed(&block);
    let mut dst = [0_u8; 8];
    let progress = decoder.decode_into(&mut dst).expect("block should decode");
    assert_eq!(progress.status, StreamStatus::Finished);
    decoder.feed(&[0, 0]);
    let err = decoder.decode_into(&mut dst).expect_err("bytes after the block should fail");
    assert_eq!(err, Error::TrailingData { remaining: 2 });
}

#[test]
fn decode_bvxn_into_reports_output_too_small() {
    let block = hello_block(5);
    let mut dst = [0_u8; 4];
    let err = decode_bvxn_into(&block, &mut dst).expect_err("small output should fail");
    assert_eq!(err, Error::OutputTooSmall { written: 0, capacity: 4 });
}

#[test]
fn rejects_decmpfs_with_wrong_magic() {
    let xattr = [0_u8; 16];
    let err = parse_decmpfs_header(&xattr).expect_err("wrong magic should fail");
    assert_eq!(err, Error::InvalidDecmpfsMagic { magic: 0 });
    assert_eq!(decode_decmpfs(&xattr, None).expect_err("decode should fail"), err);
}

#[test]
fn rejects_truncated_decmpfs_header() {
    let xattr = [b'f', b'p', b'm', b'c', 0x07, 0x00];
    let err = parse_decmpfs_header(&xattr).expect_err("short header should fail");
    assert_eq!(err, Error::TruncatedInput { position: 6 });
}

#[test]
fn compression_type_values_roundtrip() {
    for value in 0_u32..20 {
        let kind = DecmpfsCompressionType::from_raw(value);
        assert_eq!(kind.raw_value(), value);
        let expect_fork = matches!(value, 4 | 8 | 10 | 12 | 14);
        assert_eq!(kind.uses_resource_fork(), expect_fork);
    }
    assert_eq!(DecmpfsCompressionType::from_raw(7), DecmpfsCompressionType::LzvnXattr);
    assert_eq!(DecmpfsCompressionType::from_raw(8), DecmpfsCompressionType::LzvnResourceFork);
    assert_eq!(DecmpfsCompressionType::from_raw(99), DecmpfsCompressionType::Unknown(99));
    assert_eq!(DecmpfsCompressionType::Unknown(99).raw_value(), 99);
}

#[test]
fn decode_raw_and_decode_raw_into_agree_on_exact_buffers() {
    let encoded = encode_raw(b"abcabcabc");
    let mut dst = [0_u8; 9];
    let written = decode_raw_into(&encoded, &mut dst).expect("decode_into should succeed");
    assert_eq!(written, 9);
    assert_eq!(decode_raw(&encoded, 9).expect("decode should succeed"), dst.to_vec());

    let short = [0xE1, b'a', 0x06];
    let mut dst = [0_u8; 2];
    assert_eq!(decode_raw_into(&short, &mut dst).expect("decode_into should succeed"), 1);
    assert_eq!(
        decode_raw(&short, 2).expect_err("decode wants the whole buffer filled"),
        Error::SizeMismatch { expected: 2, actual: 1 }
    );

    let mut dst = [0_u8; 0];
    let err = decode_raw_into(&[0xE1, b'a'], &mut dst).expect_err("decode_into should fail");
    assert_eq!(decode_raw(&[0xE1, b'a'], 0).expect_err("decode should fail"), err);
}

#[test]
fn decode_bvxn_and_decode_bvxn_into_agree() {
    for raw_bytes in [4_u32, 5, 6] {
        let block = hello_block(raw_bytes);
        let mut dst = vec![0_u8; raw_bytes as usize];
        let into = decode_bvxn_into(&block, &mut dst);
        match decode_bvxn(&block) {
            Ok(out) => {
                assert_eq!(into, Ok(out.len()));
                assert_eq!(dst, out);
            },
            Err(e) => assert_eq!(into, Err(e)),
        }
    }
}

#[test]
fn decode_decmpfs_and_decode_decmpfs_into_agree() {
    for source in [b"hello".to_vec(), vec![b'a'; 10_000]] {
        let encoded = lzvn::encode_decmpfs(&source).expect("encode should succeed");
        let mut dst = vec![0_u8; source.len()];
        let written = lzvn::decode_decmpfs_into(&encoded.xattr, None, &mut dst)
            .expect("decode_into should succeed");
        assert_eq!(written, source.len());
        assert_eq!(decode_decmpfs(&encoded.xattr, None).expect("decode should succeed"), dst);
    }
    let xattr = [
        b'f', b'p', b'm', b'c', 0x08, 0x00, 0x00, 0x00, 0x05, 0x00, 0x00, 0x00, 0x00, 0x00, 0x00,
        0x00,
    ];
    let mut dst = [0_u8; 5];
    assert_eq!(
        lzvn::decode_decmpfs_into(&xattr, None, &mut dst),
        Err(Error::MissingResourceFork)
    );
    assert_eq!(decode_decmpfs(&xattr, None), Err(Error::MissingResourceFork));
}

#[test]
fn raw_encoding_is_at_most_two_bytes_per_source_byte() {
    let mut state = 0x9E37_79B9_u32;
    let mut noisy = Vec::new();
    for _ in 0..5_000 {
        state = state.wrapping_mul(1_664_525).wrapping_add(1_013_904_223);
        noisy.push((state >> 24) as u8);
    }
    for source in [Vec::new(), vec![7_u8], b"ab".to_vec(), noisy, vec![0_u8; 5_000]] {
        let encoded = encode_raw(&source);
        assert!(encoded.len() <= 2 * source.len() + 8);
        let block = encode_bvxn(&source).expect("small sources always encode");
        assert_eq!(block.len(), 12 + encoded.len());
    }
}

#[test]
fn rejects_undefined_opcodes_between_0x70_and_0x7f() {
    for opcode in 0x70_u8..0x80 {
        let mut encoded = vec![opcode, 0x00];
        encoded.extend_from_slice(&EOS);
        let err = decode_raw(&encoded, 0).expect_err("undefined opcode should fail");
        assert_eq!(err, Error::InvalidOpcode { position: 0, opcode });
    }
}

#[test]
fn raw_stream_counts_padding_fed_after_the_end() {
    let mut decoder = RawDecoder::new();
    decoder.feed(&[0xE1, b'a', 0x06]);
    let mut dst = [0_u8; 4];
    assert_eq!(
        decoder.decode_into(&mut dst),
        Ok(lzvn::StreamProgress { written: 1, status: StreamStatus::Finished })
    );
    decoder.feed(&[0_u8; 7]);
    let mut one = [0_u8; 1];
    assert_eq!(
        decoder.decode_into(&mut one),
        Ok(lzvn::StreamProgress { written: 0, status: StreamStatus::Finished })
    );
    decoder.feed(&[0_u8]);
    assert_eq!(decoder.decode_into(&mut one), Err(Error::TrailingData { remaining: 1 }));
}

#[test]
fn raw_stream_waits_instead_of_reporting_truncation() {
    let encoded = encode_raw(b"abcabcabcabc");
    let mut decoder = RawDecoder::new();
    let mut decoded = Vec::new();
    for byte in encoded.iter() {
        decoder.feed(&[*byte]);
        let mut dst = [0_u8; 2];
        loop {
            let progress = decoder.decode_into(&mut dst).expect("no error before the input ends");
            decoded.extend_from_slice(&dst[..progress.written]);
            if progress.status != StreamStatus::NeedOutput {
                break;
            }
        }
    }
    assert!(decoder.is_finished());
    assert_eq!(decoded, b"abcabcabcabc");
}
