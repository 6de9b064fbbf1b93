//! Roundtrip and streaming-equivalence checks over a fixed set of inputs
//! and chunk sizes.

use lzvn::{
    decode_bvxn, decode_decmpfs, decode_raw, encode_bvxn, encode_decmpfs, encode_raw, BvxnDecoder,
    BvxnEncoder, RawDecoder, RawEncoder, StreamStatus,
};

fn pseudo_random_bytes(len: usize, seed: u32) -> Vec<u8> {
    let mut state = seed;
    let mut bytes = Vec::with_capacity(len);
    for _ in 0..len {
        state = state.wrapping_mul(1_664_525).wrapping_add(1_013_904_223);
        bytes.push((state >> 24) as u8);
    }
    bytes
}

fn sample_data(max_len: usize) -> Vec<Vec<u8>> {
    let mut samples = vec![
        Vec::new(),
        vec![0x42],
        b"hello".to_vec(),
        b"bananabananabananabananabanana".to_vec(),
        vec![b'a'; max_len],
        pseudo_random_bytes(max_len, 7),
        pseudo_random_bytes(max_len / 3, 99),
    ];
    let mut mixed = Vec::new();
    let mut round = 0_u32;
    while mixed.len() < max_len {
        mixed.extend_from_slice(b"the quick brown fox ");
        mixed.extend_from_slice(&pseudo_random_bytes(5, round));
        round += 1;
    }
    mixed.truncate(max_len);
    samples.push(mixed);
    samples
}

fn drain_raw_encoder(input: &[u8], input_chunk: usize, output_chunk: usize) -> Vec<u8> {
    let mut encoder = RawEncoder::new();
    for chunk in input.chunks(input_chunk) {
        encoder.feed(chunk);
    }
    encoder.finish_input();

    let mut encoded = Vec::new();
    loop {
        let mut chunk = vec![0_u8; output_chunk];
        let progress =
            encoder.encode_into(&mut chunk).expect("incremental raw encode should succeed");
        encoded.extend_from_slice(&chunk[..progress.written]);
        if progress.status == StreamStatus::Finished {
            return encoded;
        }
    }
}

fn drain_raw_decoder(input: &[u8], input_chunk: usize, output_chunk: usize) -> Vec<u8> {
    let mut decoder = RawDecoder::new();
    let mut decoded = Vec::new();
    let mut offset = 0;
    let mut finished_input = false;

    loop {
        if offset < input.len() {
            let end = (offset + input_chunk).min(input.len());
            decoder.feed(&input[offset..end]);
            offset = end;
        } else if !finished_input {
            decoder.finish_input();
            finished_input = true;
        }

        loop {
            let mut chunk = vec![0_u8; output_chunk];
            let progress =
                decoder.decode_into(&mut chunk).expect("incremental raw decode should succeed");
            decoded.extend_from_slice(&chunk[..progress.written]);
            match progress.status {
                StreamStatus::NeedOutput => continue,
                StreamStatus::NeedInput => break,
                StreamStatus::Finished => return decoded,
            }
        }
    }
}

fn drain_bvxn_encoder(input: &[u8], input_chunk: usize, output_chunk: usize) -> Vec<u8> {
    let mut encoder = BvxnEncoder::new();
    for chunk in input.chunks(input_chunk) {
        encoder.feed(chunk);
    }
    encoder.finish_input();

    let mut encoded = Vec::new();
    loop {
        let mut chunk = vec![0_u8; output_chunk];
        let progress =
            encoder.encode_into(&mut chunk).expect("incremental bvxn encode should succeed");
        encoded.extend_from_slice(&chunk[..progress.written]);
        if progress.status == StreamStatus::Finished {
            return encoded;
        }
    }
}

fn drain_bvxn_decoder(input: &[u8], input_chunk: usize, output_chunk: usize) -> Vec<u8> {
    let mut decoder = BvxnDecoder::new();
    let mut decoded = Vec::new();
    let mut offset = 0;
    let mut finished_input = false;

    loop {
        if offset < input.len() {
            let end = (offset + input_chunk).min(input.len());
            decoder.feed(&input[offset..end]);
            offset = end;
        } else if !finished_input {
            decoder.finish_input();
            finished_input = true;
        }

        loop {
            let mut chunk = vec![0_u8; output_chunk];
            let progress =
                decoder.decode_into(&mut chunk).expect("incremental bvxn decode should succeed");
            decoded.extend_from_slice(&chunk[..progress.written]);
            match progress.status {
                StreamStatus::NeedOutput => continue,
                StreamStatus::NeedInput => break,
                StreamStatus::Finished => return decoded,
            }
        }
    }
}

const CHUNKS: [(usize, usize); 6] = [(1, 1), (1, 63), (2, 3), (7, 5), (63, 1), (64, 64)];

#[test]
fn raw_roundtrip() {
    for data in sample_data(4_096) {
        let encoded = encode_raw(&data);
        let decoded = decode_raw(&encoded, data.len()).expect("raw roundtrip should decode");
        assert_eq!(decoded, data);
    }
}

#[test]
fn raw_stream_matches_one_shot() {
    for data in sample_data(2_048) {
        for (input_chunk, output_chunk) in CHUNKS {
            let expected_encoded = encode_raw(&data);
            let streamed_encoded = drain_raw_encoder(&data, input_chunk, output_chunk);
            assert_eq!(streamed_encoded.as_slice(), expected_encoded.as_slice());

            let streamed_decoded = drain_raw_decoder(&expected_encoded, input_chunk, output_chunk);
            assert_eq!(streamed_decoded, data);
        }
    }
}

#[test]
fn bvxn_roundtrip() {
    for data in sample_data(4_096) {
        let encoded = encode_bvxn(&data).expect("bvxn encode should succeed");
        let decoded = decode_bvxn(&encoded).expect("bvxn decode should succeed");
        assert_eq!(decoded, data);
    }
}

#[test]
fn bvxn_stream_matches_one_shot() {
    for data in sample_data(2_048) {
        for (input_chunk, output_chunk) in CHUNKS {
            let expected_encoded = encode_bvxn(&data).expect("bvxn encode should succeed");
            let streamed_encoded = drain_bvxn_encoder(&data, input_chunk, output_chunk);
            assert_eq!(streamed_encoded.as_slice(), expected_encoded.as_slice());

            let streamed_decoded = drain_bvxn_decoder(&expected_encoded, input_chunk, output_chunk);
            assert_eq!(streamed_decoded, data);
        }
    }
}

#[test]
fn decmpfs_roundtrip() {
    let mut inputs = sample_data(4_096);
    inputs.push(pseudo_random_bytes(65_530, 3));
    inputs.push(vec![b'q'; 65_600]);
    inputs.push(pseudo_random_bytes(70_050, 11));
    for data in inputs {
        let encoded = encode_decmpfs(&data).expect("decmpfs encode should succeed");
        let decoded = decode_decmpfs(&encoded.xattr, encoded.resource_fork.as_deref())
            .expect("decmpfs decode should succeed");
        assert_eq!(decoded, data);
    }
}
