//! Tests of single encoder steps.

use lzvn::raw::encode::Encoder;

#[test]
fn emits_previous_distance_with_followup_match() {
    let mut encoder = Encoder::new(b"");
    encoder.previous_distance = 3;
    encoder.emit_match_with_literals(b"abc", 6, 3);

    assert_eq!(encoder.output, [0xCE, b'a', b'b', b'c', 0xF2]);
}

#[test]
fn emits_large_distance_with_followup_match() {
    let mut encoder = Encoder::new(b"");
    encoder.emit_match_with_literals(b"abc", 5, 20_000);

    assert_eq!(encoder.output, [0xCF, 0x20, 0x4E, b'a', b'b', b'c', 0xF1]);
}
