use modem_core::payload_envelope::{
    EnvelopeError, PayloadEnvelope, MAX_CALLSIGN_BYTES, MAX_FILENAME_BYTES,
};

#[test]
fn roundtrip_basic() {
    let env =
        PayloadEnvelope::new("photo.avif", "HB9TOB", vec![0xAA, 0xBB, 0xCC, 0xDD, 0xEE]).unwrap();
    let bytes = env.encode();
    assert_eq!(bytes.len(), env.encoded_len());
    let decoded = PayloadEnvelope::decode(&bytes).expect("decode");
    assert_eq!(decoded, env);
}

#[test]
fn roundtrip_empty_content() {
    let env = PayloadEnvelope::new("x.txt", "NO1CALL", Vec::new()).unwrap();
    let bytes = env.encode();
    let decoded = PayloadEnvelope::decode(&bytes).unwrap();
    assert_eq!(decoded, env);
}

#[test]
fn roundtrip_empty_names() {
    let env = PayloadEnvelope::new("", "", b"0123456789".to_vec()).unwrap();
    let bytes = env.encode();
    let decoded = PayloadEnvelope::decode(&bytes).unwrap();
    assert_eq!(decoded, env);
}

#[test]
fn roundtrip_utf8_filename() {
    let env = PayloadEnvelope::new("éléphant_📷.jpg", "HB9XYZ", vec![1u8; 10]).unwrap();
    let bytes = env.encode();
    let decoded = PayloadEnvelope::decode(&bytes).unwrap();
    assert_eq!(decoded, env);
}

#[test]
fn roundtrip_max_lengths() {
    let fn_max = "a".repeat(MAX_FILENAME_BYTES);
    let qrz_max = "A".repeat(MAX_CALLSIGN_BYTES);
    let env = PayloadEnvelope::new(&fn_max, &qrz_max, vec![0u8; 1]).unwrap();
    let bytes = env.encode();
    let decoded = PayloadEnvelope::decode(&bytes).unwrap();
    assert_eq!(decoded, env);
}

#[test]
fn rejects_oversized_filename() {
    let fn_too_long = "a".repeat(MAX_FILENAME_BYTES + 1);
    assert!(PayloadEnvelope::new(&fn_too_long, "HB9XYZ", vec![]).is_none());
}

#[test]
fn rejects_oversized_callsign() {
    let qrz_too_long = "A".repeat(MAX_CALLSIGN_BYTES + 1);
    assert!(PayloadEnvelope::new("x.bin", &qrz_too_long, vec![]).is_none());
}

#[test]
fn rejects_nul_in_strings() {
    assert!(PayloadEnvelope::new("x\0.bin", "HB9XYZ", vec![]).is_none());
    assert!(PayloadEnvelope::new("x.bin", "HB\09XYZ", vec![]).is_none());
}

#[test]
fn decode_too_short() {
    assert_eq!(PayloadEnvelope::decode(&[]).unwrap_err(), EnvelopeError::TooShort);
    assert_eq!(PayloadEnvelope::decode(&[1, 0]).unwrap_err(), EnvelopeError::TooShort);
}

#[test]
fn decode_unsupported_version() {
    assert_eq!(
        PayloadEnvelope::decode(&[2, 0, 0]).unwrap_err(),
        EnvelopeError::UnsupportedVersion(2)
    );
}

#[test]
fn decode_fallback_on_garbage() {
    let env = PayloadEnvelope::decode_or_fallback(&[0xFF, 0xFF, 0xFF]);
    assert_eq!(env.version, 0);
    assert!(env.filename.is_empty());
    assert!(env.callsign.is_empty());
    assert_eq!(env.content, vec![0xFF, 0xFF, 0xFF]);
}

#[test]
fn decode_fallback_on_valid_passes_through() {
    let env = PayloadEnvelope::new("a.bin", "HB9X", vec![1, 2, 3]).unwrap();
    let bytes = env.encode();
    let via_fallback = PayloadEnvelope::decode_or_fallback(&bytes);
    assert_eq!(via_fallback, env);
}

#[test]
fn decode_truncated_filename_field() {
    let buf = vec![1, 10, b'a', b'b'];
    assert_eq!(PayloadEnvelope::decode(&buf).unwrap_err(), EnvelopeError::TruncatedHeader);
}

#[test]
fn decode_truncated_callsign_field() {
    let buf = vec![1, 0, 5];
    assert_eq!(PayloadEnvelope::decode(&buf).unwrap_err(), EnvelopeError::TruncatedHeader);
}

#[test]
fn encoded_len_matches_encode() {
    let env = PayloadEnvelope::new("test.bin", "HB9ABC", vec![7u8; 128]).unwrap();
    assert_eq!(env.encode().len(), env.encoded_len());
}

#[test]
fn name_lengths_beyond_the_limits_are_refused() {
    assert_eq!(
        PayloadEnvelope::decode(&[1, 65, 0]).unwrap_err(),
        EnvelopeError::FilenameTooLong(65)
    );
    assert_eq!(
        PayloadEnvelope::decode(&[1, 0, 11]).unwrap_err(),
        EnvelopeError::CallsignTooLong(11)
    );
}

#[test]
fn file_name_must_be_utf8_but_callsign_need_not() {
    assert_eq!(
        PayloadEnvelope::decode(&[1, 1, 0xFF, 0]).unwrap_err(),
        EnvelopeError::FilenameInvalidUtf8
    );
    let env = PayloadEnvelope::decode(&[1, 0, 2, b'H', 0xFF, 9]).unwrap();
    assert_eq!(env.callsign, "H\u{FFFD}");
    assert_eq!(env.content, vec![9]);
}

#[test]
fn wire_layout_is_version_lengths_names_content() {
    let env = PayloadEnvelope::new("ab", "C", vec![8, 9]).unwrap();
    assert_eq!(env.encode(), vec![1, 2, b'a', b'b', 1, b'C', 8, 9]);
}

#[test]
fn accepted_bytes_are_written_back() {
    for bytes in [
        vec![1, 0, 0],
        vec![1, 2, b'a', b'b', 1, b'C', 8, 9],
        vec![1, 2, 0xC3, 0xA9, 3, b'H', b'B', b'9'],
        vec![1, 1, 0, 1, 0, 1, 0],
    ] {
        assert_eq!(PayloadEnvelope::decode(&bytes).unwrap().encode(), bytes);
    }
    // A callsign that is no UTF-8 has characters replaced.
    let bytes = vec![1, 0, 2, b'H', 0xFF, 9];
    assert_ne!(PayloadEnvelope::decode(&bytes).unwrap().encode(), bytes);
}
