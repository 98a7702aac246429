use modem_core::app_header::mime;
use modem_core::app_header::{
    compute_session_id, decode_meta_payload, encode_meta_payload, fnv1a_u16, AppHeader,
    APP_HEADER_COPIES, APP_HEADER_SIZE,
};

fn sample_header() -> AppHeader {
    AppHeader {
        session_id: 0xDEAD_BEEF,
        file_size: 818,
        k_symbols: 1152,
        t_bytes: 144,
        mode_code: 0xA5,
        mime_type: mime::IMAGE_AVIF,
        hash_short: 0xCAFE,
    }
}

#[test]
fn roundtrip() {
    let h = sample_header();
    let bytes = h.to_bytes();
    let h2 = AppHeader::from_bytes(&bytes).expect("CRC valid");
    assert_eq!(h, h2);
}

#[test]
fn bad_crc_rejected() {
    let h = sample_header();
    let mut bytes = h.to_bytes();
    bytes[0] ^= 0x01;
    assert!(AppHeader::from_bytes(&bytes).is_none(), "CRC should fail after data corruption");
}

#[test]
fn meta_payload_roundtrip_clean() {
    let h = sample_header();
    let payload = encode_meta_payload(&h, 144);
    let decoded = decode_meta_payload(&payload).expect("should decode");
    assert_eq!(h, decoded);
}

#[test]
fn meta_payload_recovers_from_one_copy_corrupt() {
    let h = sample_header();
    let mut payload = encode_meta_payload(&h, 144);
    for b in &mut payload[0..APP_HEADER_SIZE] {
        *b = 0xFF;
    }
    let decoded = decode_meta_payload(&payload).expect("should recover from copy 1..4");
    assert_eq!(h, decoded);
}

#[test]
fn meta_payload_fails_when_all_copies_corrupt() {
    let h = sample_header();
    let mut payload = encode_meta_payload(&h, 144);
    for b in payload.iter_mut().take(APP_HEADER_SIZE * APP_HEADER_COPIES) {
        *b = 0x55;
    }
    assert!(decode_meta_payload(&payload).is_none());
}

#[test]
fn header_bytes_are_big_endian() {
    let bytes = sample_header().to_bytes();
    assert_eq!(&bytes[0..4], &[0xDE, 0xAD, 0xBE, 0xEF]);
    assert_eq!(&bytes[4..8], &[0, 0, 0x03, 0x32]);
    assert_eq!(&bytes[8..10], &[0x04, 0x80]);
    assert_eq!(bytes[10], 144);
}

#[test]
fn one_intact_copy_is_enough_wherever_it_is() {
    let h = sample_header();
    for intact in 0..APP_HEADER_COPIES {
        let mut payload = encode_meta_payload(&h, 144);
        for copy in 0..APP_HEADER_COPIES {
            if copy != intact {
                payload[copy * APP_HEADER_SIZE + 3] ^= 0x40;
            }
        }
        assert_eq!(decode_meta_payload(&payload), Some(h));
    }
}

#[test]
fn session_id_known_values() {
    // FNV-1a of nothing and of "a".
    assert_eq!(compute_session_id(&[], 0, 0), 0x811C_9DC5);
    assert_eq!(compute_session_id(b"a", 0, 0), 0xE40C_292C);
}

#[test]
fn session_id_rolls_with_mode_profile_and_content() {
    let base = compute_session_id(b"content", 1, 2);
    assert_eq!(base, compute_session_id(b"content", 1, 2));
    assert_ne!(base, compute_session_id(b"content", 2, 2));
    assert_ne!(base, compute_session_id(b"content", 1, 3));
    assert_ne!(base, compute_session_id(b"cOntent", 1, 2));
}

#[test]
fn folded_hash_known_value() {
    // 0xE40C292C folded: 0x292C ^ 0xE40C.
    assert_eq!(fnv1a_u16(b"a"), 0xCD20);
    assert_eq!(fnv1a_u16(&[]), 0x811C ^ 0x9DC5);
}
