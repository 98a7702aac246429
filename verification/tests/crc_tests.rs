use modem_core::be;
use modem_core::bits;
use modem_core::crc::{crc16, crc32, crc8};

#[test]
fn crc8_known() {
    let data = b"123456789";
    assert_eq!(crc8(data), 0xFB);
}

#[test]
fn crc32_known() {
    let data = b"123456789";
    assert_eq!(crc32(data), 0xCBF4_3926);
}

#[test]
fn crc8_empty() {
    assert_eq!(crc8(&[]), 0xFF);
}

#[test]
fn crc16_known() {
    let data = b"123456789";
    assert_eq!(crc16(data), 0x29B1);
}

#[test]
fn crcs_catch_every_changed_byte() {
    let data: Vec<u8> = (0..20u8).map(|i| i.wrapping_mul(37)).collect();
    for at in 0..data.len() {
        for flip in [0x01u8, 0x80, 0xFF] {
            let mut other = data.clone();
            other[at] ^= flip;
            assert_ne!(crc8(&data), crc8(&other));
            assert_ne!(crc16(&data), crc16(&other));
            assert_ne!(crc32(&data), crc32(&other));
        }
    }
}

#[test]
fn bits_and_bytes_round_trip() {
    let bytes = vec![0x00u8, 0x80, 0x01, 0xA5, 0xFF];
    let unpacked = bits::bytes_to_bits(&bytes);
    assert_eq!(&unpacked[8..16], &[1, 0, 0, 0, 0, 0, 0, 0]);
    assert_eq!(bits::bits_to_bytes(&unpacked), bytes);
    assert_eq!(bits::bits_to_bytes(&[1, 0, 1]), vec![0xA0]);
}

#[test]
fn big_endian_round_trip() {
    assert_eq!(be::join16(be::high_byte(0xBEEF), be::low_byte(0xBEEF)), 0xBEEF);
    let b = be::bytes32(0x1234_5678);
    assert_eq!(b, [0x12, 0x34, 0x56, 0x78]);
    assert_eq!(be::join32(b[0], b[1], b[2], b[3]), 0x1234_5678);
}

#[test]
fn appended_checksums_leave_nothing_over() {
    let data = b"123456789".to_vec();
    let mut with8 = data.clone();
    with8.push(crc8(&data));
    assert_eq!(crc8(&with8), 0);
    let mut with16 = data.clone();
    with16.extend_from_slice(&crc16(&data).to_be_bytes());
    assert_eq!(crc16(&with16), 0);
    let mut with32 = data.clone();
    with32.extend_from_slice(&crc32(&data).to_le_bytes());
    assert_eq!(crc32(&with32), 0x2144_DF1C);
}

#[test]
fn checksums_of_three_messages_add_up() {
    let message = |k: u8| -> Vec<u8> { (0..30u8).map(|i| i.wrapping_mul(k) ^ k).collect() };
    let (a, b, c) = (message(17), message(101), message(203));
    let sum: Vec<u8> = (0..30).map(|i| a[i] ^ b[i] ^ c[i]).collect();
    assert_eq!(crc8(&sum), crc8(&a) ^ crc8(&b) ^ crc8(&c));
    assert_eq!(crc16(&sum), crc16(&a) ^ crc16(&b) ^ crc16(&c));
    assert_eq!(crc32(&sum), crc32(&a) ^ crc32(&b) ^ crc32(&c));
}
