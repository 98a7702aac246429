use modem_core::raptorq_codec::{
    encode_packets, encode_packets_range, k_from_payload, n_repair_default, try_decode,
    REPAIR_PCT_DEFAULT,
};
use modem_core::rs::{decode, encode, parity_blocks_for, RsError};
use std::collections::HashMap;

#[test]
fn parity_counts() {
    assert_eq!(parity_blocks_for(16, 1), 1);
    assert_eq!(parity_blocks_for(16, 2), 2);
    assert_eq!(parity_blocks_for(16, 3), 4);
    assert_eq!(parity_blocks_for(100, 3), 25);
    assert_eq!(parity_blocks_for(0, 3), 0);
    assert_eq!(parity_blocks_for(10, 0), 0);
}

#[test]
fn encode_level_0_passthrough() {
    let data: Vec<Vec<u8>> = (0..5).map(|i| vec![i as u8; 10]).collect();
    let out = encode(&data, 0).unwrap();
    assert_eq!(out, data);
}

#[test]
fn encode_decode_roundtrip_no_loss() {
    let data: Vec<Vec<u8>> = (0..16).map(|i| vec![i as u8; 90]).collect();
    let shards = encode(&data, 2).unwrap();
    assert_eq!(shards.len(), 16 + 2);
    let opts: Vec<Option<Vec<u8>>> = shards.into_iter().map(Some).collect();
    let recovered = decode(opts, 16, 2).unwrap();
    assert_eq!(recovered, data);
}

#[test]
fn decode_recovers_lost_blocks() {
    let data: Vec<Vec<u8>> = (0..16).map(|i| vec![i as u8; 90]).collect();
    let shards = encode(&data, 3).unwrap();
    let mut opts: Vec<Option<Vec<u8>>> = shards.into_iter().map(Some).collect();
    opts[2] = None;
    opts[7] = None;
    opts[15] = None;
    let recovered = decode(opts, 16, 4).unwrap();
    assert_eq!(recovered, data);
}

#[test]
fn decode_fails_too_many_losses() {
    let data: Vec<Vec<u8>> = (0..16).map(|i| vec![i as u8; 90]).collect();
    let shards = encode(&data, 1).unwrap();
    let mut opts: Vec<Option<Vec<u8>>> = shards.into_iter().map(Some).collect();
    opts[0] = None;
    opts[1] = None;
    assert!(decode(opts, 16, 1).is_err());
}

#[test]
fn encode_rejects_too_big() {
    let data: Vec<Vec<u8>> = (0..250).map(|_| vec![0u8; 90]).collect();
    assert!(encode(&data, 3).is_err());
}

#[test]
fn coding_faults_are_told_apart() {
    let data: Vec<Vec<u8>> = (0..16).map(|i| vec![i as u8; 9]).collect();
    assert!(matches!(encode(&data, 4), Err(RsError::UnknownLevel(4))));
    let many: Vec<Vec<u8>> = (0..250).map(|_| vec![0u8; 9]).collect();
    assert!(matches!(encode(&many, 3), Err(RsError::TooManyShards(250, 63))));
    let uneven: Vec<Vec<u8>> = (0..16).map(|i| vec![0u8; 9 + i % 2]).collect();
    assert!(matches!(encode(&uneven, 1), Err(RsError::Rse(_))));
    let few: Vec<Option<Vec<u8>>> = (0..5).map(|_| Some(vec![0u8; 9])).collect();
    assert!(matches!(decode(few, 16, 4), Err(RsError::ShardCountMismatch(20, 5))));
    let mut lossy: Vec<Option<Vec<u8>>> =
        encode(&data, 1).unwrap().into_iter().map(Some).collect();
    lossy[3] = None;
    lossy[4] = None;
    assert!(matches!(decode(lossy, 16, 1), Err(RsError::TooManyLosses(16, 2, 1))));
}

#[test]
fn parity_blocks_follow_the_data() {
    let data: Vec<Vec<u8>> = (0..16).map(|i| vec![i as u8 + 1; 9]).collect();
    let shards = encode(&data, 3).unwrap();
    assert_eq!(&shards[..16], &data[..]);
    let mut other = data.clone();
    other[5][3] ^= 0x10;
    let changed = encode(&other, 3).unwrap();
    for (a, b) in shards[16..].iter().zip(changed[16..].iter()) {
        assert_eq!(a.len(), 9);
        assert_ne!(a[3], b[3]);
        assert_eq!(a[4], b[4]);
    }
}

#[test]
fn roundtrip_small() {
    let data = b"Hello RaptorQ !".to_vec();
    let t: u16 = 16;
    let packets = encode_packets(&data, t, REPAIR_PCT_DEFAULT);
    assert!(packets.len() >= 5);
    let mut map = HashMap::new();
    for (esi, p) in packets.iter().enumerate() {
        map.insert(esi as u32, p.clone());
    }
    let decoded = try_decode(&map, data.len() as u32, t).expect("should decode");
    assert_eq!(decoded, data);
}

#[test]
fn roundtrip_drops_10pct() {
    let data: Vec<u8> =
        (0..5_000).map(|i| (i as u32).wrapping_mul(2654435761) as u8).collect();
    let t: u16 = 108;
    let packets = encode_packets(&data, t, REPAIR_PCT_DEFAULT);
    let mut map = HashMap::new();
    for (esi, p) in packets.iter().enumerate() {
        if esi % 10 == 0 {
            continue;
        }
        map.insert(esi as u32, p.clone());
    }
    let decoded = try_decode(&map, data.len() as u32, t).expect("should decode w/ 10% drops");
    assert_eq!(decoded, data);
}

#[test]
fn too_few_packets_returns_none() {
    let data: Vec<u8> = (0..1000).map(|i| i as u8).collect();
    let t: u16 = 108;
    let packets = encode_packets(&data, t, REPAIR_PCT_DEFAULT);
    let mut map = HashMap::new();
    for (esi, p) in packets.iter().take(2).enumerate() {
        map.insert(esi as u32, p.clone());
    }
    assert!(try_decode(&map, data.len() as u32, t).is_none());
}

#[test]
fn roundtrip_two_bursts_union() {
    let data: Vec<u8> = (0..3000).map(|i| ((i * 37) ^ 0xA5) as u8).collect();
    let t: u16 = 108;
    let k = k_from_payload(data.len(), t as usize) as u32;
    let b1 = encode_packets(&data, t, REPAIR_PCT_DEFAULT);
    let b1_end = k + n_repair_default(k);
    assert_eq!(b1.len() as u32, b1_end);
    let n_more = (k * 20) / 100;
    let b2 = encode_packets_range(&data, t, b1_end, n_more);
    assert_eq!(b2.len() as u32, n_more);
    let mut map = HashMap::new();
    let skip = (b1.len() * 20) / 100;
    for (i, p) in b1.iter().enumerate().skip(skip) {
        map.insert(i as u32, p.clone());
    }
    for (j, p) in b2.iter().enumerate() {
        map.insert(b1_end + j as u32, p.clone());
    }
    assert!(map.len() as u32 >= k, "test setup must provide at least K packets");
    let decoded =
        try_decode(&map, data.len() as u32, t).expect("burst union should decode");
    assert_eq!(decoded, data);
}

#[test]
fn encode_range_is_deterministic() {
    let data: Vec<u8> = (0..500).map(|i| i as u8).collect();
    let t: u16 = 32;
    let a = encode_packets_range(&data, t, 20, 5);
    let b = encode_packets_range(&data, t, 20, 5);
    assert_eq!(a, b, "same input, same packets at a given ESI");
}

#[test]
fn source_packets_are_the_payload_in_pieces() {
    let data: Vec<u8> = (0..500u32).map(|i| (i * 7) as u8).collect();
    let packets = encode_packets_range(&data, 100, 0, 7);
    for (i, p) in packets.iter().take(5).enumerate() {
        assert_eq!(p.len(), 100);
        assert_eq!(&p[..], &data[i * 100..(i + 1) * 100]);
    }
    assert_eq!(packets[5].len(), 100);
    assert_ne!(packets[5], packets[0]);
    assert!(encode_packets_range(&data, 100, 3, 0).is_empty());
}

#[test]
fn packet_counts_known_values() {
    assert_eq!(k_from_payload(15, 16), 4);
    assert_eq!(k_from_payload(5000, 108), 47);
    assert_eq!(k_from_payload(0, 108), 4);
    assert_eq!(n_repair_default(47), 14);
}

#[test]
fn source_packets_alone_are_joined() {
    for t in [33usize, 40] {
        let mut map = HashMap::new();
        let mut joined: Vec<u8> = Vec::new();
        for esi in 0..6u32 {
            let packet: Vec<u8> = (0..t).map(|i| (esi as usize * 31 + i * i) as u8).collect();
            joined.extend_from_slice(&packet);
            map.insert(esi, packet);
        }
        let size = 6 * t - 5;
        assert_eq!(try_decode(&map, size as u32, t as u16), Some(joined[..size].to_vec()));
    }
}
