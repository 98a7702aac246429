use modem_core::bits;
use modem_core::interleaver::{
    apply_permutation, deinterleave_table, interleave_table, padded_cw_bits,
};
use modem_core::ldpc::decoder::{FailStop, LdpcDecoder};
use modem_core::ldpc::encoder::LdpcEncoder;
use modem_core::ldpc::grouped::GroupedH;
use modem_core::ldpc::min_sum::{clip_llr, update_row, LLR_CLIP, LLR_ONE};
use modem_core::ldpc::table;
use modem_core::ldpc::table::LdpcCode;
use modem_core::ldpc::wimax::{base_matrix, expand, Z};
use modem_core::profile::{ConstellationType, LdpcRate};

const RATES: [LdpcRate; 4] = [LdpcRate::R1_2, LdpcRate::R2_3, LdpcRate::R3_4, LdpcRate::R5_6];

/// A log-likelihood ratio in the units of the decoder.
fn llr(x: f32) -> i32 {
    (x * LLR_ONE as f32) as i32
}

fn random_bits(n: usize, seed: u32) -> Vec<u8> {
    let mut info = vec![0u8; n];
    let mut state: u32 = seed;
    for b in &mut info {
        state = state.wrapping_mul(1103515245).wrapping_add(12345);
        *b = ((state >> 16) & 1) as u8;
    }
    info
}

fn check_codeword(rate: LdpcRate, info: &[u8]) {
    let enc = LdpcEncoder::new(rate);
    let cw = enc.encode(info);
    assert_eq!(cw.len(), enc.n());
    assert_eq!(&cw[..enc.k()], info);
    let h = expand(&base_matrix(rate));
    for i in 0..enc.m() {
        let mut s = 0u8;
        for &j in &h.row_indices[i] {
            s ^= cw[j];
        }
        assert_eq!(s, 0, "Parity check {i} failed for rate {:?}", rate);
    }
}

fn encode_decode_test(rate: LdpcRate, noise_scale: f32) {
    let enc = LdpcEncoder::new(rate);
    let dec = LdpcDecoder::new(rate, 50);
    let mut info = vec![0u8; enc.k()];
    let mut state: u32 = 0xDEAD;
    for b in &mut info {
        state = state.wrapping_mul(1103515245).wrapping_add(12345);
        *b = ((state >> 16) & 1) as u8;
    }
    let cw = enc.encode(&info);
    let channel: Vec<i32> = cw
        .iter()
        .enumerate()
        .map(|(i, &b)| {
            let sign = if b == 0 { 1.0f32 } else { -1.0 };
            let mut s = (i as u32).wrapping_mul(2654435761).wrapping_add(state);
            s = s.wrapping_mul(1103515245).wrapping_add(12345);
            let noise = ((s >> 16) as f32 / 32768.0 - 1.0) * noise_scale;
            llr((sign * 4.0 + noise).clamp(-25.0, 25.0))
        })
        .collect();
    let (decoded, converged) = dec.decode(&channel);
    assert!(converged, "Decoder did not converge for rate {:?}", rate);
    assert_eq!(decoded, info, "Decoded bits mismatch for rate {:?}", rate);
}

fn rand_llr(seed: u32, n: usize, scale: f32) -> Vec<i32> {
    let mut s = seed;
    (0..n)
        .map(|_| {
            s = s.wrapping_mul(1103515245).wrapping_add(12345);
            let u = ((s >> 16) as f32 / 32768.0) - 1.0;
            llr((u * scale).clamp(-25.0, 25.0))
        })
        .collect()
}

#[test]
fn encode_decode_r1_2_clean() {
    encode_decode_test(LdpcRate::R1_2, 0.0);
}

#[test]
fn encode_decode_r1_2_noisy() {
    encode_decode_test(LdpcRate::R1_2, 0.5);
}

#[test]
fn encode_decode_r2_3_clean() {
    encode_decode_test(LdpcRate::R2_3, 0.0);
}

#[test]
fn encode_decode_r3_4_clean() {
    encode_decode_test(LdpcRate::R3_4, 0.0);
}

#[test]
fn encode_decode_r5_6_clean() {
    encode_decode_test(LdpcRate::R5_6, 0.0);
}

#[test]
fn decode_all_zeros() {
    let dec = LdpcDecoder::new(LdpcRate::R1_2, 50);
    let channel = vec![llr(5.0); 2304];
    let (decoded, converged) = dec.decode(&channel);
    assert!(converged);
    assert!(decoded.iter().all(|&b| b == 0));
}

fn assert_grouped_matches(rate: LdpcRate, scale: f32, with_apriori: bool, seed: u32) {
    let dec =
        LdpcDecoder::with_fail_stop(rate, 50, FailStop { enabled: false, warmup: 5, stag: 3 });
    let n = dec.n();
    let channel = rand_llr(seed, n, scale);
    let apri = if with_apriori { Some(rand_llr(seed ^ 0xABCD, n, 2.0)) } else { None };
    let (b0, e0, c0) = dec.decode_soft(&channel, apri.as_deref(), 7, 10);
    let (b, e, c) = dec.decode_soft_grouped(&channel, apri.as_deref(), 7, 10);
    assert_eq!(c0, c, "converged differs rate={rate:?} scale={scale} apri={with_apriori}");
    assert_eq!(b0, b, "info bits differ rate={rate:?} scale={scale} apri={with_apriori}");
    assert_eq!(e0, e, "extrinsic differs rate={rate:?} scale={scale} apri={with_apriori}");
}

#[test]
fn grouped_decode_is_bit_exact_vs_scalar() {
    for &rate in &RATES {
        for &scale in &[6.0f32, 1.5, 0.3] {
            assert_grouped_matches(rate, scale, false, 0x1234_5678);
            assert_grouped_matches(rate, scale, true, 0x9E37_79B9);
        }
    }
}

#[test]
fn layers_hold_every_block_of_the_base_matrix() {
    for rate in RATES {
        let bm = base_matrix(rate);
        let g = GroupedH::new(rate);
        assert_eq!(g.layers.len(), bm.n_rows);
        for (r, layer) in g.layers.iter().enumerate() {
            let want: Vec<(usize, usize)> = (0..bm.n_cols)
                .filter(|&c| bm.get(r, c) >= 0)
                .map(|c| (c, bm.get(r, c) as usize))
                .collect();
            assert_eq!(layer, &want);
        }
    }
}

#[test]
fn undecodable_block_is_given_up_early() {
    // Noise never converges. With a budget of many iterations the rule for giving up
    // must leave other values behind than the full budget does.
    let rate = LdpcRate::R5_6;
    let channel = rand_llr(0x5151_3737, 2304, 0.3);
    let stop = LdpcDecoder::with_fail_stop(rate, 50, FailStop { enabled: true, warmup: 0, stag: 1 });
    let full =
        LdpcDecoder::with_fail_stop(rate, 50, FailStop { enabled: false, warmup: 0, stag: 1 });
    let (_, e0, c0) = stop.decode_soft(&channel, None, 1, 1);
    let (_, e1, c1) = full.decode_soft(&channel, None, 1, 1);
    assert!(!c0 && !c1);
    assert_ne!(e0, e1);
}

#[test]
fn decode_to_bytes_packs_the_info_bits() {
    let enc = LdpcEncoder::new(LdpcRate::R3_4);
    let data: Vec<u8> = (0..216u32).map(|i| (i * 29 + 7) as u8).collect();
    let cw = enc.encode_bytes(&data);
    assert_eq!(cw.len(), 2304);
    let channel: Vec<i32> = cw.iter().map(|&b| if b == 0 { llr(3.0) } else { llr(-3.0) }).collect();
    let (bytes, converged) = LdpcDecoder::new(LdpcRate::R3_4, 50).decode_to_bytes(&channel);
    assert!(converged);
    assert_eq!(bytes, data);
}

#[test]
fn check_update_known_values() {
    // Three variables: the message to each is three quarters of the smallest other
    // magnitude, with the sign of the product of the others.
    let mut total = vec![400i64, -200, 1000];
    let mut messages = vec![0i64; 3];
    update_row(&mut total, &vec![0, 1, 2], &mut messages);
    assert_eq!(messages, vec![-150, 300, -150]);
    assert_eq!(total, vec![250, 100, 850]);
    assert_eq!(clip_llr(LLR_CLIP + 1), LLR_CLIP);
    assert_eq!(clip_llr(-LLR_CLIP - 1), -LLR_CLIP);
}

#[test]
fn encode_all_zeros_r1_2() {
    check_codeword(LdpcRate::R1_2, &vec![0u8; 1152]);
}

#[test]
fn encode_all_ones_r1_2() {
    check_codeword(LdpcRate::R1_2, &vec![1u8; 1152]);
}

#[test]
fn encode_random_r1_2() {
    check_codeword(LdpcRate::R1_2, &random_bits(1152, 0xDEAD_BEEF));
}

#[test]
fn encode_r2_3() {
    check_codeword(LdpcRate::R2_3, &random_bits(1536, 0xCAFE));
}

#[test]
fn encode_r3_4() {
    check_codeword(LdpcRate::R3_4, &random_bits(1728, 0xBEEF));
}

#[test]
fn encode_r5_6_satisfies_the_checks() {
    check_codeword(LdpcRate::R5_6, &random_bits(1920, 0xF00D));
}

#[test]
fn systematic_preserved() {
    let enc = LdpcEncoder::new(LdpcRate::R1_2);
    let mut info = vec![0u8; enc.k()];
    info[0] = 1;
    info[100] = 1;
    info[500] = 1;
    let cw = enc.encode(&info);
    assert_eq!(cw[0], 1);
    assert_eq!(cw[100], 1);
    assert_eq!(cw[500], 1);
    assert_eq!(cw[1], 0);
}

#[test]
fn rank_check() {
    let enc = LdpcEncoder::new(LdpcRate::R1_2);
    assert_eq!(enc.rank(), enc.m(), "R1/2 rank should be full (m)");
}

#[test]
fn base_matrix_dimensions() {
    let bm = base_matrix(LdpcRate::R1_2);
    assert_eq!(bm.n_rows, 12);
    assert_eq!(bm.n_cols, 24);
    assert_eq!(bm.data.len(), 12 * 24);

    let bm = base_matrix(LdpcRate::R2_3);
    assert_eq!(bm.n_rows, 8);
    assert_eq!(bm.n_cols, 24);

    let bm = base_matrix(LdpcRate::R3_4);
    assert_eq!(bm.n_rows, 6);
    assert_eq!(bm.n_cols, 24);
}

#[test]
fn expand_r1_2_dimensions() {
    let bm = base_matrix(LdpcRate::R1_2);
    let h = expand(&bm);
    assert_eq!(h.n_rows, 12 * 96);
    assert_eq!(h.n_cols, 24 * 96);
}

#[test]
fn expand_row_degree() {
    let bm = base_matrix(LdpcRate::R1_2);
    let h = expand(&bm);
    for br in 0..bm.n_rows {
        let expected_degree: usize = (0..bm.n_cols).filter(|&bc| bm.get(br, bc) >= 0).count();
        for i in 0..Z {
            let row = br * Z + i;
            assert_eq!(
                h.row_indices[row].len(),
                expected_degree,
                "Row {row} (base row {br}) has wrong degree"
            );
        }
    }
}

#[test]
fn expand_symmetry() {
    let bm = base_matrix(LdpcRate::R1_2);
    let h = expand(&bm);
    for r in 0..h.n_rows {
        for &c in &h.row_indices[r] {
            assert!(
                h.col_indices[c].contains(&r),
                "H[{r}][{c}]=1 but col_indices[{c}] doesn't contain {r}"
            );
        }
    }
}

#[test]
fn shift_values_in_range() {
    for rate in [LdpcRate::R1_2, LdpcRate::R2_3, LdpcRate::R3_4] {
        let bm = base_matrix(rate);
        for r in 0..bm.n_rows {
            for c in 0..bm.n_cols {
                let v = bm.get(r, c);
                assert!(v >= -1 && v < Z as i16, "Out of range: {v} at ({r},{c})");
            }
        }
    }
}

/// A table of the right shape with arbitrary parity bits.
fn make_table(n: u32) -> Vec<u8> {
    let mut data = Vec::new();
    data.extend_from_slice(&720u32.to_le_bytes());
    data.extend_from_slice(&n.to_le_bytes());
    for i in 0..(n as usize - 720) * 90 {
        data.push((i as u32).wrapping_mul(2654435761).to_be_bytes()[0]);
    }
    data
}

#[test]
fn ldpc_rate_34_dimensions() {
    let enc = table::LdpcEncoder::new(LdpcCode::Rate34, &make_table(960)).unwrap();
    assert_eq!(enc.k(), 720);
    assert_eq!(enc.n(), 960);
    let info = vec![0u8; 720];
    let cw = enc.encode_block(&info);
    assert_eq!(cw.len(), 960);
    assert!(cw.iter().all(|&b| b == 0));
}

#[test]
fn ldpc_rate_12_dimensions() {
    let enc = table::LdpcEncoder::new(LdpcCode::Rate12, &make_table(1440)).unwrap();
    assert_eq!(enc.k(), 720);
    assert_eq!(enc.n(), 1440);
}

#[test]
fn ldpc_systematic_first_k_bits() {
    let enc = table::LdpcEncoder::new(LdpcCode::Rate34, &make_table(960)).unwrap();
    let mut info = vec![0u8; 720];
    for i in 0..720 {
        info[i] = ((i * 17 + 3) % 2) as u8;
    }
    let cw = enc.encode_block(&info);
    assert_eq!(&cw[..720], &info[..]);
}

#[test]
fn ldpc_padded_roundtrip_length() {
    let enc = table::LdpcEncoder::new(LdpcCode::Rate34, &make_table(960)).unwrap();
    let info = vec![1u8; 800];
    let cw = enc.encode_padded(&info);
    assert_eq!(cw.len(), 1920);
}

#[test]
fn table_of_another_code_is_refused() {
    assert!(table::LdpcEncoder::new(LdpcCode::Rate34, &make_table(1440)).is_none());
    assert!(table::LdpcEncoder::new(LdpcCode::Rate12, &make_table(960)).is_none());
    assert!(table::LdpcEncoder::new(LdpcCode::Rate34, &[]).is_none());
}

#[test]
fn parity_bits_follow_the_table() {
    let mut data = make_table(960);
    for b in data.iter_mut().skip(8) {
        *b = 0;
    }
    // The first parity bit is the sum of the first and the last info bit.
    data[8] = 0x80;
    data[8 + 89] = 0x01;
    let enc = table::LdpcEncoder::new(LdpcCode::Rate34, &data).unwrap();
    let mut info = vec![0u8; 720];
    info[0] = 1;
    assert_eq!(enc.encode_block(&info)[720], 1);
    info[719] = 1;
    assert_eq!(enc.encode_block(&info)[720], 0);
    assert_eq!(enc.encode_block(&info)[721], 0);
}

#[test]
fn interleave_deinterleave_roundtrip() {
    let n = 2304;
    for ct in [ConstellationType::Qpsk, ConstellationType::Psk8, ConstellationType::Apsk16] {
        let fwd = interleave_table(n, ct);
        let inv = deinterleave_table(n, ct);
        let original: Vec<u8> = (0..n).map(|i| (i % 256) as u8).collect();
        let interleaved = apply_permutation(&original, &fwd);
        let recovered = apply_permutation(&interleaved, &inv);
        assert_eq!(original, recovered, "Round-trip failed for {:?}", ct);
    }
}

#[test]
fn permutation_is_bijection() {
    let n = 2304;
    for ct in [ConstellationType::Qpsk, ConstellationType::Psk8, ConstellationType::Apsk16] {
        let perm = interleave_table(n, ct);
        let mut sorted = perm.clone();
        sorted.sort_unstable();
        let expected: Vec<usize> = (0..n).collect();
        assert_eq!(sorted, expected, "Permutation not bijective for {:?}", ct);
    }
}

#[test]
fn qpsk_interleaver_structure() {
    let n = 2304;
    let perm = interleave_table(n, ConstellationType::Qpsk);
    assert_eq!(perm[0], 0);
    assert_eq!(perm[1], 1152);
    assert_eq!(perm[2], 1);
    assert_eq!(perm[3], 1153);
}

#[test]
fn apsk16_interleaver_column_permutation() {
    let n = 2304;
    let perm = interleave_table(n, ConstellationType::Apsk16);
    assert_eq!(perm[0], 1728, "pos 0 should map to bit 1728 (col 3)");
    assert_eq!(perm[1], 576, "pos 1 should map to bit 576 (col 1)");
    assert_eq!(perm[2], 1152, "pos 2 should map to bit 1152 (col 2)");
    assert_eq!(perm[3], 0, "pos 3 should map to bit 0 (col 0)");
}

#[test]
fn psk8_interleaver_column_permutation() {
    let n = 2304;
    let perm = interleave_table(n, ConstellationType::Psk8);
    assert_eq!(perm[0], 1536, "pos 0 should map to bit 1536 (col 2)");
    assert_eq!(perm[1], 768, "pos 1 should map to bit 768 (col 1)");
    assert_eq!(perm[2], 0, "pos 2 should map to bit 0 (col 0)");
}

#[test]
fn llr_deinterleave_roundtrip() {
    let n = 2304;
    let ct = ConstellationType::Apsk16;
    let fwd = interleave_table(n, ct);
    let inv = deinterleave_table(n, ct);
    let original: Vec<f32> = (0..n).map(|i| i as f32 * 0.1).collect();
    let interleaved = apply_permutation(&original, &fwd);
    let recovered = apply_permutation(&interleaved, &inv);
    for i in 0..n {
        assert!(
            (original[i] - recovered[i]).abs() < 1e-10,
            "LLR round-trip failed at index {i}"
        );
    }
}

#[test]
fn codewords_are_padded_to_whole_symbols() {
    assert_eq!(padded_cw_bits(2304, ConstellationType::Apsk32), 2305);
    assert_eq!(padded_cw_bits(2304, ConstellationType::Apsk64), 2304);
    assert_eq!(padded_cw_bits(2304, ConstellationType::Psk8), 2304);
}

#[test]
fn padded_blocks_are_the_codewords_of_their_pieces() {
    let enc = table::LdpcEncoder::new(LdpcCode::Rate34, &make_table(960)).unwrap();
    let mut info = random_bits(1000, 7);
    let cw = enc.encode_padded(&info);
    info.resize(1440, 0);
    assert_eq!(cw.len(), 2 * 960);
    assert_eq!(&cw[..960], &enc.encode_block(&info[..720])[..]);
    assert_eq!(&cw[960..], &enc.encode_block(&info[720..])[..]);
    assert_eq!(enc.encode_padded(&info), cw);
    assert_eq!(enc.encode_padded(&[]), Vec::<u8>::new());
}

#[test]
fn whole_blocks_are_encoded_apart() {
    for rate in RATES {
        let enc = LdpcEncoder::new(rate);
        let kb = enc.k() / 8;
        let data: Vec<u8> = (0..2 * kb + 10).map(|i| (i * 73 + 5) as u8).collect();
        let (a, b) = data.split_at(2 * kb);
        let mut joined = enc.encode_bytes(a);
        joined.extend_from_slice(&enc.encode_bytes(b));
        assert_eq!(enc.encode_bytes(&data), joined);
        assert_eq!(joined.len(), 3 * 2304);
        let mut bits = bits::bytes_to_bits(b);
        bits.resize(enc.k(), 0);
        assert_eq!(enc.encode_bytes(b), enc.encode(&bits));
        assert!(enc.encode_bytes(&[]).is_empty());
    }
}

#[test]
fn layers_agree_wherever_the_rule_for_giving_up_stays_out() {
    let rate = LdpcRate::R3_4;
    let agree = |max_iter: usize, stop: FailStop, channel: &[i32]| {
        let dec = LdpcDecoder::with_fail_stop(rate, max_iter, stop);
        dec.decode_soft(channel, None, 7, 10) == dec.decode_soft_grouped(channel, None, 7, 10)
    };
    let noise = rand_llr(0x5151_3737, 2304, 0.3);
    let eager = FailStop { enabled: true, warmup: 0, stag: 1 };
    assert!(!agree(50, eager, &noise));
    assert!(agree(6, FailStop { warmup: 6, ..eager }, &noise));
    assert!(agree(6, FailStop { stag: 7, ..eager }, &noise));
    let enc = LdpcEncoder::new(rate);
    let clean: Vec<i32> = enc
        .encode(&random_bits(enc.k(), 3))
        .iter()
        .map(|&b| if b == 0 { llr(3.0) } else { llr(-3.0) })
        .collect();
    assert!(agree(50, eager, &clean));
}
