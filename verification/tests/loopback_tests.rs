use modem_core::app_header::{fnv1a_u16, mime};
use modem_core::constellation::ring::scale;
use modem_core::frame::{
    build_superframe_v3, make_constellation, make_lms_warmup_for_config, make_scaled_preamble,
};
use modem_core::interleaver::{apply_permutation, deinterleave_table, padded_cw_bits};
use modem_core::ldpc::decoder::LdpcDecoder;
use modem_core::marker::{decode_control_symbols, make_sync_pattern, MARKER_LEN, MARKER_SYNC_LEN};
use modem_core::pilot::{interleave_at, interleave_data_pilots, pilots_at, strip_pilots};
use modem_core::preamble::make_preamble;
use modem_core::profile::{ModemConfig, ProfileIndex};
use modem_core::raptorq_codec::encode_packets_range;
use modem_core::rx_v2::assemble::{assemble, check_header};
use modem_core::rx_v2::walk::{DecodedWord, Layout, Walk, WalkOutcome};
use modem_core::symbol::{Symbol, ONE};

const ANCHOR: usize = 256 + 96;

/// Symbols before the first marker: preamble, known symbols and header.
fn anchor_len(config: &ModemConfig) -> usize {
    ANCHOR + config.lms_warmup_syms()
}

fn header_symbols() -> Vec<Symbol> {
    (0..96).map(|i| Symbol::axis(i)).collect()
}

/// Walk over the symbols behind the first header. `damage` changes the hard decisions
/// of a codeword before it is decoded.
fn receive(
    symbols: &[Symbol],
    config: &ModemConfig,
    damage: fn(u32, &mut Vec<u8>),
) -> (WalkOutcome, usize) {
    let points = make_constellation(config);
    let ct = config.constellation;
    let padded = padded_cw_bits(2304, ct);
    let syms_per_cw = padded / points.bits_per_sym;
    let table = deinterleave_table(padded, ct);
    let decoder = LdpcDecoder::new(config.ldpc_rate, 50);
    let k_bytes = decoder.k() / 8;
    let region = &symbols[anchor_len(config)..];
    let layout = Layout::of(config, region.len());
    assert_eq!(layout.syms_per_cw, syms_per_cw);
    let sync = make_sync_pattern();
    let mut walk = Walk::new(layout);
    while let Some((start, width)) = walk.next_search() {
        let hit = (start..=start + width)
            .find(|&p| region[p..p + MARKER_SYNC_LEN] == sync[..]);
        let Some(pos) = hit else {
            walk = walk.no_sync();
            continue;
        };
        let Some(payload) =
            decode_control_symbols(&region[pos + MARKER_SYNC_LEN..pos + MARKER_LEN])
        else {
            walk = walk.bad_marker(pos);
            continue;
        };
        walk = walk.read_marker(pos, payload);
        let Some(span) = walk.pending_segment() else {
            break;
        };
        let data = strip_pilots(&region[span.start..span.start + span.len], &config.pilot_pattern);
        let mut words = Vec::new();
        for i in 0..span.n_cw {
            let labels = points.slice_nearest(&data[i * syms_per_cw..(i + 1) * syms_per_cw]);
            let mut bits = points.symbols_to_bits(&labels);
            damage(payload.base_esi + i as u32, &mut bits);
            let plain = apply_permutation(&bits, &table);
            let llr: Vec<i32> =
                plain[..2304].iter().map(|&b| if b == 0 { 262144 } else { -262144 }).collect();
            let (bytes, converged) = decoder.decode_to_bytes(&llr);
            words.push(DecodedWord { bytes, converged });
        }
        walk = walk.segment(words);
    }
    (walk.finish(), k_bytes)
}

fn loopback(profile: ProfileIndex, n: usize, damage: fn(u32, &mut Vec<u8>)) {
    let config = profile.to_config();
    let data: Vec<u8> = (0..n).map(|i| (i as u32).wrapping_mul(2654435761).to_be_bytes()[1]).collect();
    let symbols = build_superframe_v3(
        &data,
        &config,
        0xDEAD_BEEF,
        mime::BINARY,
        fnv1a_u16(&data),
        &header_symbols(),
    );
    let (out, k_bytes) = receive(&symbols, &config, damage);
    let ah = out.app_header.expect("session header");
    assert_eq!(ah.session_id, 0xDEAD_BEEF);
    assert_eq!(ah.file_size as usize, n);
    assert!(check_header(&ah, k_bytes));
    let payload = assemble(&Some(ah), &out.words, k_bytes, None);
    assert!(payload == data, "payload of {profile:?}");
    assert_eq!(fnv1a_u16(&payload), ah.hash_short);
}

fn intact(_esi: u32, _bits: &mut Vec<u8>) {}

#[test]
fn symbols_of_normal_give_the_payload_back() {
    loopback(ProfileIndex::Normal, 700, intact);
}

#[test]
fn symbols_of_ultra_give_the_payload_back() {
    loopback(ProfileIndex::Ultra, 300, intact);
}

#[test]
fn symbols_of_high_give_the_payload_back() {
    loopback(ProfileIndex::High, 900, intact);
}

#[test]
fn symbols_of_high_plus_give_the_payload_back() {
    loopback(ProfileIndex::HighPlus, 900, intact);
}

#[test]
fn symbols_of_high_plus_plus_give_the_payload_back() {
    loopback(ProfileIndex::HighPlusPlus, 900, intact);
}

#[test]
fn symbols_of_high_five_six_give_the_payload_back() {
    loopback(ProfileIndex::HighFiveSix, 900, intact);
}

#[test]
fn wrong_bits_are_corrected() {
    loopback(ProfileIndex::Normal, 700, |esi, bits| {
        let n = bits.len();
        for k in 0..20 {
            bits[(esi as usize * 131 + k * 113) % n] ^= 1;
        }
    });
}

#[test]
fn lost_codeword_leaves_zeros() {
    let config = ProfileIndex::Normal.to_config();
    let data = vec![7u8; 3000];
    let symbols = build_superframe_v3(&data, &config, 1, mime::BINARY, 0, &header_symbols());
    let (out, k_bytes) = receive(&symbols, &config, |esi, bits| {
        if esi == 4 || esi == 6 {
            for (i, b) in bits.iter_mut().enumerate() {
                *b = ((i * 7 + i / 5) % 2) as u8;
            }
        }
    });
    let payload = assemble(&out.app_header, &out.words, k_bytes, None);
    assert_eq!(payload.len(), 3000);
    assert_eq!(payload[..4 * 144], data[..4 * 144]);
    assert_eq!(payload[4 * 144..5 * 144], vec![0u8; 144][..]);
    assert_eq!(payload[5 * 144..6 * 144], data[5 * 144..6 * 144]);
    assert_eq!(payload[6 * 144..7 * 144], vec![0u8; 144][..]);
    assert_eq!(payload[7 * 144..], data[7 * 144..]);
}

#[test]
fn filling_codeword_makes_up_for_a_lost_one() {
    let config = ProfileIndex::Normal.to_config();
    let data: Vec<u8> = (0..3000u32).map(|i| (i * i / 7) as u8).collect();
    let symbols = build_superframe_v3(&data, &config, 1, mime::BINARY, 0, &header_symbols());
    let (out, k_bytes) = receive(&symbols, &config, |esi, bits| {
        if esi == 4 {
            for (i, b) in bits.iter_mut().enumerate() {
                *b = ((i * 7 + i / 5) % 2) as u8;
            }
        }
    });
    assert_eq!(out.words.len(), 21);
    assert!(!out.words.contains_key(&4));
    let packet = &encode_packets_range(&data, 144, 21, 1)[0];
    assert_eq!(&out.words[&21], packet);
    assert!(assemble(&out.app_header, &out.words, k_bytes, None) == data);
}

#[test]
fn training_symbols_of_high_plus_plus_are_scaled() {
    let config = ProfileIndex::HighPlusPlus.to_config();
    let amplitude = config.training_amplitude();
    assert!(amplitude > ONE as u64);
    let symbols =
        build_superframe_v3(&[5u8; 10], &config, 1, mime::BINARY, 0, &header_symbols());
    let points = make_constellation(&config).points;
    let preamble = make_scaled_preamble(&config);
    assert_eq!(symbols[..256], preamble[..]);
    let unit = make_preamble();
    for (s, u) in preamble.iter().zip(&unit) {
        assert_eq!(*s, scale(*u, amplitude));
        assert!(points[..4].contains(s));
    }
    assert_eq!(make_lms_warmup_for_config(&config), points);
    assert_eq!(symbols[256..320], points[..]);
    assert_eq!(symbols[320..416], header_symbols()[..]);
    assert_eq!(symbols[416..448], make_sync_pattern()[..]);
    // The pilots of the first group stand behind 16 data symbols.
    let first = 416 + MARKER_LEN + 16;
    assert_eq!(symbols[first..first + 2], pilots_at(0, &config.pilot_pattern, amplitude)[..]);
    assert_eq!(symbols[first], Symbol { re: amplitude as i64, im: 0 });
}

#[test]
fn other_profiles_send_training_symbols_as_they_are() {
    let config = ProfileIndex::High.to_config();
    assert_eq!(config.training_amplitude(), ONE as u64);
    assert_eq!(make_scaled_preamble(&config), make_preamble());
    assert!(make_lms_warmup_for_config(&config).is_empty());
    let (plain, _) = interleave_data_pilots(&make_preamble(), &config.pilot_pattern);
    assert_eq!(interleave_at(&make_preamble(), &config.pilot_pattern, ONE as u64), plain);
}

#[test]
fn last_of_an_odd_number_of_codewords_is_received() {
    assert_eq!(4003usize.div_ceil(216), 19);
    loopback(ProfileIndex::High, 4003, intact);
}

#[test]
fn single_codeword_is_received() {
    loopback(ProfileIndex::HighFiveSix, 200, intact);
    loopback(ProfileIndex::HighPlus, 200, intact);
    loopback(ProfileIndex::Ultra, 100, intact);
}

#[test]
fn frame_lengths_known_values() {
    let config = ProfileIndex::High.to_config();
    let build = |n: usize| {
        build_superframe_v3(&vec![1u8; n], &config, 1, mime::BINARY, 0, &header_symbols()).len()
    };
    // Marker, codewords and pilots of a segment of one and of two codewords.
    let one = 64 + 576 + 18 * 2;
    let two = 64 + 1152 + 36 * 2;
    let tail = 4 * 34 + 24;
    assert_eq!(build(0), ANCHOR + one + tail);
    assert_eq!(build(432), ANCHOR + one + two + tail);
    assert_eq!(build(216), ANCHOR + one + two + tail);
}
