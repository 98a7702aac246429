use modem_core::app_header::mime;
use modem_core::frame::{build_superframe_v3, plan_segments, V3_PREAMBLE_PERIOD_S};
use modem_core::framing;
use modem_core::marker::{
    decode_control_symbols, encode_control_symbols, make_marker, make_sync_pattern, MarkerPayload,
    MARKER_CTRL_LEN, MARKER_LEN, MARKER_SYNC_LEN, META_FLAG_BIT,
};
use modem_core::pilot::{
    interleave_data_pilots, pilot_symbol, pilots_for_group, spans, stream_len, strip_pilots,
};
use modem_core::preamble::make_preamble;
use modem_core::profile::{profile_high, profile_normal, ConstellationType, PilotPattern};
use modem_core::symbol::{Symbol, ONE};
use modem_core::types::{N_PREAMBLE, PREAMBLE_SEED};

fn norm(p: &Symbol) -> f64 {
    let re = p.re as f64 / ONE as f64;
    let im = p.im as f64 / ONE as f64;
    (re * re + im * im).sqrt()
}

fn ramp(n: i64) -> Vec<Symbol> {
    (0..n).map(|i| Symbol { re: i, im: 0 }).collect()
}

fn header_symbols() -> Vec<Symbol> {
    (0..96).map(|i| Symbol::diagonal(i % 4)).collect()
}

#[test]
fn framing_preamble_unit_circle() {
    let p = framing::preamble();
    assert_eq!(p.len(), 256);
    for s in &p {
        assert!((norm(s) - 1.0).abs() < 1e-5);
    }
}

#[test]
fn pilots_unit_circle() {
    for g in 0..10 {
        let ps = framing::pilots_for_group(g);
        for p in &ps {
            assert!((norm(p) - 1.0).abs() < 1e-5);
        }
    }
}

#[test]
fn interleave_count() {
    let data = ramp(100);
    let (out, positions) = framing::interleave_data_pilots(&data);
    assert_eq!(out.len(), 100 + 8);
    assert_eq!(positions.len(), 4);
}

#[test]
fn pilot_unit_circle() {
    for n in 0..20 {
        let s = pilot_symbol(n);
        assert!((norm(&s) - 1.0).abs() < 1e-12);
    }
}

#[test]
fn pilot_cycle_4() {
    let p0 = pilot_symbol(0);
    let p4 = pilot_symbol(4);
    assert_eq!(p0, p4);
}

#[test]
fn interleave_exact_groups() {
    let pattern = PilotPattern::default_v3();
    let data = ramp(64);
    let (out, positions) = interleave_data_pilots(&data, &pattern);
    assert_eq!(out.len(), 64 + 2 * pattern.p_syms);
    assert_eq!(positions.len(), 2);
    assert_eq!(positions[0], (32, 34));
    assert_eq!(positions[1], (66, 68));
}

#[test]
fn interleave_partial_group() {
    let pattern = PilotPattern::default_v3();
    let data = ramp(40);
    let (out, positions) = interleave_data_pilots(&data, &pattern);
    assert_eq!(out.len(), 40 + 2 * pattern.p_syms);
    assert_eq!(positions.len(), 2);
    assert_eq!(positions[0], (32, 34));
    assert_eq!(positions[1], (42, 44));
}

#[test]
fn interleave_dense_ultra_pattern() {
    let pattern = PilotPattern::dense_ultra();
    let data = ramp(32);
    let (out, positions) = interleave_data_pilots(&data, &pattern);
    assert_eq!(out.len(), 32 + 2 * pattern.p_syms);
    assert_eq!(positions.len(), 2);
    assert_eq!(positions[0], (16, 18));
    assert_eq!(positions[1], (34, 36));
}

#[test]
fn stripping_the_pilots_gives_the_data_back() {
    for (n, pattern) in [
        (64, PilotPattern::default_v3()),
        (40, PilotPattern::default_v3()),
        (33, PilotPattern::dense_ultra()),
        (0, PilotPattern::dense_ultra()),
    ] {
        let data = ramp(n);
        let (out, positions) = interleave_data_pilots(&data, &pattern);
        assert_eq!(out.len(), stream_len(data.len(), &pattern));
        assert_eq!(positions, spans(data.len(), &pattern));
        let back = strip_pilots(&out, &pattern);
        assert_eq!(&back[..data.len()], &data[..]);
    }
}

#[test]
fn pilots_stand_in_their_spans() {
    let pattern = PilotPattern::default_v3();
    let data = ramp(100);
    let (out, positions) = interleave_data_pilots(&data, &pattern);
    for (g, (start, end)) in positions.iter().enumerate() {
        assert_eq!(&out[*start..*end], &pilots_for_group(g, &pattern)[..]);
    }
}

#[test]
fn preamble_length() {
    assert_eq!(make_preamble().len(), N_PREAMBLE);
}

#[test]
fn preamble_preamble_unit_circle() {
    for s in make_preamble() {
        assert!((norm(&s) - 1.0).abs() < 1e-12);
    }
}

#[test]
fn preamble_deterministic() {
    let p1 = make_preamble();
    let p2 = make_preamble();
    for (a, b) in p1.iter().zip(p2.iter()) {
        assert_eq!(a, b);
    }
}

#[test]
fn preamble_seed_matches() {
    assert_eq!(PREAMBLE_SEED, 1234);
}

#[test]
fn sync_pattern_len_and_unit_circle() {
    let s = make_sync_pattern();
    assert_eq!(s.len(), MARKER_SYNC_LEN);
    for c in s {
        assert!((norm(&c) - 1.0).abs() < 1e-12);
    }
}

#[test]
fn payload_roundtrip_bytes() {
    let p = MarkerPayload {
        seg_id: 0x1234,
        session_id_low: 0xAB,
        base_esi: 0x00F0_F0F0,
        flags: META_FLAG_BIT,
    };
    let bytes = p.to_bytes();
    let p2 = MarkerPayload::from_bytes(&bytes).expect("CRC valid");
    assert_eq!(p, p2);
}

#[test]
fn payload_bad_crc_rejected() {
    let p = MarkerPayload { seg_id: 1, session_id_low: 2, base_esi: 3, flags: 0 };
    let mut bytes = p.to_bytes();
    bytes[0] ^= 0x01;
    assert!(MarkerPayload::from_bytes(&bytes).is_none());
}

#[test]
fn control_symbol_roundtrip() {
    let p = MarkerPayload {
        seg_id: 42,
        session_id_low: 0x5A,
        base_esi: 0x123456,
        flags: META_FLAG_BIT,
    };
    let syms = encode_control_symbols(&p);
    assert_eq!(syms.len(), MARKER_CTRL_LEN);
    let p2 = decode_control_symbols(&syms).expect("CRC valid");
    assert_eq!(p, p2);
}

#[test]
fn full_marker_length() {
    let p = MarkerPayload { seg_id: 0, session_id_low: 0, base_esi: 0, flags: 0 };
    let m = make_marker(&p);
    assert_eq!(m.len(), MARKER_LEN);
}

#[test]
fn meta_flag_helpers() {
    let mut p = MarkerPayload { seg_id: 0, session_id_low: 0, base_esi: 0, flags: 0 };
    assert!(!p.is_meta());
    p.flags |= META_FLAG_BIT;
    assert!(p.is_meta());
}

#[test]
fn sync_pattern_distinct_from_preamble() {
    let sync = make_sync_pattern();
    let pre = make_preamble();
    let mut peak: f64 = 0.0;
    for shift in 0..(pre.len() - sync.len()) {
        let mut re = 0.0f64;
        let mut im = 0.0f64;
        for (a, b) in sync.iter().zip(pre[shift..].iter()) {
            let (ar, ai) = (a.re as f64 / ONE as f64, a.im as f64 / ONE as f64);
            let (br, bi) = (b.re as f64 / ONE as f64, b.im as f64 / ONE as f64);
            re += ar * br + ai * bi;
            im += ai * br - ar * bi;
        }
        let mag = (re * re + im * im).sqrt();
        if mag > peak {
            peak = mag;
        }
    }
    let self_corr: f64 = sync.iter().map(|c| norm(c) * norm(c)).sum();
    assert!(
        peak < self_corr * 0.6,
        "Marker sync cross-correlates too strongly with preamble: {peak:.2} vs {self_corr:.2}"
    );
}

#[test]
fn control_symbols_with_a_wrong_symbol_are_refused() {
    let p = MarkerPayload { seg_id: 7, session_id_low: 9, base_esi: 11, flags: 0 };
    let mut syms = encode_control_symbols(&p);
    syms[5] = Symbol { re: -syms[5].re, im: -syms[5].im };
    assert_eq!(decode_control_symbols(&syms), None);
}

#[test]
fn superframe_v3_starts_with_preamble_and_header() {
    let config = profile_normal();
    let data = vec![0x42u8; 200];
    let header = header_symbols();
    let symbols =
        build_superframe_v3(&data, &config, 0xDEAD_BEEF, mime::BINARY, 0x1234, &header);
    let preamble = make_preamble();
    for (i, (actual, expected)) in symbols.iter().zip(preamble.iter()).enumerate() {
        assert_eq!(actual, expected, "preamble mismatch at {i}");
    }
    assert_eq!(&symbols[256..256 + 96], &header[..]);
}

#[test]
fn superframe_v3_has_marker_after_header() {
    let config = profile_normal();
    let data = vec![0x42u8; 200];
    let symbols =
        build_superframe_v3(&data, &config, 0xDEAD_BEEF, mime::BINARY, 0, &header_symbols());
    let sync = make_sync_pattern();
    let cursor = 256 + 96;
    let marker_syms = &symbols[cursor..cursor + MARKER_SYNC_LEN];
    for (i, (a, b)) in marker_syms.iter().zip(sync.iter()).enumerate() {
        assert_eq!(a, b, "marker sync mismatch at index {i}");
    }
    let ctrl_start = cursor + MARKER_SYNC_LEN;
    let ctrl_syms = &symbols[ctrl_start..ctrl_start + MARKER_CTRL_LEN];
    let p = decode_control_symbols(ctrl_syms).expect("CRC valid");
    assert_eq!(p.seg_id, 0);
    assert_eq!(p.session_id_low, (0xDEAD_BEEFu32 & 0xFF) as u8);
    assert!(p.is_meta(), "first segment must be meta (session-init)");
}

#[test]
fn plan_sends_every_codeword_once_and_repeats_the_anchor() {
    let config = profile_high();
    let pattern = PilotPattern::default_v3();
    let period = 1500 * V3_PREAMBLE_PERIOD_S;
    let plan = plan_segments(41, period, config.constellation, &pattern);
    assert_eq!(plan[0].count, 0);
    let mut next = 0;
    let mut anchors = 0;
    for (i, seg) in plan.iter().enumerate() {
        assert_eq!(seg.seg_id as usize, i);
        assert_eq!(seg.base, next);
        if seg.count == 0 {
            anchors += 1;
        }
        next += seg.count;
    }
    assert_eq!(next, 41);
    assert!(anchors >= 3, "several anchors over the frame, got {anchors}");
}

#[test]
fn empty_plan_holds_the_session_header_alone() {
    let plan = plan_segments(0, 0, ConstellationType::Qpsk, &PilotPattern::default_v3());
    assert_eq!(plan.len(), 1);
    assert_eq!(plan[0].count, 0);
}
