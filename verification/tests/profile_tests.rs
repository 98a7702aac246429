use modem_core::header::derive_profile_index;
use modem_core::preamble::PreambleFamily;
use modem_core::profile::{
    config_by_name, profile_fast, profile_high, profile_mega, profile_normal, profile_robust,
    profile_ultra, ConstellationType, LdpcRate, ModemConfig, PilotPattern, ProfileIndex,
};
use modem_core::ratio::Ratio;
use modem_core::rrc::{check_integer_constraints, RateError};

fn value(r: Ratio) -> f64 {
    r.num as f64 / r.den as f64
}

fn bitrate(cfg: &ModemConfig) -> f64 {
    let (num, den) = cfg.net_bitrate();
    num as f64 / den as f64
}

#[test]
fn derive_profile_index_matches_all_profiles() {
    let cases: [(ModemConfig, ProfileIndex); 4] = [
        (profile_ultra(), ProfileIndex::Ultra),
        (profile_robust(), ProfileIndex::Robust),
        (profile_normal(), ProfileIndex::Normal),
        (profile_high(), ProfileIndex::High),
    ];
    for (cfg, expected) in cases {
        assert_eq!(
            derive_profile_index(&cfg),
            expected.as_u8(),
            "derive_profile_index mismatch for {expected:?}"
        );
    }
}

#[test]
fn unknown_configuration_has_no_profile() {
    let mut cfg = profile_normal();
    cfg.symbol_rate = Ratio::new(777, 1);
    assert_eq!(derive_profile_index(&cfg), ProfileIndex::UNKNOWN);
}

#[test]
fn mode_code_roundtrip() {
    for cfg in [profile_mega(), profile_high(), profile_normal(), profile_robust(), profile_ultra()]
    {
        let code = cfg.mode_code();
        let decoded =
            ModemConfig::from_mode_code(code, cfg.beta, cfg.tau, cfg.center_freq_hz).unwrap();
        assert_eq!(decoded.constellation, cfg.constellation);
        assert_eq!(decoded.ldpc_rate, cfg.ldpc_rate);
        assert!((value(decoded.symbol_rate) - value(cfg.symbol_rate)).abs() < 1.0);
    }
}

#[test]
fn mode_codes_with_an_unknown_symbol_rate_are_refused() {
    let cfg = profile_normal();
    for code in [0x08u8, 0x4F, 0xFF] {
        assert!(
            ModemConfig::from_mode_code(code, cfg.beta, cfg.tau, cfg.center_freq_hz).is_none()
        );
    }
}

#[test]
fn net_bitrate_normal() {
    let rate = bitrate(&profile_normal());
    assert!((rate - 2117.6).abs() < 5.0, "rate = {rate}");
}

#[test]
fn ultra_uses_dense_pilot_pattern() {
    assert_eq!(profile_ultra().pilot_pattern, PilotPattern::dense_ultra());
    for cfg in [profile_mega(), profile_high(), profile_normal(), profile_robust()] {
        assert_eq!(
            cfg.pilot_pattern,
            PilotPattern::default_v3(),
            "non-ULTRA profile should use default_v3 pattern",
        );
    }
}

#[test]
fn net_bitrate_ultra_dense_pattern() {
    let rate = bitrate(&profile_ultra());
    assert!((rate - 444.4).abs() < 1.0, "rate = {rate}");
}

#[test]
fn profile_bytes_and_names_round_trip() {
    for (i, p) in ProfileIndex::ALL.iter().enumerate() {
        assert_eq!(p.as_u8() as usize, i);
        assert_eq!(ProfileIndex::from_u8(p.as_u8()), Some(*p));
        assert_eq!(ProfileIndex::from_name(p.name()), Some(*p));
        assert_eq!(ProfileIndex::from_name(&p.name().to_lowercase()), Some(*p));
    }
    assert_eq!(ProfileIndex::from_u8(ProfileIndex::UNKNOWN), None);
    assert_eq!(ProfileIndex::from_name("no such profile"), None);
}

#[test]
fn config_by_name_takes_any_case() {
    assert_eq!(config_by_name("normal"), Some(profile_normal()));
    assert_eq!(config_by_name("Fast"), Some(profile_fast()));
    assert_eq!(config_by_name(""), None);
}

#[test]
fn anchors_stand_for_their_family() {
    for family in [PreambleFamily::A, PreambleFamily::B, PreambleFamily::C] {
        assert_eq!(ProfileIndex::anchor_for_family(family).preamble_family(), family);
    }
    for p in ProfileIndex::ALL {
        assert_eq!(p.preamble_family(), p.to_config().preamble_family());
    }
}

#[test]
fn codes_of_constellations_and_rates_round_trip() {
    for code in 0..4u8 {
        assert_eq!(ConstellationType::from_code(code).unwrap().code(), code);
    }
    assert_eq!(ConstellationType::from_code(4), None);
    for code in 0..4u8 {
        let rate = LdpcRate::from_code(code).unwrap();
        assert_eq!(rate.code(), code);
        assert_eq!(rate.n(), 2304);
    }
    assert_eq!(LdpcRate::from_code(4), None);
}

#[test]
fn integer_constraints_ok() {
    let (sps, pitch) =
        check_integer_constraints(48000, Ratio::new(1500, 1), Ratio::new(1, 1)).unwrap();
    assert_eq!(sps, 32);
    assert_eq!(pitch, 32);
}

#[test]
fn integer_constraints_ftn() {
    let (sps, pitch) =
        check_integer_constraints(48000, Ratio::new(1500, 1), Ratio::new(30, 32)).unwrap();
    assert_eq!(sps, 32);
    assert_eq!(pitch, 30);
}

#[test]
fn integer_constraints_500bd() {
    let (sps, pitch) =
        check_integer_constraints(48000, Ratio::new(500, 1), Ratio::new(1, 1)).unwrap();
    assert_eq!(sps, 96);
    assert_eq!(pitch, 96);
}

#[test]
fn integer_constraints_fail() {
    assert!(check_integer_constraints(48000, Ratio::new(1234, 1), Ratio::new(1, 1)).is_err());
}

#[test]
fn rate_faults_are_told_apart() {
    assert_eq!(
        check_integer_constraints(48000, Ratio::new(1234, 1), Ratio::new(1, 1)),
        Err(RateError::SpsNotInteger)
    );
    assert_eq!(
        check_integer_constraints(48000, Ratio::new(1500, 1), Ratio::new(1, 3)),
        Err(RateError::PitchNotInteger)
    );
}

#[test]
fn published_table_of_profiles() {
    // Bits per symbol, symbol rate, roll-off, spacing, code rate, pilots, net rate.
    let table = [
        ("ULTRA", 2, 500.0, 0.25, 1.0, 0.5, 16, 444.0),
        ("ROBUST", 2, 1000.0, 0.25, 1.0, 0.5, 32, 941.0),
        ("NORMAL", 3, 1500.0, 0.20, 1.0, 0.5, 32, 2118.0),
        ("HIGH", 4, 1500.0, 0.20, 1.0, 0.75, 32, 4235.0),
        ("HIGH56", 4, 1500.0, 0.20, 1.0, 5.0 / 6.0, 32, 4706.0),
        ("HIGH+", 5, 1500.0, 0.20, 1.0, 0.75, 32, 5294.0),
        ("MEGA", 4, 1500.0, 0.20, 30.0 / 32.0, 0.75, 32, 3971.0),
        ("FAST", 4, 1714.0, 0.15, 1.0, 0.75, 32, 4840.0),
        ("HIGH+56", 5, 1500.0, 0.20, 1.0, 5.0 / 6.0, 32, 5882.0),
        ("HIGH++", 6, 1500.0, 0.20, 1.0, 0.75, 16, 6000.0),
    ];
    for (name, bits, symbol_rate, beta, tau, rate, d_syms, net) in table {
        let cfg = config_by_name(name).expect(name);
        assert_eq!(cfg.constellation.bits_per_sym(), bits, "{name}");
        assert!((value(cfg.symbol_rate) - symbol_rate).abs() < 0.5, "{name}");
        assert!((value(cfg.beta) - beta).abs() < 1e-9, "{name}");
        assert!((value(cfg.tau) - tau).abs() < 1e-9, "{name}");
        assert!((value(cfg.ldpc_rate.rate()) - rate).abs() < 1e-9, "{name}");
        assert_eq!(cfg.pilot_pattern.d_syms, d_syms, "{name}");
        assert_eq!(cfg.pilot_pattern.p_syms, 2, "{name}");
        assert!((bitrate(&cfg) - net).abs() < 2.5, "{name}: {}", bitrate(&cfg));
    }
}

#[test]
fn preamble_family_goes_by_rate_and_roll_off() {
    let normal = profile_normal();
    let odd = ModemConfig { symbol_rate: Ratio::new(300, 1), ..normal };
    assert_eq!(odd.preamble_family(), PreambleFamily::A);
    let slow = ModemConfig { symbol_rate: Ratio::new(500, 1), ..normal };
    assert_eq!(slow.preamble_family(), PreambleFamily::A);
    let ultra = ModemConfig { beta: Ratio::new(1, 4), ..slow };
    assert_eq!(ultra.preamble_family(), PreambleFamily::C);
    let robust = ModemConfig { symbol_rate: Ratio::new(2000, 2), ..ultra };
    assert_eq!(robust.preamble_family(), PreambleFamily::B);
    let fast = ModemConfig { symbol_rate: Ratio::new(1500, 1), ..ultra };
    assert_eq!(fast.preamble_family(), PreambleFamily::A);
}
