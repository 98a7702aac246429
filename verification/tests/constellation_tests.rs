use modem_core::constellation::{
    apsk16_dvbs2, apsk32_dvbs2, apsk64_dvbs2x, psk8_gray, qpsk_gray, Constellation,
};
use modem_core::frame::{check_rings, make_constellation};
use modem_core::profile::ProfileIndex;
use modem_core::ratio::Ratio;
use modem_core::symbol::{Symbol, ONE};

fn re(p: &Symbol) -> f64 {
    p.re as f64 / ONE as f64
}

fn im(p: &Symbol) -> f64 {
    p.im as f64 / ONE as f64
}

fn norm_sqr(p: &Symbol) -> f64 {
    re(p) * re(p) + im(p) * im(p)
}

fn mean_energy(c: &Constellation) -> f64 {
    c.points.iter().map(norm_sqr).sum::<f64>() / c.points.len() as f64
}

fn near(p: &Symbol, radius: f64, angle: f64) -> bool {
    let dx = re(p) - radius * angle.cos();
    let dy = im(p) - radius * angle.sin();
    (dx * dx + dy * dy).sqrt() < 1e-10
}

fn distinct(c: &Constellation) {
    for i in 0..c.points.len() {
        for j in (i + 1)..c.points.len() {
            let dx = re(&c.points[i]) - re(&c.points[j]);
            let dy = im(&c.points[i]) - im(&c.points[j]);
            assert!((dx * dx + dy * dy).sqrt() > 1e-6, "points {i} and {j} are identical");
        }
    }
}

fn all_labels(n: u8, bits: usize) -> Vec<u8> {
    (0..n).flat_map(|i| (0..bits).rev().map(move |k| (i >> k) & 1)).collect()
}

fn roundtrip_bits(c: &Constellation, bits: &[u8]) {
    let syms = c.map_bits(bits);
    let idx = c.slice_nearest(&syms);
    let bits_out = c.symbols_to_bits(&idx);
    assert_eq!(bits, &bits_out[..]);
}

fn ratio16() -> Ratio {
    Ratio::new(285, 100)
}

fn apsk32() -> Constellation {
    apsk32_dvbs2(Ratio::new(284, 100), Ratio::new(527, 100))
}

fn apsk64() -> Constellation {
    apsk64_dvbs2x(Ratio::new(24, 10), Ratio::new(43, 10), Ratio::new(7, 1))
}

#[test]
fn qpsk_es_unity() {
    let c = qpsk_gray();
    assert!((mean_energy(&c) - 1.0).abs() < 1e-12);
}

#[test]
fn psk8_es_unity() {
    let c = psk8_gray();
    assert!((mean_energy(&c) - 1.0).abs() < 1e-12);
}

#[test]
fn apsk16_es_unity() {
    let c = apsk16_dvbs2(ratio16());
    assert!((mean_energy(&c) - 1.0).abs() < 1e-10);
}

#[test]
fn qpsk_roundtrip() {
    let c = qpsk_gray();
    roundtrip_bits(&c, &[0, 0, 0, 1, 1, 1, 1, 0]);
}

#[test]
fn psk8_roundtrip() {
    let c = psk8_gray();
    roundtrip_bits(
        &c,
        &[0, 0, 0, 0, 0, 1, 0, 1, 0, 0, 1, 1, 1, 0, 0, 1, 0, 1, 1, 1, 0, 1, 1, 1],
    );
}

#[test]
fn apsk16_roundtrip() {
    let c = apsk16_dvbs2(ratio16());
    roundtrip_bits(&c, &all_labels(16, 4));
}

#[test]
fn apsk32_es_unity() {
    let c = apsk32();
    assert_eq!(c.points.len(), 32);
    assert_eq!(c.bits_per_sym, 5);
    let es = mean_energy(&c);
    assert!((es - 1.0).abs() < 1e-10, "Es = {es}");
}

#[test]
fn apsk32_three_rings() {
    let c = apsk32();
    let mut radii: Vec<f64> = c.points.iter().map(|p| norm_sqr(p).sqrt()).collect();
    radii.sort_by(|a, b| a.partial_cmp(b).unwrap());
    let r1 = radii[0];
    let r2 = radii[4];
    let r3 = radii[16];
    for k in 0..4 {
        assert!((radii[k] - r1).abs() < 1e-10, "R1 #{k} radius mismatch");
    }
    for k in 4..16 {
        assert!((radii[k] - r2).abs() < 1e-10, "R2 #{k} radius mismatch");
    }
    for k in 16..32 {
        assert!((radii[k] - r3).abs() < 1e-10, "R3 #{k} radius mismatch");
    }
    assert!((r2 / r1 - 2.84).abs() < 1e-10, "gamma 1 mismatch: {}", r2 / r1);
    assert!((r3 / r1 - 5.27).abs() < 1e-10, "gamma 2 mismatch: {}", r3 / r1);
}

#[test]
fn apsk32_dvbs2_reference_points() {
    let c = apsk32();
    let r0 = (8.0_f64 / (1.0 + 3.0 * 2.84 * 2.84 + 4.0 * 5.27 * 5.27)).sqrt();
    let r1 = r0;
    let r2 = 2.84 * r0;
    let r3 = 5.27 * r0;
    let pi = std::f64::consts::PI;
    assert!(near(&c.points[0b10001], r1, pi / 4.0));
    assert!(near(&c.points[0b00000], r2, pi / 4.0));
    assert!(near(&c.points[0b11000], r3, 0.0));
    assert!(near(&c.points[0b01101], r3, pi / 2.0));
}

#[test]
fn apsk32_distinct_points() {
    distinct(&apsk32());
}

#[test]
fn apsk32_roundtrip() {
    roundtrip_bits(&apsk32(), &all_labels(32, 5));
}

#[test]
fn apsk64_es_unity() {
    let c = apsk64();
    assert_eq!(c.points.len(), 64);
    assert_eq!(c.bits_per_sym, 6);
    let es = mean_energy(&c);
    assert!((es - 1.0).abs() < 1e-10, "Es = {es}");
}

#[test]
fn apsk64_four_rings() {
    let c = apsk64();
    let mut radii: Vec<f64> = c.points.iter().map(|p| norm_sqr(p).sqrt()).collect();
    radii.sort_by(|a, b| a.partial_cmp(b).unwrap());
    let r1 = radii[0];
    let r2 = radii[4];
    let r3 = radii[16];
    let r4 = radii[36];
    for k in 0..4 {
        assert!((radii[k] - r1).abs() < 1e-10, "R1 #{k} radius mismatch");
    }
    for k in 4..16 {
        assert!((radii[k] - r2).abs() < 1e-10, "R2 #{k} radius mismatch");
    }
    for k in 16..36 {
        assert!((radii[k] - r3).abs() < 1e-10, "R3 #{k} radius mismatch");
    }
    for k in 36..64 {
        assert!((radii[k] - r4).abs() < 1e-10, "R4 #{k} radius mismatch");
    }
    assert!((r2 / r1 - 2.4).abs() < 1e-10, "gamma 1 mismatch: {}", r2 / r1);
    assert!((r3 / r1 - 4.3).abs() < 1e-10, "gamma 2 mismatch: {}", r3 / r1);
    assert!((r4 / r1 - 7.0).abs() < 1e-10, "gamma 3 mismatch: {}", r4 / r1);
}

#[test]
fn apsk64_dvbs2x_reference_points() {
    let c = apsk64();
    let r0 = (16.0_f64 / (1.0 + 3.0 * 2.4 * 2.4 + 5.0 * 4.3 * 4.3 + 7.0 * 7.0 * 7.0)).sqrt();
    let r1 = r0;
    let r2 = 2.4 * r0;
    let r3 = 4.3 * r0;
    let r4 = 7.0 * r0;
    let pi = std::f64::consts::PI;
    assert!(near(&c.points[0b001100], r1, pi / 4.0), "idx 12 R1");
    assert!(near(&c.points[0b011100], r2, pi / 12.0), "idx 28 R2");
    assert!(near(&c.points[0b011000], r3, pi / 20.0), "idx 24 R3");
    assert!(near(&c.points[0b000000], r4, pi / 4.0), "idx 0 R4");
    assert!(near(&c.points[0b001000], r4, pi / 28.0), "idx 8 R4");
}

#[test]
fn apsk64_distinct_points() {
    distinct(&apsk64());
}

#[test]
fn apsk64_roundtrip() {
    roundtrip_bits(&apsk64(), &all_labels(64, 6));
}

#[test]
fn psk8_gray_neighbors_differ_one_bit() {
    let c = psk8_gray();
    for k in 0..8usize {
        let next = (k + 1) % 8;
        let idx_k = k ^ (k >> 1);
        let idx_next = next ^ (next >> 1);
        let diff: usize =
            (0..3).filter(|&b| c.bit_map[idx_k][b] != c.bit_map[idx_next][b]).count();
        assert_eq!(diff, 1, "8PSK Gray: angular neighbors {k} and {next} differ by {diff} bits");
    }
}

#[test]
fn hard_decision_gives_the_nearest_point() {
    let c = qpsk_gray();
    for p in &c.points {
        let off = Symbol { re: p.re - ONE / 8, im: p.im + ONE / 16 };
        assert_eq!(c.hard_decision(off), *p);
    }
}

#[test]
fn labels_are_written_most_significant_bit_first() {
    let c = apsk16_dvbs2(ratio16());
    assert_eq!(c.bit_map[0b0110], vec![0, 1, 1, 0]);
    assert_eq!(c.symbols_to_bits(&[0b1000, 0b0001]), vec![1, 0, 0, 0, 0, 0, 0, 1]);
}

#[test]
fn rings_next_to_each_other_do_not_merge() {
    distinct(&apsk16_dvbs2(Ratio::new(65536, 65535)));
    distinct(&apsk32_dvbs2(Ratio::new(65535, 65534), Ratio::new(65536, 65534)));
    distinct(&apsk64_dvbs2x(
        Ratio::new(65534, 65533),
        Ratio::new(65535, 65533),
        Ratio::new(65536, 65533),
    ));
}

#[test]
fn training_symbols_of_64_apsk_are_its_first_points() {
    let config = ProfileIndex::HighPlusPlus.to_config();
    let a = config.training_amplitude();
    let c = make_constellation(&config);
    for (label, q) in [(0, 0), (1, 3), (2, 1), (3, 2)] {
        let d = Symbol::diagonal(q);
        let part = |x: i64| (a as i128 * x as i128 / ONE as i128) as i64;
        assert_eq!(c.points[label], Symbol { re: part(d.re), im: part(d.im) });
    }
    assert!(norm_sqr(&c.points[0]) > 1.0);
    assert_eq!(ProfileIndex::High.to_config().training_amplitude(), ONE as u64);
}

#[test]
fn fine_ring_ratios_are_taken() {
    let coarse = apsk16_dvbs2(Ratio::new(285, 100));
    let fine = apsk16_dvbs2(Ratio::new(2_850_000_000, 1_000_000_000));
    assert_eq!(coarse.points, fine.points);
    let coarse = apsk32_dvbs2(Ratio::new(284, 100), Ratio::new(527, 100));
    let fine = apsk32_dvbs2(Ratio::new(284_000, 100_000), Ratio::new(527_000, 100_000));
    assert_eq!(coarse.points, fine.points);
}

#[test]
fn rings_have_to_rise() {
    for p in ProfileIndex::ALL {
        assert!(check_rings(&p.to_config()));
    }
    let mut config = ProfileIndex::HighPlusPlus.to_config();
    config.apsk_gamma3 = config.apsk_gamma2;
    assert!(!check_rings(&config));
    let mut config = ProfileIndex::HighPlusPlus.to_config();
    config.apsk_gamma.den = 0;
    assert!(!check_rings(&config));
    let mut config = ProfileIndex::High.to_config();
    config.apsk_gamma = Ratio::new(1, 1);
    assert!(!check_rings(&config));
    let mut config = ProfileIndex::HighPlus.to_config();
    config.apsk_gamma2 = Ratio::new(u32::MAX, 1);
    assert!(check_rings(&config));
    config.apsk_gamma = Ratio::new(4_000_000_000, 2_000_000_000);
    assert!(!check_rings(&config));
}

#[test]
fn mean_power_and_ring_ratios_hold_to_the_last_units() {
    let power = |p: &Symbol| p.re as i128 * p.re as i128 + p.im as i128 * p.im as i128;
    let one = ONE as i128;
    let odd = apsk16_dvbs2(Ratio::new(u32::MAX, u32::MAX - 1));
    let wide = apsk16_dvbs2(Ratio::new(u32::MAX, 1));
    for c in [qpsk_gray(), psk8_gray(), apsk16_dvbs2(ratio16()), apsk32(), apsk64(), odd, wide] {
        let n = c.points.len() as i128;
        let total: i128 = c.points.iter().map(power).sum();
        assert!((total - n * one * one).abs() <= n * 128 * one);
    }
    let c = apsk64();
    let radius = |label: usize| norm_sqr(&c.points[label]).sqrt();
    // Labels on the four rings, innermost first, at the angle of a quarter of pi.
    let rings = [radius(12), radius(60), radius(48), radius(0)];
    for (ring, gamma) in rings[1..].iter().zip([2.4, 4.3, 7.0]) {
        assert!((ring / rings[0] - gamma).abs() < 1e-12);
    }
}

#[test]
fn every_16_apsk_keeps_its_points_apart() {
    for gamma in [Ratio::new(u32::MAX, u32::MAX - 1), Ratio::new(u32::MAX, 1)] {
        let c = apsk16_dvbs2(gamma);
        for i in 0..16 {
            for j in 0..i {
                assert_ne!(c.points[i], c.points[j]);
            }
        }
    }
}
