use modem_core::ffe::{apply_ffe, middle_tap, normal_equations, Wide};
use modem_core::symbol::{Symbol, ONE};
use num_complex::Complex64;

fn to_symbol(c: Complex64) -> Symbol {
    let part = |x: f64| (x * ONE as f64).round() as i64;
    Symbol { re: part(c.re), im: part(c.im) }
}

fn to_symbols(points: &[Complex64]) -> Vec<Symbol> {
    points.iter().map(|&c| to_symbol(c)).collect()
}

fn from_symbol(s: &Symbol) -> Complex64 {
    Complex64::new(s.re as f64 / ONE as f64, s.im as f64 / ONE as f64)
}

fn from_wide(w: &Wide) -> Complex64 {
    let unit = ONE as f64 * ONE as f64;
    Complex64::new(w.re as f64 / unit, w.im as f64 / unit)
}

fn solve(mut a: Vec<Vec<Complex64>>, mut b: Vec<Complex64>) -> Option<Vec<Complex64>> {
    let n = b.len();
    for p in 0..n {
        let best = (p..n).max_by(|&i, &j| a[i][p].norm().total_cmp(&a[j][p].norm()))?;
        if a[best][p].norm() < 1e-20 {
            return None;
        }
        a.swap(p, best);
        b.swap(p, best);
        let pivot = a[p][p];
        for j in p..n {
            a[p][j] /= pivot;
        }
        b[p] /= pivot;
        let (row, b_p) = (a[p].clone(), b[p]);
        for i in (0..n).filter(|&i| i != p) {
            let factor = a[i][p];
            for j in p..n {
                a[i][j] -= factor * row[j];
            }
            b[i] -= factor * b_p;
        }
    }
    Some(b)
}

fn train_ffe_ls(
    input: &[Symbol],
    refs: &[Complex64],
    positions: &[usize],
    n_ff: usize,
) -> Vec<Symbol> {
    let system = normal_equations(input, &to_symbols(refs), positions, n_ff);
    let gram = system.gram.iter().map(|row| row.iter().map(from_wide).collect()).collect();
    let rhs = system.rhs.iter().map(from_wide).collect();
    solve(gram, rhs).map_or_else(|| middle_tap(n_ff), |taps| to_symbols(&taps))
}

fn quarter_turns(n: usize) -> Vec<Complex64> {
    (0..n)
        .map(|k| {
            let phase = (k % 4) as f64 * std::f64::consts::PI / 2.0;
            Complex64::new(phase.cos(), phase.sin())
        })
        .collect()
}

#[test]
fn ffe_learns_identity_on_ideal_channel() {
    let pitch_fse = 2;
    let fse_start = 10;
    let n_train = 32;
    let refs = quarter_turns(n_train);
    let total_len = fse_start + n_train * pitch_fse + 10;
    let mut fse_input = vec![Complex64::new(0.0, 0.0); total_len];
    for (k, &r) in refs.iter().enumerate() {
        fse_input[fse_start + k * pitch_fse] = r;
    }
    let positions: Vec<usize> = (0..n_train).map(|k| fse_start + k * pitch_fse).collect();
    let n_ff = 5;
    let input = to_symbols(&fse_input);
    let taps = train_ffe_ls(&input, &refs, &positions, n_ff);
    let out = apply_ffe(&input, &taps, fse_start, pitch_fse, n_train);
    for (k, (y, r)) in out.iter().zip(refs.iter()).enumerate() {
        let y = from_symbol(y);
        assert!((y - r).norm() < 1e-6, "symbol {k}: got {:?}, want {:?}", y, r);
    }
}

#[test]
fn ffe_inverts_short_channel() {
    let pitch_fse = 2;
    let fse_start = 10;
    let n_train = 64;
    let refs = quarter_turns(n_train);
    let h = [
        Complex64::new(0.25, 0.05),
        Complex64::new(1.0, 0.0),
        Complex64::new(0.3, -0.1),
    ];
    let total_len = fse_start + n_train * pitch_fse + 10;
    let mut fse_input = vec![Complex64::new(0.0, 0.0); total_len];
    for (k, &r) in refs.iter().enumerate() {
        let center = fse_start + k * pitch_fse;
        for (di, &hi) in h.iter().enumerate() {
            let idx = center as isize + di as isize - 1;
            if idx >= 0 && (idx as usize) < total_len {
                fse_input[idx as usize] += hi * r;
            }
        }
    }
    let positions: Vec<usize> = (0..n_train).map(|k| fse_start + k * pitch_fse).collect();
    let n_ff = 9;
    let input = to_symbols(&fse_input);
    let taps = train_ffe_ls(&input, &refs, &positions, n_ff);
    let out = apply_ffe(&input, &taps, fse_start, pitch_fse, n_train);
    let mut err_sum = 0.0f64;
    let mut count = 0;
    let margin = 2;
    for k in margin..(n_train - margin) {
        err_sum += (from_symbol(&out[k]) - refs[k]).norm_sqr();
        count += 1;
    }
    let rms = (err_sum / count as f64).sqrt();
    assert!(rms < 0.05, "FFE failed to invert channel (rms={rms})");
}

#[test]
fn middle_tap_hands_samples_through() {
    let input: Vec<Symbol> = (0..9).map(|i| Symbol { re: 7 * i - 20, im: -i }).collect();
    let out = apply_ffe(&input, &middle_tap(3), 0, 2, 6);
    assert_eq!(out[0], Symbol { re: 0, im: 0 });
    assert_eq!(out[1], input[2]);
    assert_eq!(out[3], input[6]);
    // The last window still fits at sample 7, not at 8.
    assert_eq!(out[4], Symbol { re: 0, im: 0 });
}

#[test]
fn normal_equations_known_values() {
    let one = Symbol { re: 1, im: 0 };
    let i = Symbol { re: 0, im: 1 };
    let input = [one, i, one, i];
    let system = normal_equations(&input, &[one, i], &[1, 2], 3);
    // Windows (1, i, 1) and (i, 1, i).
    assert_eq!(system.gram[0][0], Wide { re: 2, im: 0 });
    assert_eq!(system.gram[0][1], Wide { re: 0, im: 0 });
    assert_eq!(system.gram[1][1], Wide { re: 2, im: 0 });
    assert_eq!(system.rhs[0], Wide { re: 2, im: 0 });
    assert_eq!(system.rhs[1], Wide { re: 0, im: 0 });
}

#[test]
fn taps_and_samples_of_any_level() {
    let real = |xs: &[i64]| -> Vec<Symbol> {
        xs.iter().map(|&x| Symbol { re: x * ONE, im: 0 }).collect()
    };
    let out = apply_ffe(&real(&[1, 2, 3, 4, 5]), &real(&[1, 10, 100]), 1, 2, 3);
    assert_eq!(out, real(&[321, 543, 0]));
    let out = apply_ffe(&real(&[16, 16, 16]), &real(&[16, 16, 16]), 1, 1, 1);
    assert_eq!(out, real(&[768]));
    let out = apply_ffe(&real(&[-1000, 1000, 7]), &real(&[900, 901, 0]), 1, 1, 1);
    assert_eq!(out, real(&[1000]));
    let out = apply_ffe(&real(&[1000, 1000, 7]), &real(&[-900, 900, 0]), 1, 1, 1);
    assert_eq!(out, real(&[0]));
    let system = normal_equations(&real(&[500, -300, 20]), &real(&[1000]), &[1], 3);
    let unit = ONE as i128 * ONE as i128;
    assert_eq!(system.gram[0][1], Wide { re: -150000 * unit, im: 0 });
    assert_eq!(system.rhs[0], Wide { re: 500000 * unit, im: 0 });
}
