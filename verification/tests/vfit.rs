//! Vector fitting on responses whose poles are known.

use rlx_eda::complex::C64;
use rlx_eda::double::Real;
use rlx_eda::vfit::{
    eval_model, fit_residues, guess_angle, log_position, log_spaced_real_poles, relocate, vector_fit,
    VfitError, VfitOptions,
};

fn dbl(v: f64) -> Real {
    Real { bits: v.to_bits() }
}

fn val(r: Real) -> f64 {
    f64::from_bits(r.bits)
}

fn c(re: f64, im: f64) -> C64 {
    C64::new(dbl(re), dbl(im))
}

fn log_freqs(omega_min: f64, omega_max: f64, n: usize) -> Vec<Real> {
    let lmin = omega_min.ln();
    let lmax = omega_max.ln();
    (0..n)
        .map(|i| {
            let t = i as f64 / (n as f64 - 1.0);
            dbl((lmin + (lmax - lmin) * t).exp())
        })
        .collect()
}

fn sample_response(freqs: &[Real], poles: &[C64], residues: &[C64], d: f64, e: f64) -> Vec<C64> {
    freqs.iter().map(|&w| eval_model(w, poles, residues, dbl(d), dbl(e))).collect()
}

/// The cosines and sines of the first guesses.
fn turns(k: usize) -> Vec<(Real, Real)> {
    (0..k)
        .map(|i| {
            let a = val(guess_angle(i, k));
            (dbl(a.cos()), dbl(a.sin()))
        })
        .collect()
}

fn spaced(min: f64, max: f64, k: usize) -> Vec<C64> {
    let rates: Vec<Real> =
        (0..k).map(|i| dbl(val(log_position(dbl(min.ln()), dbl(max.ln()), i, k)).exp())).collect();
    log_spaced_real_poles(dbl(min), dbl(max), k, &rates)
}

#[test]
fn fit_residues_recovers_known_residues_at_known_poles() {
    // 0.5/(s+10) + 1.5/(s+1000) + 0.2
    let true_poles = vec![c(-10.0, 0.0), c(-1000.0, 0.0)];
    let true_residues = vec![c(0.5, 0.0), c(1.5, 0.0)];
    let freqs = log_freqs(0.1, 1e5, 200);
    let h = sample_response(&freqs, &true_poles, &true_residues, 0.2, 0.0);

    let (residues, d, e, rms) = fit_residues(&freqs, &h, &true_poles, true, false).unwrap();
    assert!(val(rms) < 1e-9, "rms {} too large", val(rms));
    assert!((val(residues[0].re) - 0.5).abs() < 1e-6);
    assert!((val(residues[1].re) - 1.5).abs() < 1e-6);
    assert!(val(residues[0].im).abs() < 1e-6);
    assert!(val(residues[1].im).abs() < 1e-6);
    assert!((val(d) - 0.2).abs() < 1e-6);
    assert!(val(e).abs() < 1e-9);
}

#[test]
fn vector_fit_relocates_single_real_pole() {
    // 1/(s + 10), from a pole that is an order of magnitude off.
    let true_poles = vec![c(-10.0, 0.0)];
    let true_residues = vec![c(1.0, 0.0)];
    let freqs = log_freqs(0.1, 1e3, 200);
    let h = sample_response(&freqs, &true_poles, &true_residues, 0.0, 0.0);
    let initial = vec![c(-1.0, 0.0)];
    let opt = VfitOptions { n_iters: 8, asymptotic_d: false, asymptotic_e: false, ..Default::default() };
    let res = vector_fit(&freqs, &h, &initial, opt, &turns(1)).unwrap();

    assert!(val(res.rms_error) < 1e-8, "rms {}", val(res.rms_error));
    let (p, r) = (res.poles[0], res.residues[0]);
    assert!((val(p.re) + 10.0).abs() / 10.0 < 1e-3, "pole {} should be near -10", val(p.re));
    assert!(val(p.im).abs() < 1e-6);
    assert!((val(r.re) - 1.0).abs() < 1e-3, "residue {} should be near 1", val(r.re));
}

#[test]
fn vector_fit_relocates_two_real_poles() {
    // 0.5/(s+5) + 2.0/(s+500)
    let true_poles = vec![c(-5.0, 0.0), c(-500.0, 0.0)];
    let true_residues = vec![c(0.5, 0.0), c(2.0, 0.0)];
    let freqs = log_freqs(0.05, 5e3, 300);
    let h = sample_response(&freqs, &true_poles, &true_residues, 0.0, 0.0);
    let initial = spaced(0.05, 5e3, 2);
    let opt = VfitOptions { n_iters: 10, asymptotic_d: false, asymptotic_e: false, ..Default::default() };
    let res = vector_fit(&freqs, &h, &initial, opt, &turns(2)).unwrap();

    assert!(val(res.rms_error) < 1e-7, "rms {}", val(res.rms_error));
    let mut found: Vec<(f64, f64)> =
        res.poles.iter().zip(res.residues.iter()).map(|(p, r)| (val(p.re), val(r.re))).collect();
    for (true_p, true_r) in [(-5.0_f64, 0.5_f64), (-500.0, 2.0)] {
        let (idx, _) = found
            .iter()
            .enumerate()
            .min_by(|(_, a), (_, b)| (a.0 - true_p).abs().partial_cmp(&(b.0 - true_p).abs()).unwrap())
            .unwrap();
        let (p_re, r_re) = found.remove(idx);
        assert!((p_re - true_p).abs() / true_p.abs() < 5e-3, "pole {p_re} should be near {true_p}");
        assert!((r_re - true_r).abs() / true_r.abs() < 5e-3, "residue {r_re} should be near {true_r}");
    }
}

#[test]
fn rejects_dimension_mismatch() {
    let freqs = vec![dbl(1.0), dbl(2.0)];
    let h = vec![C64::one()];
    let poles = vec![c(-1.0, 0.0)];
    let err = fit_residues(&freqs, &h, &poles, true, false).unwrap_err();
    assert!(matches!(err, VfitError::DimensionMismatch { freqs: 2, response: 1 }));
    assert_eq!(err.message(), "freqs (2) != response (1)");
}

#[test]
fn other_errors_are_told_apart() {
    let freqs = vec![dbl(1.0), dbl(2.0)];
    let h = vec![C64::one(), C64::i()];
    assert!(matches!(fit_residues(&freqs, &h, &[], false, false), Err(VfitError::NoPoles)));
    let twice = vec![c(-1.0, 0.0), c(-1.0, 0.0)];
    assert!(matches!(fit_residues(&freqs, &h, &twice, false, false), Err(VfitError::SingularLstsq)));
    assert!(matches!(
        vector_fit(&freqs, &h, &[], VfitOptions::default(), &[]),
        Err(VfitError::NoPoles)
    ));
    let never = VfitOptions { root_finder_iters: 0, asymptotic_d: false, ..Default::default() };
    let freqs = log_freqs(0.1, 1e3, 9);
    let h = sample_response(&freqs, &[c(-10.0, 0.0)], &[c(1.0, 0.0)], 0.0, 0.0);
    let r = vector_fit(&freqs, &h, &[c(-1.0, 0.0)], never, &turns(1));
    assert_eq!(r.unwrap_err().message(), "Durand–Kerner did not converge (last max |Δroot| = inf)");
    let e = VfitError::RootFinderDiverged { last_max_dx: dbl(1.25e-7) };
    assert_eq!(e.message(), "Durand–Kerner did not converge (last max |Δroot| = 1.25e-7)");
}

#[test]
fn poles_move_to_the_left_half_plane() {
    let f = |re: f64| val(relocate(c(re, 3.0), true, dbl(1e-6)).re);
    assert_eq!(f(2.0), -2.0);
    assert_eq!(f(-2.0), -2.0);
    assert_eq!(f(0.0), -1e-6);
    assert_eq!(f(1e-9), -1e-6);
    assert_eq!(val(relocate(c(2.0, 3.0), false, dbl(1e-6)).re), 2.0);
    assert_eq!(relocate(c(2.0, 3.0), true, dbl(1e-6)).im, dbl(0.0));
    assert_eq!(spaced(1.0, 4.0, 1), vec![c(-2.0, 0.0)]);
    assert!(spaced(1.0, 4.0, 0).is_empty());
}
