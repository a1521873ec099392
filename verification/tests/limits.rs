//! Limits on measured values.

use rlx_eda::double::Real;
use rlx_eda::limits::{McSummaryStyle, Spec, SpecBundle, SpecCheck, SpecFail};

fn dbl(v: f64) -> Real {
    Real { bits: v.to_bits() }
}

fn spec(min: Option<f64>, max: Option<f64>) -> Spec {
    Spec { name: "x".into(), min: min.map(dbl), typ: None, max: max.map(dbl), unit: None }
}

#[test]
fn check_pass_within_bounds() {
    let s = spec(Some(0.0), Some(1.0));
    assert!(s.check(Some(dbl(0.5))).is_pass());
}

#[test]
fn check_fail_below_min() {
    let s = spec(Some(0.0), Some(1.0));
    let r = s.check(Some(dbl(-0.1)));
    assert!(matches!(r, SpecCheck::Fail { reason: SpecFail::BelowMin(_), .. }));
}

#[test]
fn check_fail_above_max() {
    let s = spec(Some(0.0), Some(1.0));
    let r = s.check(Some(dbl(2.0)));
    assert!(matches!(r, SpecCheck::Fail { reason: SpecFail::AboveMax(_), .. }));
}

#[test]
fn missing_measurement_is_skipped() {
    let s = spec(Some(0.0), Some(1.0));
    assert!(matches!(s.check(None), SpecCheck::Skipped));
}

#[test]
fn open_min_or_max_is_optional() {
    let s = spec(None, Some(1.0));
    assert!(s.check(Some(dbl(-100.0))).is_pass()); // no min bound
    assert!(s.check(Some(dbl(2.0))).is_fail());
}

#[test]
fn draws_are_summed_up_by_range_or_by_deviation() {
    let vs: Vec<Real> = [1.0, 2.0, 3.0, 4.0].iter().map(|&v| dbl(v)).collect();
    let (lo, mid, hi) = McSummaryStyle::MinMax.summarize(&vs).unwrap();
    assert_eq!((lo, mid, hi), (dbl(1.0), dbl(2.5), dbl(4.0)));
    let (lo, mid, hi) = McSummaryStyle::ThreeStd.summarize(&vs).unwrap();
    let sd = (5.0_f64 / 3.0).sqrt();
    assert_eq!((lo, mid, hi), (dbl(2.5 - 3.0 * sd), dbl(2.5), dbl(2.5 + 3.0 * sd)));
    assert!(McSummaryStyle::MinMax.summarize(&Vec::new()).is_none());
    assert_eq!(McSummaryStyle::default(), McSummaryStyle::ThreeStd);
}

#[test]
fn a_distribution_fails_by_its_tails() {
    let vs: Vec<Real> = [0.4, 0.5, 0.6].iter().map(|&v| dbl(v)).collect();
    let s = spec(Some(0.3), Some(0.7));
    assert!(s.check_mc(&vs, McSummaryStyle::MinMax).is_pass());
    assert!(s.check_mc(&vs, McSummaryStyle::ThreeStd).is_fail());
}

#[test]
fn specs_are_found_by_name() {
    let b = SpecBundle { specs: vec![spec(Some(0.0), None)] };
    assert_eq!(b.find("x").unwrap().min, Some(dbl(0.0)));
    assert!(b.find("y").is_none());
}

#[test]
fn extremes_pass_exactly_where_every_draw_passes() {
    let s = spec(Some(0.3), Some(0.7));
    for draws in [[0.3, 0.5, 0.7], [0.2, 0.5, 0.6], [0.4, 0.8, 0.5], [f64::NAN, 0.5, 0.6], [0.9, f64::NAN, 0.1]] {
        let vs: Vec<Real> = draws.iter().map(|&v| dbl(v)).collect();
        let every = vs.iter().all(|v| s.check(Some(*v)).is_pass());
        assert_eq!(s.check_mc(&vs, McSummaryStyle::MinMax).is_pass(), every);
    }
}
