//! Tolerances, gradients and traces against each other.

use rlx_eda::double::Real;
use rlx_eda::ordmap::NameMap;
use rlx_eda::single::Single;
use rlx_eda::triangulate::{compare_dc_voltages, compare_transient_traces, LayoutVsBehavioralReport};
use rlx_eda::validate::{
    central_difference, close_fault, gradcheck_scalar, is_close, lerp, traces_close, traces_fault,
};

fn dbl(v: f64) -> Real {
    Real { bits: v.to_bits() }
}

fn flt(v: f32) -> Single {
    Single { bits: v.to_bits() }
}

fn val(s: Single) -> f32 {
    f32::from_bits(s.bits)
}

fn reals(v: &[f64]) -> Vec<Real> {
    v.iter().map(|&x| dbl(x)).collect()
}

fn map(v: &[(&str, f64)]) -> NameMap<Real> {
    let mut m = NameMap::new();
    for (k, x) in v {
        m.set(k, dbl(*x));
    }
    m
}

#[test]
fn close_within_tolerance() {
    assert!(is_close(flt(1.0), flt(1.0 + 1e-6), flt(1e-5), flt(0.0)));
    assert!(!is_close(flt(1.0), flt(1.1), flt(1e-5), flt(0.0)));
    let m = close_fault(flt(1.0), flt(1.5), flt(0.0), flt(0.25), "x").unwrap();
    assert_eq!(
        m,
        "[x] not close:\n  a    = 1.000000000e0\n  b    = 1.500000000e0\n  |a-b|= 5.000e-1  (envelope = 2.500e-1)"
    );
}

#[test]
fn fd_quadratic() {
    // The slope of x² at 2 is 4.
    let g = central_difference(|x: Single| x.mul(x), flt(2.0), flt(1e-3));
    assert!(close_fault(g, flt(4.0), flt(1e-4), flt(0.0), "central_difference quadratic").is_none());
}

#[test]
fn gradcheck_linear_ok() {
    let mut fwd = |p: &[Single]| flt(3.0 * val(p[0]) + 5.0 * val(p[1]));
    gradcheck_scalar(
        &mut fwd,
        &[flt(0.7), flt(-0.2)],
        &[flt(3.0), flt(5.0)],
        flt(1e-3),
        flt(1e-4),
        flt(1e-6),
    )
    .unwrap();
}

#[test]
fn gradcheck_linear_detects_wrong_grad() {
    let mut fwd = |p: &[Single]| flt(3.0 * val(p[0]) + 5.0 * val(p[1]));
    let bad = gradcheck_scalar(
        &mut fwd,
        &[flt(0.7), flt(-0.2)],
        &[flt(3.0), flt(4.0)],
        flt(1e-3),
        flt(1e-4),
        flt(1e-6),
    );
    assert!(bad.is_err());
    assert!(bad.unwrap_err().starts_with("gradcheck mismatch at param[1]:\n  AD = 4.000000000e0\n"));
}

#[test]
fn lerp_endpoints_and_midpoint() {
    let xs = reals(&[0.0, 1.0, 2.0]);
    let ys = reals(&[10.0, 20.0, 25.0]);
    let at = |x: f64| lerp(&xs, &ys, dbl(x));
    assert!(ys.contains(&at(f64::NAN)));
    assert_eq!(at(-1.0), dbl(10.0)); // clamp low
    assert_eq!(at(3.0), dbl(25.0)); // clamp high
    assert_eq!(at(0.5), dbl(15.0)); // interior
    assert_eq!(at(1.5), dbl(22.5)); // interior
    assert_eq!(at(1.0), dbl(20.0)); // exact knot
}

#[test]
fn traces_match_on_shifted_grid() {
    let t_a: Vec<f64> = (0..=10).map(|i| i as f64 * 0.1).collect();
    let y_a: Vec<f64> = t_a.iter().map(|t| 2.0 * t).collect();
    let t_b: Vec<f64> = (0..=20).map(|i| i as f64 * 0.05 + 1e-9).collect();
    let y_b: Vec<f64> = t_b.iter().map(|t| 2.0 * t).collect();
    traces_close(&reals(&t_a), &reals(&y_a), &reals(&t_b), &reals(&y_b), dbl(1e-9), dbl(1e-9)).unwrap();
}

#[test]
fn traces_detect_mismatch() {
    let t_a = reals(&[0.0, 1.0, 2.0]);
    let y_a = reals(&[0.0, 1.0, 2.0]);
    let t_b = reals(&[0.0, 1.0, 2.0]);
    let y_b = reals(&[0.0, 1.0, 3.0]); // last point off
    let res = traces_close(&t_a, &y_a, &t_b, &y_b, dbl(1e-6), dbl(1e-6));
    assert!(res.is_err());
    assert_eq!(res.unwrap_err(), (2, dbl(2.0), dbl(2.0), dbl(3.0)));
    let m = traces_fault(&t_a, &y_a, &t_b, &y_b, dbl(0.0), dbl(0.5), "t").unwrap();
    assert_eq!(
        m,
        "[t] traces diverge at idx 2, t=+2.000000e0:\n  a   = +2.000000000e0\n  b@t = +3.000000000e0\n  |a-b| = 1.000e0  (envelope = 5.000e-1)"
    );
}

#[test]
fn dc_diff_report_finds_worst() {
    let a = map(&[("vout", 0.5), ("mid", 0.25)]);
    let b = map(&[("vout", 0.500_001), ("mid", 0.255)]);
    let r = compare_dc_voltages(&a, &b);
    assert_eq!(r.per_node.len(), 2);
    assert_eq!(r.worst.as_ref().unwrap().0, "mid");
    assert!((f64::from_bits(r.worst.as_ref().unwrap().1.bits) - 0.005).abs() < 1e-9);
}

#[test]
#[should_panic(expected = "DC mismatch")]
fn dc_diff_panics_on_envelope_breach() {
    let r = compare_dc_voltages(&map(&[("v", 1.0)]), &map(&[("v", 1.5)]));
    if let Some(m) = r.breach(dbl(1e-6), dbl(1e-3), "test") {
        panic!("{m}");
    }
}

#[test]
fn dc_diff_passes_within_envelope() {
    let r = compare_dc_voltages(&map(&[("v", 1.0)]), &map(&[("v", 1.000_001)]));
    assert!(r.breach(dbl(1e-3), dbl(1e-5), "test").is_none());
}

#[test]
fn breaches_name_their_node() {
    let r = compare_dc_voltages(&map(&[("v", 1.0)]), &map(&[("v", 1.5)]));
    assert_eq!(
        r.breach(dbl(0.0), dbl(0.25), "test").unwrap(),
        "[test] DC mismatch at node \"v\":\n  a = +1.000000000e0\n  b = +1.500000000e0\n  |a-b| = 5.000e-1  (envelope = 2.500e-1)\n  rms across nodes = 5.000e-1"
    );
}

#[test]
fn layout_vs_behavioral_passes_within_envelope() {
    let r = LayoutVsBehavioralReport::dc(&map(&[("vout", 0.749_999_5)]), &map(&[("vout", 0.750_000_0)]));
    assert!(r.breach(dbl(1e-5), dbl(1e-6), "divider").is_none());
    assert_eq!(r.worst().unwrap().0, "vout");
}

#[test]
#[should_panic(expected = "layout-vs-behavioral mismatch")]
fn layout_vs_behavioral_panics_on_envelope_breach() {
    let r = LayoutVsBehavioralReport::dc(&map(&[("vout", 0.0)]), &map(&[("vout", 0.75)]));
    if let Some(m) = r.breach(dbl(1e-3), dbl(1e-3), "divider-with-missing-wire") {
        panic!("{m}");
    }
}

#[test]
fn transient_diff_handles_different_grids() {
    let t_a: Vec<f64> = (0..=10).map(|i| i as f64 * 0.1).collect();
    let y_a: Vec<f64> = t_a.iter().map(|t| 2.0 * t).collect();
    let t_b: Vec<f64> = (0..=20).map(|i| i as f64 * 0.05).collect();
    let y_b: Vec<f64> = t_b.iter().map(|t| 2.0 * t).collect();
    let am = NameMap::new().with("y", reals(&y_a));
    let bm = NameMap::new().with("y", reals(&y_b));
    let r = compare_transient_traces(&reals(&t_a), &am, &reals(&t_b), &bm);
    let (max_abs, _rms) = r.per_node.get("y").unwrap();
    assert!(f64::from_bits(max_abs.bits) < 1e-12);
    assert!(r.breach(dbl(0.0), dbl(1e-9), dbl(2.0), "t").is_none());
    assert!(r.breach(dbl(-1.0), dbl(0.0), dbl(2.0), "t").unwrap().contains("transient mismatch"));
}

#[test]
fn functions_may_count_their_calls() {
    let mut calls = 0;
    let mut fwd = |p: &[Single]| {
        calls += 1;
        p[0].mul(p[0])
    };
    gradcheck_scalar(&mut fwd, &[flt(1.5)], &[flt(3.0)], flt(1e-3), flt(1e-2), flt(0.0)).unwrap();
    assert_eq!(calls, 2);
    let mut calls = 0;
    central_difference(
        |x: Single| {
            calls += 1;
            x
        },
        flt(2.0),
        flt(1e-3),
    );
    assert_eq!(calls, 2);
}
