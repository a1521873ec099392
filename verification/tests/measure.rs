//! Measurements: the lines that ask for them and the log that answers.

use rlx_eda::double::Real;
use rlx_eda::measure::{value_of_lowered, MeasureLog, Measurement, MeasurementValue};

fn dbl(v: f64) -> Real {
    Real { bits: v.to_bits() }
}

fn number(v: f64) -> Option<MeasurementValue> {
    Some(MeasurementValue::Number(dbl(v)))
}

fn meas(name: &str) -> Measurement {
    Measurement::tran(name, "find v(x) at=1n", None)
}

#[test]
fn parses_numeric_meas_line() {
    let s = "ibn                =  4.987654e-06\nbye\n";
    let log = MeasureLog::parse(s, &vec![meas("ibn")]);
    assert_eq!(log.get("ibn"), number(4.987654e-6));
}

#[test]
fn parses_multiple_lines() {
    let s = "ibn       = 5.0e-6\nvgs_m1   =  6.2e-1\n";
    let log = MeasureLog::parse(s, &vec![meas("ibn"), meas("vgs_m1")]);
    assert_eq!(log.get("ibn"), number(5e-6));
    assert_eq!(log.get("vgs_m1"), number(0.62));
}

#[test]
fn marks_missing_as_failed() {
    let log = MeasureLog::parse("nothing here", &vec![meas("ibn")]);
    assert_eq!(log.get("ibn"), Some(MeasurementValue::Failed));
}

#[test]
fn marks_failed_keyword_as_failed() {
    let log = MeasureLog::parse("ibn = failed\n", &vec![meas("ibn")]);
    assert_eq!(log.get("ibn"), Some(MeasurementValue::Failed));
}

#[test]
fn supply_current_emits_avg_directive_with_a_unit() {
    let m = Measurement::supply_current("i_vdd", "vdd");
    assert_eq!(m.unit.as_deref(), Some("A"));
    assert_eq!(m.to_meas_line("tran"), "meas tran i_vdd avg i(vvdd)");
}

#[test]
fn supply_charge_emits_integ_directive_with_c_unit() {
    let m = Measurement::supply_charge("q_vdd", "vdd");
    assert_eq!(m.unit.as_deref(), Some("C"));
    assert!(m.to_meas_line("tran").contains("integ i(vvdd)"));
}

#[test]
fn power_from_const_supply_multiplies_avg_current_by_vdd() {
    let s = "i_vdd              = -1.000000e-03\n";
    let m = Measurement::supply_current("i_vdd", "vdd");
    let log = MeasureLog::parse(s, &vec![m]);
    let (name, watts) =
        Measurement::power_from_const_supply(&log, "i_vdd", "p_vdd", dbl(1.8)).unwrap();
    assert_eq!(name, "p_vdd");
    // 1 mA times 1.8 V; the sign of the current is dropped.
    let watts = f64::from_bits(watts.bits);
    assert!((watts - 1.8e-3).abs() < 1e-9, "got {watts}");
}

#[test]
fn anchors_on_word_boundary() {
    // "vgs" should not match "vgs_m1".
    let s = "vgs_m1 = 0.62\nvgs    = 0.5\n";
    let log = MeasureLog::parse(s, &vec![meas("vgs")]);
    assert_eq!(log.get("vgs"), number(0.5));
}

#[test]
fn lines_are_read_in_any_case() {
    assert_eq!(value_of_lowered("IBN = 5e-6 at=1", "ibn = 5e-6 at=1", "ibn"), number(5e-6));
    assert_eq!(value_of_lowered("IBN = FAILED", "ibn = failed", "ibn"), Some(MeasurementValue::Failed));
    assert_eq!(value_of_lowered("ibn2 = 1", "ibn2 = 1", "ibn"), None);
    assert_eq!(value_of_lowered("ibn = x", "ibn = x", "ibn"), None);
    let log = MeasureLog::parse("  VOUT_Peak=2.5\n", &vec![meas("Vout_peak")]);
    assert_eq!(log.get("Vout_peak"), number(2.5));
}
