//! Tables of runs.

use rlx_eda::corner::{Corner, CornerKind, View};
use rlx_eda::double::Real;
use rlx_eda::harness::RunOutcome;
use rlx_eda::limits::{SpecCheck, SpecFail};
use rlx_eda::measure::{MeasureLog, MeasurementValue};
use rlx_eda::ordmap::NameMap;
use rlx_eda::sim_csv::{render_csv_per_bucket, render_one_csv};
use rlx_eda::verify::{VerifierResult, VerifyReport};

fn dbl(v: f64) -> Real {
    Real { bits: v.to_bits() }
}

fn synth_outcome(label: &str, kind: CornerKind, view: View, ibn: f64, ok: bool) -> RunOutcome {
    let values = NameMap::new()
        .with("ibn", MeasurementValue::Number(dbl(ibn)))
        .with("vgs_m1", MeasurementValue::Number(dbl(0.62)));
    let corner = Corner {
        kind,
        label: label.into(),
        lib_section: "tt".into(),
        vdd: dbl(1.8),
        temp_c: dbl(27.0),
        seed: None,
        view,
    };
    let spec_check = if ok {
        SpecCheck::Pass { measured: dbl(ibn) }
    } else {
        SpecCheck::Fail { measured: dbl(ibn), reason: SpecFail::AboveMax(dbl(20e-6)) }
    };
    RunOutcome {
        corner,
        deck: "* test\n".into(),
        sha: "abc".into(),
        from_cache: false,
        stdout: "".into(),
        measures: MeasureLog { values },
        has_waveform: false,
        spec_checks: vec![("ibn".into(), spec_check)],
        verify: VerifyReport::empty(),
        ran_at: dbl(1_700_000_000.0),
    }
}

#[test]
fn csv_header_matches_cicsim_shape() {
    let outcomes = vec![synth_outcome("typical", CornerKind::Typical, View::Layout, 21.76e-6, true)];
    let refs: Vec<&RunOutcome> = outcomes.iter().collect();
    let csv = render_one_csv(&refs);
    let first = csv.lines().next().unwrap();
    assert_eq!(first, ",ibn,vgs_m1,drc,lvs,em,name,type,time,OK");
}

#[test]
fn csv_verify_columns_dash_when_no_verifier_ran() {
    let outcomes = vec![synth_outcome("typical", CornerKind::Typical, View::Layout, 21.76e-6, true)];
    let refs: Vec<&RunOutcome> = outcomes.iter().collect();
    let csv = render_one_csv(&refs);
    let row = csv.lines().nth(1).unwrap();
    assert!(row.contains(",-,-,-,typical,"), "row = {row}");
}

#[test]
fn dirty_verify_flips_ok_to_false_in_csv() {
    let mut o = synth_outcome("lay", CornerKind::Typical, View::Layout, 21.76e-6, true);
    o.verify = VerifyReport::empty()
        .set_drc(VerifierResult::clean())
        .set_em(VerifierResult::from_count(2, "MET1.W"));
    let refs = vec![&o];
    let csv = render_one_csv(&refs);
    let row = csv.lines().nth(1).unwrap();
    assert!(row.contains(",0,-,2,"), "verify counts wrong: {row}");
    // Measurements are clean, a verifier is not.
    assert!(row.ends_with(",False"), "OK should flip to False when verify dirty: {row}");
}

#[test]
fn csv_row_carries_values_and_pass_boolean() {
    let outcomes = vec![synth_outcome("typical", CornerKind::Typical, View::Layout, 21.76e-6, true)];
    let refs: Vec<&RunOutcome> = outcomes.iter().collect();
    let csv = render_one_csv(&refs);
    let row = csv.lines().nth(1).unwrap();
    assert!(row.starts_with("0,"), "row should start with index 0: {row}");
    assert!(row.contains(",typical,"));
    assert!(row.contains(",Lay,"));
    assert!(row.ends_with(",True"));
}

#[test]
fn csv_row_marks_fail_as_false() {
    let outcomes = vec![synth_outcome("ss", CornerKind::Etc, View::Schematic, 30e-6, false)];
    let refs: Vec<&RunOutcome> = outcomes.iter().collect();
    let csv = render_one_csv(&refs);
    let row = csv.lines().nth(1).unwrap();
    assert!(row.ends_with(",False"));
    assert!(row.contains(",Sch,"));
}

#[test]
fn csv_buckets_split_by_view_and_kind() {
    let outcomes = vec![
        synth_outcome("typical", CornerKind::Typical, View::Schematic, 21.76e-6, true),
        synth_outcome("typical", CornerKind::Typical, View::Layout, 21.59e-6, true),
        synth_outcome("ff", CornerKind::Etc, View::Schematic, 22.77e-6, true),
        synth_outcome("mc_000", CornerKind::Mc, View::Schematic, 23.10e-6, true),
        synth_outcome("mc_001", CornerKind::Mc, View::Schematic, 24.50e-6, true),
    ];
    let written = render_csv_per_bucket("lelo_ex", &outcomes, "/t/out");
    let names: Vec<&str> = written.iter().map(|f| f.path.rsplit('/').next().unwrap()).collect();
    for required in [
        "lelo_ex_Sch_typical.csv",
        "lelo_ex_Lay_typical.csv",
        "lelo_ex_Sch_etc.csv",
        "lelo_ex_Sch_mc.csv",
    ] {
        assert!(
            names.iter().any(|n| *n == required),
            "missing {required} in CSV bucket output: {names:?}"
        );
    }
    let mc_csv = &written.iter().find(|f| f.path == "/t/out/lelo_ex_Sch_mc.csv").unwrap().content;
    assert_eq!(mc_csv.lines().count(), 3, "mc bucket should have header + 2 rows");
}
