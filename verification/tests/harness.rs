//! A testbench from its deck to its verdicts.

use rlx_eda::cache::{Cache, CacheMode};
use rlx_eda::corner::{Corner, CornerKind, CornerSet, View};
use rlx_eda::double::Real;
use rlx_eda::harness::{
    collect_lib_paths, extract_first_ngspice_error, inject_write, is_user_signal, ngspice_failed,
    select_signals, Analysis, Harness, RunOutcome, Testbench,
};
use rlx_eda::limits::{Spec, SpecBundle, SpecCheck};
use rlx_eda::measure::Measurement;
use rlx_eda::reporter::{docs_dir_for_crate, Document, Reporter};
use rlx_eda::spice::Netlist;

fn dbl(v: f64) -> Real {
    Real { bits: v.to_bits() }
}

struct RcTb;

impl Testbench for RcTb {
    fn name(&self) -> &str {
        "rc_step"
    }

    fn build_netlist(&self, corner: &Corner) -> Netlist {
        let mut nl = Netlist::new("rc step response");
        let vdd = f64::from_bits(corner.vdd.bits);
        nl.add_element(&format!("Vin in 0 PULSE(0 {vdd:.6e} 0 1e-12 1e-12 1 1e30)"));
        nl.add_element("R1 in out 1k");
        nl.add_element("C1 out 0 1n");
        nl.add_element(".ic v(out)=0");
        nl
    }

    fn measurements(&self) -> Vec<Measurement> {
        vec![
            Measurement::tran("vout_settled", "find v(out) at=5u", Some("V")),
            Measurement::tran("vout_peak", "max v(out) from=0 to=5u", Some("V")),
        ]
    }

    fn analysis(&self) -> Analysis {
        Analysis::Tran { t_step: dbl(50e-9), t_stop: dbl(5e-6), uic: true }
    }
}

fn specs() -> SpecBundle {
    SpecBundle {
        specs: vec![
            Spec {
                name: "vout_settled".into(),
                min: Some(dbl(0.95)),
                typ: Some(dbl(0.993)),
                max: Some(dbl(1.30)),
                unit: Some("V".into()),
            },
            Spec {
                name: "vout_peak".into(),
                min: Some(dbl(0.95)),
                typ: None,
                max: Some(dbl(1.30)),
                unit: Some("V".into()),
            },
        ],
    }
}

/// What the simulator prints for the step response.
const STDOUT: &str = "vout_settled        =  9.932621e-01\nvout_peak           =  9.932621e-01 at=  5.000000e-06\n";

#[test]
fn rc_step_runs_and_reports_pass() {
    let corners = CornerSet::new()
        .push(Corner::typical("tt", dbl(1.0)))
        .push(Corner::etc("hot", "tt", dbl(1.0), dbl(85.0)));
    let tb = RcTb;
    let h = Harness::new(&tb)
        .corners(corners)
        .specs(specs())
        .cache(Cache::new("/t/cache", CacheMode::Auto))
        .output_dir("/t/results".into());
    assert!(h.needs_simulator());

    let mut outcomes = Vec::new();
    for c in &h.corners {
        let run = h.prepare(c);
        assert!(run.deck.contains("meas tran vout_settled find v(out) at=5u"), "{}", run.deck);
        let sha = Cache::compute_sha(&run.deck, &Vec::new());
        assert!(!h.cache.can_reuse(false), "first run should not be cached");
        assert!(h.cache.can_reuse(true), "second run should hit cache for {}", c.label);
        let (measures, spec_checks, verify) = h.assess(c, &run, STDOUT);
        let v = measures.get("vout_settled").and_then(|v| v.as_number()).unwrap();
        assert!((0.95..1.05).contains(&f64::from_bits(v.bits)));
        for (_, c) in &spec_checks {
            assert!(matches!(c, SpecCheck::Pass { .. }), "spec failed unexpectedly: {c:?}");
        }
        outcomes.push(RunOutcome {
            corner: c.duplicate(),
            deck: run.deck,
            sha,
            from_cache: false,
            stdout: STDOUT.into(),
            measures,
            has_waveform: true,
            spec_checks,
            verify,
            ran_at: dbl(0.0),
        });
    }
    assert_eq!(outcomes.len(), 2);
    assert!(outcomes.iter().all(|o| o.ok()));

    let bundle = specs();
    let written = Reporter::new("rc_step", &bundle, &outcomes, "/t/results").write_all();
    let path = |d: &Document| match d {
        Document::Text { path, .. } => path.clone(),
        Document::Plot { path, .. } => path.clone(),
        Document::Pdf { path } => path.clone(),
    };
    let paths: Vec<String> = written.iter().map(path).collect();
    assert!(paths.iter().any(|p| p.ends_with("/README.md")));
    assert!(paths.iter().any(|p| p.ends_with("/rc_step_summary.html")));
    assert!(paths.iter().any(|p| p.ends_with("typical.html")));
    // Transients are plotted.
    assert!(paths.iter().any(|p| p.ends_with(".png")), "expected at least one PNG in {paths:?}");
}

#[test]
fn write_is_put_before_the_end_of_control() {
    let tran = Analysis::Tran { t_step: dbl(1e-9), t_stop: dbl(1e-6), uic: false };
    assert_eq!(inject_write(".control\nrun\n.endc\n", &tran, "/t/a.raw"), ".control\nrun\nwrite /t/a.raw all\n.endc\n");
    assert_eq!(inject_write(".control\n.endc\n", &Analysis::Op, "/t/a.raw"), ".control\n.endc\n");
}

#[test]
fn libraries_are_collected_from_the_preamble() {
    let mut nl = Netlist::new("t");
    nl.add_preamble(".lib \"/pdk/sky130.lib.spice\" tt");
    nl.add_preamble(".include /pdk/extra.spice");
    nl.add_preamble(".option scale=1e-6");
    assert_eq!(collect_lib_paths(&nl), vec!["/pdk/sky130.lib.spice", "/pdk/extra.spice"]);
}

#[test]
fn failures_name_their_first_error() {
    let stderr = "Note: nothing\nError on line 3: unknown device\nError: second\n";
    assert_eq!(extract_first_ngspice_error(stderr).as_deref(), Some("Error on line 3: unknown device"));
    assert_eq!(
        extract_first_ngspice_error("Note: nothing\n  doAnalyses: Error: timestep too small \n").as_deref(),
        Some("doAnalyses: Error: timestep too small")
    );
    assert_eq!(extract_first_ngspice_error("no errors here\n\n"), None);
    let e = ngspice_failed(Some(1), stderr.to_string());
    assert_eq!(
        e.message(),
        "ngspice exited Some(1)\n  → Error on line 3: unknown device\n  full stderr (3 lines suppressed; set RLX_EDA_VERBOSE=1)"
    );
    assert_eq!(
        ngspice_failed(None, String::new()).message(),
        "ngspice exited None\n  full stderr (0 lines suppressed; set RLX_EDA_VERBOSE=1)"
    );
}

#[test]
fn internal_signals_are_left_out() {
    assert!(is_user_signal("v(out)"));
    assert!(!is_user_signal("v(m1#gate)"));
    let names: Vec<String> = ["time", "v(out)", "v(xa.b)", "meas1"].iter().map(|s| s.to_string()).collect();
    let kept = select_signals(&names, &vec![10, 10, 10, 1], &vec!["v(xa.b)".to_string()]);
    assert!(kept.contains(&1));
    assert!(kept.contains(&2));
    assert!(!kept.contains(&3));
}

#[test]
fn signals_come_in_the_order_of_their_names() {
    let names: Vec<String> =
        ["time", "v(out)", "i(vdd)", "v(in)", "v(out)", "V(a)"].iter().map(|s| s.to_string()).collect();
    // Each name once, and the one read last stays.
    assert_eq!(select_signals(&names, &vec![4; 6], &vec![]), [5, 2, 3, 4]);
    assert_eq!(select_signals(&names, &vec![4, 4, 4, 4, 3, 4], &vec![]), [5, 2, 3, 1]);
    assert!(select_signals(&vec![], &vec![], &vec![]).is_empty());
}

#[test]
fn a_harness_starts_without_a_cache() {
    let h = Harness::new(&RcTb);
    assert_eq!(h.cache.mode, CacheMode::Off);
    assert_eq!(h.cache.dir, ".");
    assert_eq!(h.output_dir, "results");
}

#[test]
fn corners_come_as_a_typical_set_and_draws() {
    let set = CornerSet::typical_etc_mc("tt", "ff", "ss", "fs", "sf", "mc", dbl(1.8), 2, 7);
    let labels: Vec<&str> = set.corners.iter().map(|c| c.label.as_str()).collect();
    assert_eq!(labels, ["typical", "ff_hot", "ss_cold", "fs_hot", "sf_cold", "mc_000", "mc_001"]);
    assert_eq!(set.corners[1].vdd, dbl(1.8 * 1.10));
    assert_eq!(set.corners[2].temp_c, dbl(-40.0));
    assert_eq!(set.corners[6].seed, Some(8));
    assert_eq!(set.corners[5].kind, CornerKind::Mc);
    let both = CornerSet::typical_only("tt", dbl(1.8)).expand_views();
    let views: Vec<View> = both.corners.iter().map(|c| c.view).collect();
    assert_eq!(views.len(), 2);
    assert_ne!(views[0], views[1]);
}

#[test]
fn documents_go_under_the_crate() {
    assert_eq!(docs_dir_for_crate("/w/crates/eda-x"), "/w/crates/eda-x/docs");
}

#[test]
fn noise_in_front_of_an_error_is_passed_over() {
    let e = "  Error: no such vector\r\nfatal error\n";
    for noise in ["", "\n", "Note: a\r", "Warning: b\n\n  c", "run\r\n"] {
        assert_eq!(extract_first_ngspice_error(noise), None);
        assert_eq!(
            extract_first_ngspice_error(&format!("{noise}\n{e}")).as_deref(),
            Some("Error: no such vector")
        );
        assert_eq!(extract_first_ngspice_error(&format!("{noise}\nquiet")), None);
    }
}
