//! Traces of runs.

use rlx_eda::double::Real;
use rlx_eda::trace::{LogSchedule, Trace, TraceCfg, TraceRow};

fn dbl(v: f64) -> Real {
    Real { bits: v.to_bits() }
}

#[test]
fn closure_optstep_records_rows() {
    let cfg = TraceCfg::new("test", 5);
    let trace = Trace::run(
        &cfg,
        |step: u32| {
            TraceRow::new(step)
                .with("loss", dbl((step as f64 + 1.0).recip()))
                .with("param", dbl(step as f64 * 0.5))
        },
    );
    assert_eq!(trace.rows.len(), 6);
    assert!(trace.series_order.contains(&"loss".to_string()));
    assert!(trace.series_order.contains(&"param".to_string()));
    assert_eq!(trace.rows[0].step, 0);
    assert_eq!(trace.rows[5].step, 5);
}

#[test]
fn log_schedule_keeps_first_last_powers_of_two() {
    let cfg = TraceCfg::new("log", 100).with_log_schedule(LogSchedule::Logarithmic);
    let trace = Trace::run(&cfg, |s: u32| TraceRow::new(s).with("x", dbl(s as f64)));
    let steps: Vec<u32> = trace.rows.iter().map(|r| r.step).collect();
    assert!(steps.contains(&0));
    assert!(steps.contains(&100));
    assert!(steps.contains(&1));
    assert!(steps.contains(&64));
    assert!(!steps.contains(&3)); // not a power of two
}

#[test]
fn csv_round_trip_has_step_first_then_series_order() {
    let cfg = TraceCfg::new("csv", 1);
    let trace =
        Trace::run(&cfg, |s: u32| TraceRow::new(s).with("loss", dbl(1.0)).with("param", dbl(2.0)));
    let csv = trace.to_csv();
    let header = csv.lines().next().unwrap();
    assert!(header.starts_with("step,"));
    // Names are kept in order.
    assert_eq!(header, "step,loss,param");
    assert_eq!(csv.lines().count(), 3);
}

#[test]
fn series_are_read_by_name() {
    let cfg = TraceCfg::new("s", 2);
    let trace = Trace::run(&cfg, |s: u32| TraceRow::new(s).with("x", dbl(s as f64 * 2.0)));
    assert_eq!(
        trace.series("x"),
        vec![(dbl(0.0), dbl(0.0)), (dbl(1.0), dbl(2.0)), (dbl(2.0), dbl(4.0))]
    );
    assert_eq!(trace.rows[1].get("missing"), dbl(0.0));
}

#[test]
fn many_series_share_the_steps() {
    let trace = Trace::run(&TraceCfg::new("many", 2), |s: u32| TraceRow::new(s).with("a", dbl(s as f64 * 2.0)));
    let (xs, ys) = trace.series_many(&vec!["a", "absent"]);
    assert_eq!(xs.iter().map(|r| f64::from_bits(r.bits)).collect::<Vec<_>>(), vec![0.0, 1.0, 2.0]);
    assert_eq!(ys.len(), 2);
    assert_eq!(ys[0].0, "a");
    assert_eq!(ys[0].1.iter().map(|r| f64::from_bits(r.bits)).collect::<Vec<_>>(), vec![0.0, 2.0, 4.0]);
    assert_eq!(ys[1].1.iter().map(|r| f64::from_bits(r.bits)).collect::<Vec<_>>(), vec![0.0, 0.0, 0.0]);
}

#[test]
fn functions_run_for_every_step() {
    let cfg = TraceCfg::new("csv", 1);
    let row = |s: u32| TraceRow::new(s).with("loss", dbl(1.0)).with("param", dbl(2.0));
    let want = "step,loss,param\n0,1.000000,2.000000\n1,1.000000,2.000000\n";
    assert_eq!(Trace::run_fn(&cfg, row).to_csv(), want);
    assert_eq!(Trace::run(&cfg, row).to_csv(), want);
}
