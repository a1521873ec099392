//! Charts of traces.

use rlx_eda::charts::{
    curves_of, draw_chart, escape_xml, log_ticks, marks_of, nice_ticks, raw_step_of, render_chart_svg, ChartSpec, Marks,
};
use rlx_eda::double::Real;
use rlx_eda::trace::{OptStep, Trace, TraceCfg, TraceRow};

fn dbl(v: f64) -> Real {
    Real { bits: v.to_bits() }
}

fn val(r: Real) -> f64 {
    f64::from_bits(r.bits)
}

struct Synth;

impl OptStep for Synth {
    fn step(&mut self, s: u32) -> TraceRow {
        TraceRow::new(s).with("loss", dbl(1.0 / ((s + 1) as f64))).with("param", dbl(s as f64 * 0.5))
    }
}

fn synth_trace() -> Trace {
    Trace::run(&TraceCfg::new("t", 5), Synth)
}

fn linear(lo: Real, hi: Real) -> Vec<Real> {
    let raw = val(raw_step_of(lo, hi, 6));
    nice_ticks(lo, hi, 6, dbl(10f64.powf(raw.log10().floor())))
}

fn log10(x: Real) -> Real {
    dbl(val(x).log10())
}

fn ten_to(x: Real) -> Real {
    dbl(10f64.powf(val(x)))
}

fn ten_to_whole(e: i32) -> Real {
    dbl(10f64.powi(e))
}

fn marks(spec: &ChartSpec, trace: &Trace) -> Marks {
    marks_of(spec, trace, &log10, &ten_to, &ten_to_whole)
}

fn render(spec: &ChartSpec, trace: &Trace) -> String {
    render_chart_svg(spec, trace, &log10, &ten_to, &ten_to_whole)
}

#[test]
fn line_chart_renders_with_legend_and_log_y() {
    let trace = synth_trace();
    let spec = ChartSpec::line("loss", "Loss", "step", "|loss|")
        .with_y_log(true)
        .add_series("loss", "loss")
        .add_series("param", "param");
    let svg = render(&spec, &trace);
    assert!(svg.starts_with("<svg"));
    assert!(svg.contains("Loss"));
    // A legend comes with more than one series.
    assert!(svg.contains("loss") && svg.contains("param"));
}

#[test]
fn before_after_chart_uses_supplied_arrays() {
    let trace = synth_trace();
    let pts = |v: [(f64, f64); 3]| v.iter().map(|&(x, y)| (dbl(x), dbl(y))).collect::<Vec<_>>();
    let spec = ChartSpec::before_after(
        "spectrum",
        "Spectrum",
        "wavelength",
        "|T|",
        "before",
        pts([(1500.0, 0.1), (1550.0, 0.5), (1600.0, 0.9)]),
        "after",
        pts([(1500.0, 0.9), (1550.0, 0.05), (1600.0, 0.1)]),
    );
    let svg = render(&spec, &trace);
    assert!(svg.contains("before") && svg.contains("after"));
}

#[test]
fn empty_trace_does_not_panic() {
    let trace = Trace::default();
    let spec = ChartSpec::line("e", "Empty", "step", "y").add_series("loss", "loss");
    let svg = render(&spec, &trace);
    assert!(svg.contains("empty"));
}

#[test]
fn ticks_are_round_numbers() {
    let t: Vec<f64> = linear(dbl(0.0), dbl(10.0)).iter().map(|r| val(*r)).collect();
    assert_eq!(t, [0.0, 2.0, 4.0, 6.0, 8.0, 10.0]);
}

#[test]
fn markup_is_escaped() {
    assert_eq!(escape_xml("a<b & \"c\">"), "a&lt;b &amp; &quot;c&quot;&gt;");
}

#[test]
fn any_series_can_be_the_horizontal_axis() {
    let trace = synth_trace();
    let spec = ChartSpec::line("c", "t", "param", "loss").with_x_series("param").add_series("loss", "loss");
    let curves = curves_of(&spec, &trace);
    assert_eq!(curves.len(), 1);
    assert_eq!(curves[0].xs.iter().map(|x| val(*x)).collect::<Vec<_>>(), vec![0.0, 0.5, 1.0, 1.5, 2.0, 2.5]);
    assert!(render(&spec, &trace).contains(">param<"));
}

#[test]
fn marks_belong_to_the_axes() {
    let trace = synth_trace();
    let values = |v: &[Real]| v.iter().map(|r| val(*r)).collect::<Vec<_>>();
    let linear = ChartSpec::line("p", "t", "step", "param").add_series("param", "param");
    let m = marks(&linear, &trace);
    // Five steps over eight ticks are half a step each; the range has a margin of its own.
    assert_eq!(values(&m.x_ticks), [0.0, 0.5, 1.0, 1.5, 2.0, 2.5, 3.0, 3.5, 4.0, 4.5, 5.0]);
    assert_eq!(values(&m.y_ticks), [0.0, 0.5, 1.0, 1.5, 2.0, 2.5]);
    assert!(m.log.is_none());

    let log = ChartSpec::line("l", "t", "step", "loss").with_y_log(true).add_series("loss", "loss");
    let m = marks(&log, &trace);
    assert_eq!(values(&m.y_ticks), [1.0]);
    assert_eq!(render(&log, &trace), draw_chart(&log, &trace, &m));
    let scale = m.log.unwrap();
    assert_eq!(values(&scale.ticks), [0.0]);
    assert_eq!(values(&scale.values[0])[0], 0.0);
    assert_eq!(values(&scale.values[0])[4], 0.2f64.log10());

    let nothing = ChartSpec::line("n", "t", "step", "none").with_y_log(true);
    let m = marks(&nothing, &trace);
    assert!(m.x_ticks.is_empty() && m.y_ticks.is_empty() && m.log.is_none());
}

#[test]
fn decades_are_ticks_of_a_logarithmic_axis() {
    let at = |lo: f64, hi: f64| -> Vec<f64> {
        let ticks = log_ticks(dbl(lo), dbl(hi), dbl(lo.log10()), dbl(hi.log10()), &ten_to_whole);
        ticks.iter().map(|r| val(*r)).collect()
    };
    assert_eq!(at(0.5, 2_000.0), [1.0, 10.0, 100.0, 1_000.0]);
    assert!(at(2.0, 5.0).is_empty());
    assert!(at(-1.0, 5.0).is_empty());
    assert_eq!(at(1e-3, 1.0), [1e-3, 1e-2, 1e-1, 1.0]);
}
