//! Decks, sources and model cards.

use rlx_eda::double::Real;
use rlx_eda::primitives::R;
use rlx_eda::spice::{EmitError, Netlist, Pulse, Pwl, SourceWaveform, SpiceEmit};

fn dbl(v: f64) -> Real {
    Real { bits: v.to_bits() }
}

fn resistor(ohms: f64) -> R {
    R { ohms: dbl(ohms) }
}

#[test]
fn deck_has_title_preamble_body_no_end() {
    let mut n = Netlist::new("divider");
    n.add_preamble(".include models.lib");
    resistor(10e3).emit_spice(&mut n, &["in", "mid"], "1").unwrap();
    resistor(30e3).emit_spice(&mut n, &["mid", "0"], "2").unwrap();
    let d = n.deck();
    assert!(d.starts_with("* divider\n"));
    assert!(d.contains(".include models.lib"));
    assert!(d.contains("R1 in mid"));
    assert!(d.contains("R2 mid 0"));
    assert!(!d.contains(".end"));
}

#[test]
fn arity_mismatch_errors() {
    let mut n = Netlist::new("t");
    let r = resistor(1.0);
    let err = r.emit_spice(&mut n, &["a"], "1").unwrap_err();
    match err {
        EmitError::ArityMismatch { expected: 2, got: 1, .. } => {}
        other => panic!("wrong err: {other:?}"),
    }
}

#[test]
fn pulse_source_format_matches_spice() {
    let mut n = Netlist::new("t");
    n.add_pulse_source("clk", "clk", "0", &Pulse::clock(dbl(1.0), dbl(1e-6)));
    let line = n.body.last().unwrap();
    assert!(line.starts_with("Vclk clk 0 PULSE("));
    // The period is the seventh argument.
    assert!(line.contains("1.0000000000e-6"));
}

#[test]
fn waveform_dc_dispatches_to_dc_source() {
    let mut n = Netlist::new("t");
    n.add_waveform_source("vdd", "vdd", "0", &SourceWaveform::Dc(dbl(1.8)));
    let line = n.body.last().unwrap();
    assert!(line.starts_with("Vvdd vdd 0 DC "), "got {line}");
    assert!(line.contains("1.8"));
}

#[test]
fn waveform_pulse_dispatches_to_pulse_source() {
    let mut n = Netlist::new("t");
    let w = SourceWaveform::pulse(
        dbl(0.0), dbl(1.0), dbl(1e-9), dbl(100e-12), dbl(100e-12), dbl(5e-9), dbl(10e-9),
    );
    n.add_waveform_source("in", "in", "0", &w);
    let line = n.body.last().unwrap();
    assert!(line.starts_with("Vin in 0 PULSE("), "got {line}");
}

#[test]
fn waveform_pulse_with_zero_period_emits_huge_period() {
    // A pulse that does not repeat is given a period that no run reaches.
    let mut n = Netlist::new("t");
    let w = SourceWaveform::pulse(
        dbl(0.0), dbl(1.0), dbl(0.0), dbl(0.0), dbl(0.0), dbl(1e-9), dbl(0.0),
    );
    n.add_waveform_source("in", "in", "0", &w);
    let line = n.body.last().unwrap();
    assert!(line.contains("1.0000000000e30"), "expected huge period, got {line}");
}

#[test]
fn waveform_sine_dispatches_to_sine_source() {
    let mut n = Netlist::new("t");
    n.add_waveform_source(
        "in", "in", "0",
        &SourceWaveform::sine(dbl(0.0), dbl(1.0), dbl(1e3), dbl(0.0)),
    );
    let line = n.body.last().unwrap();
    assert!(line.starts_with("Vin in 0 SIN("), "got {line}");
}

#[test]
fn model_dedup() {
    let mut n = Netlist::new("t");
    n.add_model(".model Dgen D(Is=1e-15)");
    n.add_model(".model Dgen D(Is=1e-15)");
    n.add_model(".model Dother D(Is=2e-15)");
    assert_eq!(n.models.len(), 2);
}

#[test]
fn piecewise_sources_list_their_points() {
    let mut n = Netlist::new("t");
    n.add_pwl_source("in", "a", "0", &Pwl { points: vec![(dbl(0.0), dbl(0.0)), (dbl(1e-9), dbl(1.8))] });
    let line = n.body.last().unwrap();
    assert!(line.starts_with("Vin a 0 PWL("), "got {line}");
    assert!(line.contains("1.8000000000e0"), "got {line}");
}
