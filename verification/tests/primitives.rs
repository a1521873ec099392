//! Devices as lines of a deck.

use rlx_eda::double::Real;
use rlx_eda::primitives::{MosL1Params, Nmos, Pmos, C, D, R};
use rlx_eda::spice::{EmitError, Netlist, SpiceEmit};

fn dbl(v: f64) -> Real {
    Real { bits: v.to_bits() }
}

#[test]
fn r_emits_simple_line() {
    let mut n = Netlist::new("t");
    R { ohms: dbl(1.5e3) }.emit_spice(&mut n, &["a", "b"], "1").unwrap();
    assert_eq!(n.body[0], "R1 a b 1.5000000000e3");
}

#[test]
fn c_emits_simple_line() {
    let mut n = Netlist::new("t");
    C { farads: dbl(1e-12) }.emit_spice(&mut n, &["a", "0"], "load").unwrap();
    assert!(n.body[0].starts_with("Cload a 0"));
}

#[test]
fn d_emits_model_and_instance() {
    let mut n = Netlist::new("t");
    D { is_amps: dbl(1e-15) }.emit_spice(&mut n, &["anode", "cathode"], "1").unwrap();
    assert_eq!(n.models.len(), 1);
    assert!(n.models[0].starts_with(".model Drlx_Is"));
    assert!(n.body[0].starts_with("D1 anode cathode Drlx_Is"));
}

#[test]
fn d_dedupes_identical_models() {
    let mut n = Netlist::new("t");
    D { is_amps: dbl(1e-15) }.emit_spice(&mut n, &["a1", "k1"], "1").unwrap();
    D { is_amps: dbl(1e-15) }.emit_spice(&mut n, &["a2", "k2"], "2").unwrap();
    assert_eq!(n.models.len(), 1, "same Is → one model card");
    assert_eq!(n.body.len(), 2, "but two device instances");
}

#[test]
fn d_distinct_is_distinct_models() {
    let mut n = Netlist::new("t");
    D { is_amps: dbl(1e-15) }.emit_spice(&mut n, &["a1", "k1"], "1").unwrap();
    D { is_amps: dbl(2e-15) }.emit_spice(&mut n, &["a2", "k2"], "2").unwrap();
    assert_eq!(n.models.len(), 2);
}

#[test]
fn nmos_emits_model_and_element() {
    let mut n = Netlist::new("t");
    Nmos::default()
        .emit_spice(&mut n, &["d", "g", "s", "b"], "1")
        .unwrap();
    assert_eq!(n.models.len(), 1);
    assert!(n.models[0].contains("NMOS(LEVEL=1"));
    assert!(n.models[0].contains("VTO=0.500000"));
    assert!(n.body[0].starts_with("M1 d g s b "));
    assert!(n.body[0].contains("W="));
    assert!(n.body[0].contains("L="));
}

#[test]
fn pmos_uses_pmos_card() {
    let mut n = Netlist::new("t");
    Pmos::default()
        .emit_spice(&mut n, &["d", "g", "s", "b"], "p1")
        .unwrap();
    assert!(n.models[0].contains("PMOS(LEVEL=1"));
    assert!(n.models[0].contains("VTO=-0.500000"));
    assert!(n.body[0].starts_with("Mp1 d g s b "));
}

#[test]
fn mos_dedupes_identical_models() {
    let mut n = Netlist::new("t");
    Nmos::default().emit_spice(&mut n, &["d1", "g1", "s1", "0"], "1").unwrap();
    Nmos::default().emit_spice(&mut n, &["d2", "g2", "s2", "0"], "2").unwrap();
    assert_eq!(n.models.len(), 1, "same params → one .model card");
    assert_eq!(n.body.len(), 2);
}

#[test]
fn mos_distinct_params_distinct_models() {
    let mut n = Netlist::new("t");
    Nmos::default().emit_spice(&mut n, &["d1", "g1", "s1", "0"], "1").unwrap();
    let nmos2 = Nmos { params: MosL1Params { vto: dbl(0.7), ..MosL1Params::nmos_default() }, ..Nmos::default() };
    nmos2.emit_spice(&mut n, &["d2", "g2", "s2", "0"], "2").unwrap();
    assert_eq!(n.models.len(), 2);
}

#[test]
fn nmos_arity_check() {
    let mut n = Netlist::new("t");
    let err = Nmos::default()
        .emit_spice(&mut n, &["d", "g", "s"], "1") // missing bulk
        .unwrap_err();
    match err {
        EmitError::ArityMismatch { expected: 4, got: 3, .. } => {}
        other => panic!("wrong err: {other:?}"),
    }
}
