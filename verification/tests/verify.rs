//! Verdicts of the layout verifiers.

use rlx_eda::verify::{VerifierResult, VerifyReport};

#[test]
fn empty_report_is_clean() {
    // No verifiers ran: vacuously clean.
    assert!(VerifyReport::empty().is_clean());
}

#[test]
fn all_zero_is_clean() {
    let r = VerifyReport::empty()
        .set_drc(VerifierResult::clean())
        .set_lvs(VerifierResult::clean())
        .set_em(VerifierResult::clean());
    assert!(r.is_clean());
    assert_eq!(r.total(), 0);
}

#[test]
fn any_violation_flips_clean_to_false() {
    let r = VerifyReport::empty()
        .set_drc(VerifierResult::clean())
        .set_em(VerifierResult::from_count(2, "MET1.W: 50/0..50 too narrow"));
    assert!(!r.is_clean());
    assert_eq!(r.total(), 2);
}

#[test]
fn summary_string_marks_unrun_verifiers() {
    let r = VerifyReport::empty()
        .set_drc(VerifierResult::clean())
        .set_em(VerifierResult::from_count(3, "—"));
    assert_eq!(r.summary_string(), "DRC=0 LVS=- EM=3");
}
