//! Verification-side report: design-rule, layout-versus-schematic and
//! electromigration violation counts, each with a representative first
//! finding.

use crate::text;
use vstd::prelude::*;
use vstd::string::*;

verus! {

/// One verifier's contribution to the report. A zero `count` means that the
/// verifier ran clean.
#[derive(Clone, Debug)]
pub struct VerifierResult {
    pub count: usize,
    /// The first or worst violation in human-readable form.
    pub first_message: String,
}

impl Default for VerifierResult {
    fn default() -> (res: Self)
        ensures
            res.count == 0,
            res.first_message@ == Seq::<char>::empty(),
    {
        VerifierResult::clean()
    }
}

impl VerifierResult {
    pub fn clean() -> (res: Self)
        ensures
            res.count == 0,
            res.first_message@ == Seq::<char>::empty(),
    {
        VerifierResult { count: 0, first_message: String::new() }
    }

    pub fn from_count(count: usize, first_message: &str) -> (res: Self)
        ensures
            res.count == count,
            res.first_message@ == first_message@,
    {
        VerifierResult { count, first_message: first_message.to_owned() }
    }

    pub fn is_clean(&self) -> (res: bool)
        ensures
            res == (self.count == 0),
    {
        self.count == 0
    }
}

/// Violations counted by a verifier; one that did not run counts none.
pub open spec fn violations(r: Option<VerifierResult>) -> nat {
    match r {
        Some(v) => v.count as nat,
        None => 0,
    }
}

/// Per-corner verification snapshot. A verifier is `None` when it did not run.
#[derive(Clone, Debug)]
pub struct VerifyReport {
    pub drc: Option<VerifierResult>,
    pub lvs: Option<VerifierResult>,
    pub em: Option<VerifierResult>,
}

/// `label=count`, or `label=-` for a verifier that did not run.
pub open spec fn verifier_label(label: Seq<char>, r: Option<VerifierResult>) -> Seq<char> {
    match r {
        None => label + "=-"@,
        Some(v) => label + "="@ + text::dec(v.count as nat),
    }
}

fn one_label(label: &str, r: &Option<VerifierResult>) -> (res: String)
    ensures
        res@ == verifier_label(label@, *r),
{
    let mut s = label.to_owned();
    match r {
        None => {
            s.append("=-");
        },
        Some(v) => {
            s.append("=");
            s.append(text::usize_to_string(v.count).as_str());
        },
    }
    s
}

impl Default for VerifyReport {
    fn default() -> (res: Self)
        ensures
            res == (VerifyReport { drc: None, lvs: None, em: None }),
    {
        VerifyReport { drc: None, lvs: None, em: None }
    }
}

impl VerifyReport {
    /// Total violations across every verifier that ran.
    pub open spec fn total_violations(self) -> nat {
        violations(self.drc) + violations(self.lvs) + violations(self.em)
    }

    /// Every verifier that ran found nothing.
    pub open spec fn clean(self) -> bool {
        &&& (self.drc matches Some(r) ==> r.count == 0)
        &&& (self.lvs matches Some(r) ==> r.count == 0)
        &&& (self.em matches Some(r) ==> r.count == 0)
    }

    pub fn empty() -> (res: Self)
        ensures
            res == (VerifyReport { drc: None, lvs: None, em: None }),
    {
        VerifyReport { drc: None, lvs: None, em: None }
    }

    pub fn set_drc(self, r: VerifierResult) -> (res: Self)
        ensures
            res == (VerifyReport { drc: Some(r), lvs: self.lvs, em: self.em }),
    {
        VerifyReport { drc: Some(r), lvs: self.lvs, em: self.em }
    }

    pub fn set_lvs(self, r: VerifierResult) -> (res: Self)
        ensures
            res == (VerifyReport { drc: self.drc, lvs: Some(r), em: self.em }),
    {
        VerifyReport { drc: self.drc, lvs: Some(r), em: self.em }
    }

    pub fn set_em(self, r: VerifierResult) -> (res: Self)
        ensures
            res == (VerifyReport { drc: self.drc, lvs: self.lvs, em: Some(r) }),
    {
        VerifyReport { drc: self.drc, lvs: self.lvs, em: Some(r) }
    }

    /// True iff every verifier that ran came back with zero violations.
    pub fn is_clean(&self) -> (res: bool)
        ensures
            res == self.clean(),
    {
        let drc_ok = match &self.drc {
            Some(r) => r.is_clean(),
            None => true,
        };
        let lvs_ok = match &self.lvs {
            Some(r) => r.is_clean(),
            None => true,
        };
        let em_ok = match &self.em {
            Some(r) => r.is_clean(),
            None => true,
        };
        drc_ok && lvs_ok && em_ok
    }

    /// Total violations across every verifier that ran.
    pub fn total(&self) -> (res: usize)
        requires
            self.total_violations() <= usize::MAX,
        ensures
            res == self.total_violations(),
    {
        let d: usize = match &self.drc {
            Some(r) => r.count,
            None => 0,
        };
        let l: usize = match &self.lvs {
            Some(r) => r.count,
            None => 0,
        };
        let e: usize = match &self.em {
            Some(r) => r.count,
            None => 0,
        };
        d + l + e
    }

    /// `DRC=0 LVS=- EM=2`: one entry per verifier, `-` for one that did not run.
    pub open spec fn summary(self) -> Seq<char> {
        verifier_label("DRC"@, self.drc) + " "@ + verifier_label("LVS"@, self.lvs) + " "@
            + verifier_label("EM"@, self.em)
    }

    pub fn summary_string(&self) -> (res: String)
        ensures
            res@ == self.summary(),
    {
        let mut s = one_label("DRC", &self.drc);
        s.append(" ");
        s.append(one_label("LVS", &self.lvs).as_str());
        s.append(" ");
        s.append(one_label("EM", &self.em).as_str());
        s
    }
}

/// A report is clean exactly when it counts no violation at all.
pub proof fn clean_iff_no_violations(r: VerifyReport)
    ensures
        r.clean() <==> r.total_violations() == 0,
{
}

/// Recording one verifier's result leaves the other two untouched and makes
/// the whole report as clean as that result and the other two together.
pub proof fn each_verifier_counts_on_its_own(r: VerifyReport, v: VerifierResult)
    ensures
        (VerifyReport { drc: Some(v), ..r }).total_violations() == v.count + violations(r.lvs)
            + violations(r.em),
        (VerifyReport { drc: Some(v), ..r }).clean() ==> v.count == 0,
{
}

} // verus!
