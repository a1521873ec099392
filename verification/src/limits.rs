//! Pass/fail limits for measured values, and Monte Carlo summaries.

use crate::double::{Real, INF_BITS, SIGN_BIT};
use crate::text;
use vstd::prelude::*;
use vstd::string::*;

verus! {

/// The number 3.
pub const THREE_BITS: u64 = 0x4008_0000_0000_0000;

/// A named range for a measured value. Without `min` and `max` it is
/// informational only.
#[derive(Debug)]
pub struct Spec {
    pub name: String,
    pub min: Option<Real>,
    pub typ: Option<Real>,
    pub max: Option<Real>,
    pub unit: Option<String>,
}

/// How a Monte Carlo distribution is summarized.
#[derive(Debug, Clone, Copy, PartialEq, Eq, Structural)]
pub enum McSummaryStyle {
    /// Least, mean and greatest of the observed draws.
    MinMax,
    /// Mean, and three standard deviations below and above it.
    ThreeStd,
}

impl Default for McSummaryStyle {
    fn default() -> (res: Self)
        ensures
            res == McSummaryStyle::ThreeStd,
    {
        McSummaryStyle::ThreeStd
    }
}

/// Sum of the numbers, from left to right.
pub open spec fn sum(s: Seq<Real>) -> Real
    decreases s.len(),
{
    if s.len() == 0 {
        Real { bits: SIGN_BIT }
    } else {
        sum(s.drop_last()).add_spec(s.last())
    }
}

/// Arithmetic mean.
pub open spec fn mean(s: Seq<Real>) -> Real {
    sum(s).div_spec(Real::of_nat(s.len()))
}

/// Squared deviations from `m`.
pub open spec fn deviations(s: Seq<Real>, m: Real) -> Seq<Real> {
    s.map_values(|v: Real| v.sub_spec(m).mul_spec(v.sub_spec(m)))
}

/// Sample standard deviation around `m`; zero for a single draw.
pub open spec fn deviation(s: Seq<Real>, m: Real) -> Real {
    if s.len() >= 2 {
        sum(deviations(s, m)).div_spec(
            Real::of_nat(s.len()).sub_spec(Real::of_nat(1)),
        ).sqrt_spec()
    } else {
        (Real { bits: 0 }).sqrt_spec()
    }
}

/// Least of the numbers.
pub open spec fn least(s: Seq<Real>) -> Real
    decreases s.len(),
{
    if s.len() == 0 {
        Real { bits: INF_BITS }
    } else {
        least(s.drop_last()).min_spec(s.last())
    }
}

/// Greatest of the numbers.
pub open spec fn greatest(s: Seq<Real>) -> Real
    decreases s.len(),
{
    if s.len() == 0 {
        (Real { bits: INF_BITS }).neg_spec()
    } else {
        greatest(s.drop_last()).max_spec(s.last())
    }
}

pub fn sum_of(v: &Vec<Real>) -> (res: Real)
    ensures
        res == sum(v@),
{
    let mut acc = Real { bits: SIGN_BIT };
    let mut i: usize = 0;
    assert(v@.take(0) =~= Seq::empty());
    while i < v.len()
        invariant
            i <= v.len(),
            acc == sum(v@.take(i as int)),
        decreases v.len() - i,
    {
        acc = acc.add(v[i]);
        i = i + 1;
        assert(v@.take(i as int).drop_last() =~= v@.take(i - 1));
    }
    assert(v@.take(v@.len() as int) =~= v@);
    acc
}

pub fn mean_of(v: &Vec<Real>) -> (res: Real)
    ensures
        res == mean(v@),
{
    sum_of(v).div(Real::from_u64(v.len() as u64))
}

pub fn deviation_of(v: &Vec<Real>, m: Real) -> (res: Real)
    ensures
        res == deviation(v@, m),
{
    if v.len() < 2 {
        return (Real { bits: 0 }).sqrt();
    }
    let mut sq: Vec<Real> = Vec::new();
    let mut i: usize = 0;
    while i < v.len()
        invariant
            i <= v.len(),
            sq@ == deviations(v@, m).take(i as int),
        decreases v.len() - i,
    {
        let d = v[i].sub(m);
        sq.push(d.mul(d));
        i = i + 1;
        assert(sq@ =~= deviations(v@, m).take(i as int));
    }
    assert(sq@ =~= deviations(v@, m));
    let n = Real::from_u64(v.len() as u64);
    sum_of(&sq).div(n.sub(Real::from_u64(1))).sqrt()
}

pub fn least_of(v: &Vec<Real>) -> (res: Real)
    ensures
        res == least(v@),
{
    let mut acc = Real { bits: INF_BITS };
    let mut i: usize = 0;
    assert(v@.take(0) =~= Seq::empty());
    while i < v.len()
        invariant
            i <= v.len(),
            acc == least(v@.take(i as int)),
        decreases v.len() - i,
    {
        acc = acc.min(v[i]);
        i = i + 1;
        assert(v@.take(i as int).drop_last() =~= v@.take(i - 1));
    }
    assert(v@.take(v@.len() as int) =~= v@);
    acc
}

pub fn greatest_of(v: &Vec<Real>) -> (res: Real)
    ensures
        res == greatest(v@),
{
    let mut acc = (Real { bits: INF_BITS }).neg();
    let mut i: usize = 0;
    assert(v@.take(0) =~= Seq::empty());
    while i < v.len()
        invariant
            i <= v.len(),
            acc == greatest(v@.take(i as int)),
        decreases v.len() - i,
    {
        acc = acc.max(v[i]);
        i = i + 1;
        assert(v@.take(i as int).drop_last() =~= v@.take(i - 1));
    }
    assert(v@.take(v@.len() as int) =~= v@);
    acc
}

impl McSummaryStyle {
    pub open spec fn tag(self) -> Seq<char> {
        match self {
            McSummaryStyle::MinMax => "minmax"@,
            McSummaryStyle::ThreeStd => "3std"@,
        }
    }

    pub fn as_str(self) -> (res: &'static str)
        ensures
            res@ == self.tag(),
    {
        match self {
            McSummaryStyle::MinMax => "minmax",
            McSummaryStyle::ThreeStd => "3std",
        }
    }

    /// Low, typical and high representative of the draws; none without draws.
    pub open spec fn summary(self, s: Seq<Real>) -> Option<(Real, Real, Real)> {
        if s.len() == 0 {
            None
        } else {
            let m = mean(s);
            match self {
                McSummaryStyle::MinMax => Some((least(s), m, greatest(s))),
                McSummaryStyle::ThreeStd => {
                    let w = (Real { bits: THREE_BITS }).mul_spec(deviation(s, m));
                    Some((m.sub_spec(w), m, m.add_spec(w)))
                },
            }
        }
    }

    pub fn summarize(self, values: &Vec<Real>) -> (res: Option<(Real, Real, Real)>)
        ensures
            res == self.summary(values@),
    {
        if values.len() == 0 {
            return None;
        }
        let m = mean_of(values);
        match self {
            McSummaryStyle::MinMax => Some((least_of(values), m, greatest_of(values))),
            McSummaryStyle::ThreeStd => {
                let w = (Real { bits: THREE_BITS }).mul(deviation_of(values, m));
                Some((m.sub(w), m, m.add(w)))
            },
        }
    }
}

/// Which limit was missed.
#[derive(Debug, Clone, Copy, PartialEq, Eq, Structural)]
pub enum SpecFail {
    BelowMin(Real),
    AboveMax(Real),
}

/// Outcome of holding a measured value against its limits.
#[derive(Debug, Clone, Copy, PartialEq, Eq, Structural)]
pub enum SpecCheck {
    Pass { measured: Real },
    Fail { measured: Real, reason: SpecFail },
    /// The measurement is missing.
    Skipped,
}

impl SpecCheck {
    pub fn is_pass(self) -> (res: bool)
        ensures
            res == (self is Pass),
    {
        match self {
            SpecCheck::Pass { .. } => true,
            _ => false,
        }
    }

    pub fn is_fail(self) -> (res: bool)
        ensures
            res == (self is Fail),
    {
        match self {
            SpecCheck::Fail { .. } => true,
            _ => false,
        }
    }
}

impl Spec {
    /// A value below the lower limit.
    pub open spec fn too_low(self, v: Real) -> bool {
        self.min matches Some(lo) && v.below(lo)
    }

    /// A value above the upper limit.
    pub open spec fn too_high(self, v: Real) -> bool {
        self.max matches Some(hi) && hi.below(v)
    }

    /// What comes of holding the measured value against the limits.
    pub open spec fn outcome(self, measured: Option<Real>) -> SpecCheck {
        match measured {
            None => SpecCheck::Skipped,
            Some(v) => if self.too_low(v) {
                SpecCheck::Fail { measured: v, reason: SpecFail::BelowMin(self.min->0) }
            } else if self.too_high(v) {
                SpecCheck::Fail { measured: v, reason: SpecFail::AboveMax(self.max->0) }
            } else {
                SpecCheck::Pass { measured: v }
            },
        }
    }

    /// Holds a measured value against the limits.
    pub fn check(&self, measured: Option<Real>) -> (res: SpecCheck)
        ensures
            res == self.outcome(measured),
    {
        match measured {
            None => SpecCheck::Skipped,
            Some(v) => {
                if let Some(lo) = self.min {
                    if v.lt(lo) {
                        return SpecCheck::Fail { measured: v, reason: SpecFail::BelowMin(lo) };
                    }
                }
                if let Some(hi) = self.max {
                    if hi.lt(v) {
                        return SpecCheck::Fail { measured: v, reason: SpecFail::AboveMax(hi) };
                    }
                }
                SpecCheck::Pass { measured: v }
            },
        }
    }

    /// What comes of holding a distribution with the given low and high
    /// representatives against the limits: a failure of either one fails it.
    pub open spec fn range_outcome(self, low: Real, high: Real) -> SpecCheck {
        let lo = self.outcome(Some(low));
        let hi = self.outcome(Some(high));
        if lo is Fail {
            lo
        } else if hi is Fail {
            hi
        } else {
            SpecCheck::Pass { measured: high }
        }
    }

    /// What comes of holding Monte Carlo draws against the limits.
    pub open spec fn mc_outcome(self, values: Seq<Real>, style: McSummaryStyle) -> SpecCheck {
        match style.summary(values) {
            None => SpecCheck::Skipped,
            Some((low, _, high)) => self.range_outcome(low, high),
        }
    }

    /// Holds Monte Carlo draws, as `style` summarizes them, against the limits.
    pub fn check_mc(&self, values: &Vec<Real>, style: McSummaryStyle) -> (res: SpecCheck)
        ensures
            res == self.mc_outcome(values@, style),
    {
        match style.summarize(values) {
            None => SpecCheck::Skipped,
            Some((low, _, high)) => {
                let lo = self.check(Some(low));
                let hi = self.check(Some(high));
                if lo.is_fail() {
                    lo
                } else if hi.is_fail() {
                    hi
                } else {
                    SpecCheck::Pass { measured: high }
                }
            },
        }
    }

    /// A spec that holds the same values.
    pub fn duplicate(&self) -> (res: Spec)
        ensures
            res == *self,
    {
        Spec {
            name: self.name.clone(),
            min: self.min,
            typ: self.typ,
            max: self.max,
            unit: match &self.unit {
                Some(u) => Some(u.clone()),
                None => None,
            },
        }
    }
}

/// Ordered list of specs.
#[derive(Debug)]
pub struct SpecBundle {
    pub specs: Vec<Spec>,
}

impl Default for SpecBundle {
    fn default() -> (res: Self)
        ensures
            res.specs@.len() == 0,
    {
        SpecBundle { specs: Vec::new() }
    }
}

/// The first spec named `name`.
pub open spec fn find_spec(s: Seq<Spec>, name: Seq<char>) -> Option<Spec>
    decreases s.len(),
{
    if s.len() == 0 {
        None
    } else if s[0].name@ == name {
        Some(s[0])
    } else {
        find_spec(s.skip(1), name)
    }
}

impl SpecBundle {
    pub fn find(&self, name: &str) -> (res: Option<&Spec>)
        ensures
            match res {
                Some(sp) => find_spec(self.specs@, name@) == Some(*sp),
                None => find_spec(self.specs@, name@) is None,
            },
    {
        let mut i: usize = 0;
        assert(self.specs@.skip(0) =~= self.specs@);
        while i < self.specs.len()
            invariant
                i <= self.specs.len(),
                find_spec(self.specs@, name@) == find_spec(self.specs@.skip(i as int), name@),
            decreases self.specs.len() - i,
        {
            assert(self.specs@.skip(i as int).skip(1) =~= self.specs@.skip(i + 1));
            if text::same(self.specs[i].name.as_str(), name) {
                return Some(&self.specs[i]);
            }
            i = i + 1;
        }
        None
    }
}

/// A value passes exactly when it is measured and lies within both limits.
pub proof fn pass_means_within_limits(sp: Spec, v: Real)
    ensures
        sp.outcome(Some(v)) is Pass <==> !sp.too_low(v) && !sp.too_high(v),
        sp.outcome(None) == SpecCheck::Skipped,
{
}

/// Without limits every measured value passes.
pub proof fn no_limits_no_failure(sp: Spec, v: Real)
    requires
        sp.min is None,
        sp.max is None,
    ensures
        sp.outcome(Some(v)) == (SpecCheck::Pass { measured: v }),
{
}

/// A distribution passes exactly when both of its representatives pass.
pub proof fn distribution_passes_with_both_tails(sp: Spec, low: Real, high: Real)
    ensures
        sp.range_outcome(low, high) is Pass <==> sp.outcome(Some(low)) is Pass && sp.outcome(
            Some(high),
        ) is Pass,
{
}

/// Between two numbers that pass, every number passes.
pub proof fn passing_values_form_an_interval(sp: Spec, a: Real, v: Real, b: Real)
    requires
        sp.outcome(Some(a)) is Pass,
        sp.outcome(Some(b)) is Pass,
        a.at_most(v),
        v.at_most(b),
    ensures
        sp.outcome(Some(v)) is Pass,
{
}

proof fn lemma_extremes(s: Seq<Real>)
    ensures
        !least(s).nan(),
        !greatest(s).nan(),
        forall|i: int|
            0 <= i < s.len() && !(#[trigger] s[i]).nan() ==> least(s).rank() <= s[i].rank()
                <= greatest(s).rank(),
        (exists|i: int| 0 <= i < s.len() && !(#[trigger] s[i]).nan()) ==> has_rank(
            s,
            least(s).rank(),
        ) && has_rank(s, greatest(s).rank()),
        (forall|i: int| 0 <= i < s.len() ==> (#[trigger] s[i]).nan()) ==> least(s).rank()
            == INF_BITS && greatest(s).rank() == -INF_BITS,
    decreases s.len(),
{
    if s.len() > 0 {
        let t = s.drop_last();
        let x = s.last();
        lemma_extremes(t);
        assert forall|r: int| has_rank(t, r) implies has_rank(s, r) by {
            let i = choose|i: int| 0 <= i < t.len() && !t[i].nan() && (#[trigger] t[i]).rank() == r;
            assert(s[i] == t[i]);
        }
        assert forall|i: int| 0 <= i < s.len() - 1 implies #[trigger] s[i] == t[i] by {}
        if !x.nan() {
            assert(s[s.len() - 1] == x);
            assert(has_rank(s, x.rank()));
            if forall|i: int| 0 <= i < t.len() ==> (#[trigger] t[i]).nan() {
                assert(least(s).rank() == x.rank());
                assert(greatest(s).rank() == x.rank());
            }
        } else if exists|i: int| 0 <= i < s.len() && !(#[trigger] s[i]).nan() {
            let i = choose|i: int| 0 <= i < s.len() && !(#[trigger] s[i]).nan();
            assert(!t[i].nan());
        }
        if forall|i: int| 0 <= i < s.len() ==> (#[trigger] s[i]).nan() {
            assert forall|i: int| 0 <= i < t.len() implies (#[trigger] t[i]).nan() by {
                assert(s[i].nan());
            }
        }
    }
}

spec fn has_rank(s: Seq<Real>, r: int) -> bool {
    exists|i: int| 0 <= i < s.len() && !s[i].nan() && (#[trigger] s[i]).rank() == r
}

/// Monte Carlo draws that are summarized by their extremes pass exactly when every draw
/// passes. At least one of them is a number.
pub proof fn extremes_pass_where_every_draw_passes(sp: Spec, values: Seq<Real>)
    requires
        exists|i: int| 0 <= i < values.len() && !(#[trigger] values[i]).nan(),
    ensures
        sp.mc_outcome(values, McSummaryStyle::MinMax) is Pass <==> forall|i: int|
            0 <= i < values.len() ==> sp.outcome(Some(#[trigger] values[i])) is Pass,
{
    lemma_extremes(values);
    let low = least(values);
    let high = greatest(values);
    let a = choose|i: int|
        0 <= i < values.len() && !values[i].nan() && (#[trigger] values[i]).rank() == low.rank();
    let b = choose|i: int|
        0 <= i < values.len() && !values[i].nan() && (#[trigger] values[i]).rank() == high.rank();
    assert(has_rank(values, low.rank()) && has_rank(values, high.rank()));
    assert(sp.outcome(Some(values[a])) is Pass == sp.outcome(Some(low)) is Pass);
    assert(sp.outcome(Some(values[b])) is Pass == sp.outcome(Some(high)) is Pass);
    distribution_passes_with_both_tails(sp, low, high);
    if sp.mc_outcome(values, McSummaryStyle::MinMax) is Pass {
        assert forall|i: int| 0 <= i < values.len() implies sp.outcome(
            Some(#[trigger] values[i]),
        ) is Pass by {
            if !values[i].nan() {
                passing_values_form_an_interval(sp, low, values[i], high);
            }
        }
    }
}

/// The low and the high representative of draws that are summarized by their extremes lie
/// around every draw that is a number.
pub proof fn extremes_enclose_every_draw(values: Seq<Real>, i: int)
    requires
        0 <= i < values.len(),
        !values[i].nan(),
    ensures
        McSummaryStyle::MinMax.summary(values) matches Some((low, _, high)) && low.at_most(
            values[i],
        ) && values[i].at_most(high),
{
    lemma_extremes(values);
}

/// A measured value fails against the lower limit exactly where it is less than it, and
/// against the upper one exactly where it is greater than it and not less than the lower
/// one. Else it passes. What is said is the value itself and the limit that it misses.
pub proof fn outcomes_name_the_limit_missed(sp: Spec, v: Real)
    ensures
        ({
            let low = sp.min matches Some(lo) && v.below(lo);
            let high = sp.max matches Some(hi) && hi.below(v);
            match sp.outcome(Some(v)) {
                SpecCheck::Pass { measured } => !low && !high && measured == v,
                SpecCheck::Fail { measured, reason: SpecFail::BelowMin(l) } => low && measured == v
                    && sp.min == Some(l),
                SpecCheck::Fail { measured, reason: SpecFail::AboveMax(l) } => !low && high
                    && measured == v && sp.max == Some(l),
                SpecCheck::Skipped => false,
            }
        }),
{
}

/// Draws are held against the limits by a low and a high number, equally far from their mean
/// or their extremes; the low one is asked first. Without draws nothing is asked.
pub proof fn draws_are_asked_by_both_ends(sp: Spec, values: Seq<Real>, style: McSummaryStyle)
    ensures
        values.len() == 0 ==> sp.mc_outcome(values, style) == SpecCheck::Skipped,
        values.len() > 0 ==> style.summary(values) is Some && ({
            let (low, typ, high) = style.summary(values)->0;
            let w = (Real { bits: THREE_BITS }).mul_spec(deviation(values, mean(values)));
            &&& typ == mean(values)
            &&& style == McSummaryStyle::ThreeStd ==> low == typ.sub_spec(w) && high
                == typ.add_spec(w)
            &&& sp.outcome(Some(low)) is Fail ==> sp.mc_outcome(values, style) == sp.outcome(
                Some(low),
            )
            &&& !(sp.outcome(Some(low)) is Fail) ==> sp.mc_outcome(values, style) == sp.outcome(
                Some(high),
            )
        }),
{
}

/// The spec found under a name is the first that has it; none is found exactly where none
/// has it.
pub proof fn specs_are_found_by_name(s: Seq<Spec>, name: Seq<char>)
    ensures
        match find_spec(s, name) {
            None => forall|i: int| 0 <= i < s.len() ==> (#[trigger] s[i]).name@ != name,
            Some(sp) => exists|i: int|
                0 <= i < s.len() && #[trigger] s[i] == sp && sp.name@ == name && (forall|j: int|
                    0 <= j < i ==> (#[trigger] s[j]).name@ != name),
        },
    decreases s.len(),
{
    if s.len() > 0 {
        if s[0].name@ == name {
            assert(s[0] == s[0]);
        } else {
            let rest = s.skip(1);
            specs_are_found_by_name(rest, name);
            match find_spec(rest, name) {
                None => {
                    assert forall|i: int| 0 <= i < s.len() implies (#[trigger] s[i]).name@
                        != name by {
                        if i > 0 {
                            assert(rest[i - 1] == s[i]);
                        }
                    }
                },
                Some(sp) => {
                    let i = choose|i: int|
                        0 <= i < rest.len() && #[trigger] rest[i] == sp && sp.name@ == name && (
                        forall|j: int| 0 <= j < i ==> (#[trigger] rest[j]).name@ != name);
                    assert(s[i + 1] == sp);
                    assert forall|j: int| 0 <= j < i + 1 implies (#[trigger] s[j]).name@
                        != name by {
                        if j > 0 {
                            assert(rest[j - 1] == s[j]);
                        }
                    }
                },
            }
        }
    }
}

} // verus!
