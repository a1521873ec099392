//! How a waveform is plotted: which signals share a pane, and the units and ranges
//! of the axes.

use crate::double::{Real, INF_BITS};
use crate::measure;
use crate::text;
use vstd::prelude::*;
use vstd::string::*;

verus! {

/// 1.
pub const ONE_BITS: u64 = 0x3ff0_0000_0000_0000;

/// 1e3.
pub const KILO_BITS: u64 = 0x408f_4000_0000_0000;

/// 1e-3.
pub const MILLI_BITS: u64 = 0x3f50_624d_d2f1_a9fc;

/// 1e-6.
pub const MICRO_BITS: u64 = 0x3eb0_c6f7_a0b5_ed8d;

/// 1e-9.
pub const NANO_BITS: u64 = 0x3e11_2e0b_e826_d695;

/// 1e-12.
pub const PICO_BITS: u64 = 0x3d71_9799_812d_ea11;

/// 1e-30.
pub const TINY_BITS: u64 = 0x39b4_484b_feeb_c2a0;

/// 0.08.
pub const MARGIN_BITS: u64 = 0x3fb4_7ae1_47ae_147b;

/// The least positive normal number.
pub const MIN_POSITIVE_BITS: u64 = 0x0010_0000_0000_0000;

/// What a pane shows.
#[derive(Debug, Clone, Copy, PartialEq, Eq, Structural)]
pub enum PaneKind {
    Voltages,
    Currents,
    Other,
}

impl PaneKind {
    pub open spec fn name(self) -> Seq<char> {
        match self {
            PaneKind::Voltages => "voltages"@,
            PaneKind::Currents => "currents"@,
            PaneKind::Other => "other"@,
        }
    }

    pub open spec fn unit(self) -> Seq<char> {
        match self {
            PaneKind::Voltages => "V"@,
            PaneKind::Currents => "A"@,
            PaneKind::Other => ""@,
        }
    }

    fn as_strs(self) -> (res: (&'static str, &'static str))
        ensures
            res.0@ == self.name(),
            res.1@ == self.unit(),
    {
        match self {
            PaneKind::Voltages => ("voltages", "V"),
            PaneKind::Currents => ("currents", "A"),
            PaneKind::Other => ("other", ""),
        }
    }
}

/// The pane of a signal whose name is `lname` in lower case.
pub open spec fn pane_by_lower_name(lname: Seq<char>) -> PaneKind {
    if text::starts_with(lname, "v("@) || text::starts_with(lname, "|v("@) {
        PaneKind::Voltages
    } else if text::starts_with(lname, "i("@) || text::ends_with(lname, "#branch"@) {
        PaneKind::Currents
    } else {
        PaneKind::Other
    }
}

/// The pane of a signal whose name is `lname` in lower case.
pub fn pane_of_lower_name(lname: &str) -> (res: PaneKind)
    ensures
        res == pane_by_lower_name(lname@),
{
    if text::has_prefix(lname, "v(") || text::has_prefix(lname, "|v(") {
        PaneKind::Voltages
    } else if text::has_prefix(lname, "i(") || text::has_suffix(lname, "#branch") {
        PaneKind::Currents
    } else {
        PaneKind::Other
    }
}

/// The pane of a signal.
pub open spec fn pane_kind(name: Seq<char>) -> PaneKind {
    pane_by_lower_name(measure::lowercase_text(name))
}

/// The pane of a signal, by its name in lower case.
pub fn pane_kind_of(name: &str) -> (res: PaneKind)
    ensures
        res == pane_kind(name@),
{
    pane_of_lower_name(measure::lowercase(name).as_str())
}

/// The positions below `n` of the signals of one pane.
pub open spec fn pane_signals(names: Seq<Seq<char>>, kind: PaneKind, n: int) -> Seq<int>
    decreases n,
{
    if n <= 0 {
        Seq::empty()
    } else if pane_kind(names[n - 1]) == kind {
        pane_signals(names, kind, n - 1).push(n - 1)
    } else {
        pane_signals(names, kind, n - 1)
    }
}

pub open spec fn positions(v: Seq<usize>) -> Seq<int> {
    v.map_values(|i: usize| i as int)
}

fn signals_of(names: &Vec<String>, kind: PaneKind) -> (res: Vec<usize>)
    ensures
        positions(res@) == pane_signals(text::texts(names@), kind, names@.len() as int),
        forall|i: int| 0 <= i < res@.len() ==> #[trigger] res@[i] < names@.len(),
{
    let mut out: Vec<usize> = Vec::new();
    let mut i: usize = 0;
    assert(positions(out@) =~= Seq::empty());
    while i < names.len()
        invariant
            i <= names.len(),
            positions(out@) == pane_signals(text::texts(names@), kind, i as int),
            forall|k: int| 0 <= k < out@.len() ==> #[trigger] out@[k] < names@.len(),
        decreases names.len() - i,
    {
        let ghost before = out@;
        assert(text::texts(names@)[i as int] == names@[i as int]@);
        if pane_kind_of(names[i].as_str()) == kind {
            out.push(i);
            assert(positions(out@) =~= positions(before).push(i as int));
        }
        i = i + 1;
    }
    out
}

proof fn lemma_pane_signals(names: Seq<Seq<char>>, kind: PaneKind, n: int, i: int)
    requires
        0 <= i < n,
    ensures
        pane_signals(names, kind, n).contains(i) <==> pane_kind(names[i]) == kind,
    decreases n,
{
    let before = pane_signals(names, kind, n - 1);
    let all = pane_signals(names, kind, n);
    if i < n - 1 {
        lemma_pane_signals(names, kind, n - 1, i);
        if before.contains(i) {
            let k = choose|k: int| 0 <= k < before.len() && before[k] == i;
            assert(all[k] == i);
        }
        if all.contains(i) {
            let k = choose|k: int| 0 <= k < all.len() && all[k] == i;
            assert(before[k] == i);
        }
    } else {
        lemma_pane_bound(names, kind, n - 1);
        if pane_kind(names[i]) == kind {
            assert(all.last() == i);
        } else if all.contains(i) {
            let k = choose|k: int| 0 <= k < all.len() && all[k] == i;
            assert(before[k] == i);
        }
    }
}

proof fn lemma_pane_bound(names: Seq<Seq<char>>, kind: PaneKind, n: int)
    ensures
        forall|k: int|
            0 <= k < pane_signals(names, kind, n).len() ==> (#[trigger] pane_signals(
                names,
                kind,
                n,
            )[k]) < n,
    decreases n,
{
    if n > 0 {
        lemma_pane_bound(names, kind, n - 1);
        let before = pane_signals(names, kind, n - 1);
        let all = pane_signals(names, kind, n);
        assert forall|k: int| 0 <= k < all.len() implies (#[trigger] all[k]) < n by {
            if k < before.len() {
                assert(all[k] == before[k]);
            }
        }
    }
}

/// Every signal is in the pane of its kind and in no other.
pub proof fn every_signal_has_one_pane(names: Seq<Seq<char>>, kind: PaneKind, i: int)
    requires
        0 <= i < names.len(),
    ensures
        pane_signals(names, kind, names.len() as int).contains(i) <==> kind == pane_kind(names[i]),
{
    lemma_pane_signals(names, kind, names.len() as int, i);
}

// ── axes ───────────────────────────────────────────────────────────

/// Scale and unit of the horizontal axis for a span.
pub open spec fn axis_unit(axis_name: Seq<char>, span: Real) -> (u64, Seq<char>) {
    if axis_name == "frequency"@ {
        (ONE_BITS, "Hz"@)
    } else if (Real { bits: ONE_BITS }).at_most(span) {
        (ONE_BITS, "s"@)
    } else if (Real { bits: MILLI_BITS }).at_most(span) {
        (MILLI_BITS, "ms"@)
    } else if (Real { bits: MICRO_BITS }).at_most(span) {
        (MICRO_BITS, "µs"@)
    } else if (Real { bits: NANO_BITS }).at_most(span) {
        (NANO_BITS, "ns"@)
    } else {
        (PICO_BITS, "ps"@)
    }
}

fn axis_unit_of(axis_name: &str, span: Real) -> (res: (u64, &'static str))
    ensures
        (res.0, res.1@) == axis_unit(axis_name@, span),
{
    if text::same(axis_name, "frequency") {
        (ONE_BITS, "Hz")
    } else if (Real { bits: ONE_BITS }).le(span) {
        (ONE_BITS, "s")
    } else if (Real { bits: MILLI_BITS }).le(span) {
        (MILLI_BITS, "ms")
    } else if (Real { bits: MICRO_BITS }).le(span) {
        (MICRO_BITS, "µs")
    } else if (Real { bits: NANO_BITS }).le(span) {
        (NANO_BITS, "ns")
    } else {
        (PICO_BITS, "ps")
    }
}

/// How far the axis reaches, never zero.
pub open spec fn axis_span(axis: Seq<Real>) -> Real {
    axis.last().sub_spec(axis[0]).abs_spec().max_spec(Real { bits: MIN_POSITIVE_BITS })
}

/// Caption of the horizontal axis.
pub open spec fn axis_label(axis_name: Seq<char>, unit: Seq<char>) -> Seq<char> {
    axis_name + " ("@ + unit + ")"@
}

/// Scale and prefix of the vertical axis for a magnitude.
pub open spec fn value_unit(av: Real) -> (u64, Seq<char>) {
    if (Real { bits: KILO_BITS }).at_most(av) {
        (KILO_BITS, "k"@)
    } else if (Real { bits: ONE_BITS }).at_most(av) {
        (ONE_BITS, ""@)
    } else if (Real { bits: MILLI_BITS }).at_most(av) {
        (MILLI_BITS, "m"@)
    } else if (Real { bits: MICRO_BITS }).at_most(av) {
        (MICRO_BITS, "µ"@)
    } else if (Real { bits: NANO_BITS }).at_most(av) {
        (NANO_BITS, "n"@)
    } else if (Real { bits: PICO_BITS }).at_most(av) {
        (PICO_BITS, "p"@)
    } else {
        (ONE_BITS, ""@)
    }
}

fn value_unit_of(av: Real) -> (res: (u64, &'static str))
    ensures
        (res.0, res.1@) == value_unit(av),
{
    if (Real { bits: KILO_BITS }).le(av) {
        (KILO_BITS, "k")
    } else if (Real { bits: ONE_BITS }).le(av) {
        (ONE_BITS, "")
    } else if (Real { bits: MILLI_BITS }).le(av) {
        (MILLI_BITS, "m")
    } else if (Real { bits: MICRO_BITS }).le(av) {
        (MICRO_BITS, "µ")
    } else if (Real { bits: NANO_BITS }).le(av) {
        (NANO_BITS, "n")
    } else if (Real { bits: PICO_BITS }).le(av) {
        (PICO_BITS, "p")
    } else {
        (ONE_BITS, "")
    }
}

/// A range widened to hold `v`, if that is finite.
pub open spec fn widened(r: (Real, Real), v: Real) -> (Real, Real) {
    if v.finite() {
        (
            if v.below(r.0) {
                v
            } else {
                r.0
            },
            if r.1.below(v) {
                v
            } else {
                r.1
            },
        )
    } else {
        r
    }
}

/// A range widened to hold the first `n` values.
pub open spec fn widened_by(r: (Real, Real), vs: Seq<Real>, n: int) -> (Real, Real)
    decreases n,
{
    if n <= 0 {
        r
    } else {
        widened(widened_by(r, vs, n - 1), vs[n - 1])
    }
}

/// The range that holds no value.
pub open spec fn no_range() -> (Real, Real) {
    (Real { bits: INF_BITS }, (Real { bits: INF_BITS }).neg_spec())
}

/// The range of the values of the first `n` signals of a pane.
pub open spec fn pane_range(series: Seq<Vec<Real>>, signals: Seq<int>, n: int) -> (Real, Real)
    decreases n,
{
    if n <= 0 {
        no_range()
    } else {
        let vs = series[signals[n - 1]]@;
        widened_by(pane_range(series, signals, n - 1), vs, vs.len() as int)
    }
}

fn pane_range_of(series: &Vec<Vec<Real>>, signals: &Vec<usize>) -> (res: (Real, Real))
    requires
        forall|i: int| 0 <= i < signals@.len() ==> #[trigger] signals@[i] < series@.len(),
    ensures
        res == pane_range(series@, positions(signals@), signals@.len() as int),
{
    let mut lo = Real { bits: INF_BITS };
    let mut hi = (Real { bits: INF_BITS }).neg();
    let mut n: usize = 0;
    while n < signals.len()
        invariant
            n <= signals.len(),
            forall|i: int| 0 <= i < signals@.len() ==> #[trigger] signals@[i] < series@.len(),
            (lo, hi) == pane_range(series@, positions(signals@), n as int),
        decreases signals.len() - n,
    {
        let k: usize = signals[n];
        let vs: &Vec<Real> = &series[k];
        let ghost before = (lo, hi);
        let mut i: usize = 0;
        while i < vs.len()
            invariant
                i <= vs.len(),
                (lo, hi) == widened_by(before, vs@, i as int),
            decreases vs.len() - i,
        {
            let v = vs[i];
            if v.is_finite() {
                if v.lt(lo) {
                    lo = v;
                }
                if hi.lt(v) {
                    hi = v;
                }
            }
            i = i + 1;
        }
        n = n + 1;
    }
    (lo, hi)
}

/// The range that is shown of a range of values: never empty, never infinite.
pub open spec fn shown_range(r: (Real, Real)) -> (Real, Real) {
    let (lo, hi) = if !r.0.finite() || !r.1.finite() {
        (Real { bits: 0 }, Real { bits: ONE_BITS })
    } else {
        r
    };
    if hi.sub_spec(lo).abs_spec().below(Real { bits: TINY_BITS }) {
        (lo, lo.add_spec(Real { bits: ONE_BITS }))
    } else {
        (lo, hi)
    }
}

fn shown_range_of(r: (Real, Real)) -> (res: (Real, Real))
    ensures
        res == shown_range(r),
{
    let (lo, hi): (Real, Real) = if !r.0.is_finite() || !r.1.is_finite() {
        (Real { bits: 0 }, Real { bits: ONE_BITS })
    } else {
        r
    };
    if hi.sub(lo).abs().lt(Real { bits: TINY_BITS }) {
        (lo, lo.add(Real { bits: ONE_BITS }))
    } else {
        (lo, hi)
    }
}

// ── the plan ───────────────────────────────────────────────────────

/// One pane of a plot. Values are divided by `scale` before they are drawn.
#[derive(Debug)]
pub struct Pane {
    pub kind: PaneKind,
    pub label: String,
    pub signals: Vec<usize>,
    pub scale: Real,
    pub low: Real,
    pub high: Real,
}

/// A plot. Positions are divided by `x_scale` before they are drawn.
#[derive(Debug)]
pub struct Plot {
    pub x_scale: Real,
    pub x_label: String,
    pub height: u32,
    pub panes: Vec<Pane>,
}

/// Whether a pane shows the signals of its kind within their range.
pub open spec fn is_pane(p: Pane, names: Seq<Seq<char>>, series: Seq<Vec<Real>>) -> bool {
    let signals = pane_signals(names, p.kind, names.len() as int);
    let r = shown_range(pane_range(series, signals, signals.len() as int));
    let pad = r.1.sub_spec(r.0).mul_spec(Real { bits: MARGIN_BITS });
    let (bits, prefix) = value_unit(r.1.abs_spec().max_spec(r.0.abs_spec()));
    &&& positions(p.signals@) == signals
    &&& p.label@ == p.kind.name() + " ("@ + prefix + p.kind.unit() + ")"@
    &&& p.scale == Real { bits }
    &&& p.low == r.0.sub_spec(pad).div_spec(Real { bits })
    &&& p.high == r.1.add_spec(pad).div_spec(Real { bits })
}

fn pane_for(names: &Vec<String>, series: &Vec<Vec<Real>>, kind: PaneKind) -> (res: Pane)
    requires
        names@.len() == series@.len(),
    ensures
        res.kind == kind,
        is_pane(res, text::texts(names@), series@),
        res.signals@.len() == pane_signals(text::texts(names@), kind, names@.len() as int).len(),
{
    let signals = signals_of(names, kind);
    assert(text::texts(names@).len() == names@.len());
    assert(positions(signals@).len() == signals@.len());
    let r = shown_range_of(pane_range_of(series, &signals));
    let pad = r.1.sub(r.0).mul(Real { bits: MARGIN_BITS });
    let (bits, prefix): (u64, &str) = value_unit_of(r.1.abs().max(r.0.abs()));
    let (name, unit): (&str, &str) = kind.as_strs();
    let mut label = name.to_owned();
    label.append(" (");
    label.append(prefix);
    label.append(unit);
    label.append(")");
    Pane {
        kind,
        label,
        signals,
        scale: Real { bits },
        low: r.0.sub(pad).div(Real { bits }),
        high: r.1.add(pad).div(Real { bits }),
    }
}

/// The kinds of signal that occur, in the order of the panes, among the first `k`.
pub open spec fn used_kinds(names: Seq<Seq<char>>, k: int) -> Seq<PaneKind> {
    let v = if k > 0 && pane_signals(names, PaneKind::Voltages, names.len() as int).len() > 0 {
        seq![PaneKind::Voltages]
    } else {
        Seq::empty()
    };
    let c = if k > 1 && pane_signals(names, PaneKind::Currents, names.len() as int).len() > 0 {
        seq![PaneKind::Currents]
    } else {
        Seq::empty()
    };
    let o = if k > 2 && pane_signals(names, PaneKind::Other, names.len() as int).len() > 0 {
        seq![PaneKind::Other]
    } else {
        Seq::empty()
    };
    v + c + o
}

pub open spec fn pane_kinds(s: Seq<Pane>) -> Seq<PaneKind> {
    s.map_values(|p: Pane| p.kind)
}

fn kind_at(k: usize) -> (res: PaneKind)
    ensures
        res == (if k == 0 {
            PaneKind::Voltages
        } else if k == 1 {
            PaneKind::Currents
        } else {
            PaneKind::Other
        }),
{
    if k == 0 {
        PaneKind::Voltages
    } else if k == 1 {
        PaneKind::Currents
    } else {
        PaneKind::Other
    }
}

fn panes_for(names: &Vec<String>, series: &Vec<Vec<Real>>) -> (panes: Vec<Pane>)
    requires
        names@.len() == series@.len(),
    ensures
        pane_kinds(panes@) == used_kinds(text::texts(names@), 3),
        panes@.len() <= 3,
        forall|i: int|
            0 <= i < panes@.len() ==> is_pane(#[trigger] panes@[i], text::texts(names@), series@),
{
    let mut panes: Vec<Pane> = Vec::new();
    let ghost ns = text::texts(names@);
    assert(ns.len() == names@.len());
    assert(pane_kinds(panes@) =~= used_kinds(ns, 0));
    let mut k: usize = 0;
    while k < 3
        invariant
            k <= 3,
            names@.len() == series@.len(),
            ns == text::texts(names@),
            ns.len() == names@.len(),
            panes@.len() <= k,
            pane_kinds(panes@) == used_kinds(ns, k as int),
            forall|i: int| 0 <= i < panes@.len() ==> is_pane(#[trigger] panes@[i], ns, series@),
        decreases 3 - k,
    {
        let p = pane_for(names, series, kind_at(k));
        let ghost before = panes@;
        let ghost kind = p.kind;
        if p.signals.len() > 0 {
            panes.push(p);
            assert(pane_kinds(panes@) =~= pane_kinds(before).push(kind));
        }
        assert(pane_kinds(panes@) =~= used_kinds(ns, k + 1));
        k = k + 1;
    }
    panes
}

/// Plans the plot of a waveform; none where there is nothing to show.
pub fn plan_plot(
    axis_name: &str,
    axis: &Vec<Real>,
    names: &Vec<String>,
    series: &Vec<Vec<Real>>,
) -> (res: Option<Plot>)
    requires
        names@.len() == series@.len(),
    ensures
        res is None <==> axis@.len() == 0 || series@.len() == 0,
        res matches Some(p) ==> {
            let (bits, unit) = axis_unit(axis_name@, axis_span(axis@));
            &&& p.x_scale == Real { bits }
            &&& p.x_label@ == axis_label(axis_name@, unit)
            &&& pane_kinds(p.panes@) == used_kinds(text::texts(names@), 3)
            &&& p.height == 280 + 220 * (if p.panes@.len() > 0 {
                p.panes@.len() - 1
            } else {
                0
            })
            &&& forall|i: int|
                0 <= i < p.panes@.len() ==> is_pane(
                    #[trigger] p.panes@[i],
                    text::texts(names@),
                    series@,
                )
        },
{
    if axis.len() == 0 || series.len() == 0 {
        return None;
    }
    let span = axis[axis.len() - 1].sub(axis[0]).abs().max(Real { bits: MIN_POSITIVE_BITS });
    let (bits, unit): (u64, &str) = axis_unit_of(axis_name, span);
    let mut x_label = axis_name.to_owned();
    x_label.append(" (");
    x_label.append(unit);
    x_label.append(")");
    let panes = panes_for(names, series);
    let extra: u32 = if panes.len() > 0 {
        (panes.len() - 1) as u32
    } else {
        0
    };
    Some(Plot { x_scale: Real { bits }, x_label, height: 280 + 220 * extra, panes })
}

/// The range of values holds every finite one of them and every one that it held before, and
/// reaches no farther than they do.
pub proof fn ranges_hold_their_values(r: (Real, Real), vs: Seq<Real>, n: int)
    requires
        0 <= n <= vs.len(),
        !r.0.nan(),
        !r.1.nan(),
    ensures
        ({
            let w = widened_by(r, vs, n);
            &&& !w.0.nan() && !w.1.nan()
            &&& w.0.rank() <= r.0.rank() && r.1.rank() <= w.1.rank()
            &&& forall|i: int|
                0 <= i < n && (#[trigger] vs[i]).finite() ==> w.0.rank() <= vs[i].rank()
                    && vs[i].rank() <= w.1.rank()
            &&& w.0 == r.0 || exists|i: int|
                0 <= i < n && (#[trigger] vs[i]).finite() && w.0 == vs[i]
            &&& w.1 == r.1 || exists|i: int|
                0 <= i < n && (#[trigger] vs[i]).finite() && w.1 == vs[i]
        }),
    decreases n,
{
    if n > 0 {
        ranges_hold_their_values(r, vs, n - 1);
        let before = widened_by(r, vs, n - 1);
        let w = widened_by(r, vs, n);
        let v = vs[n - 1];
        if w.0 != before.0 {
            assert(w.0 == vs[n - 1] && vs[n - 1].finite());
        }
        if w.1 != before.1 {
            assert(w.1 == vs[n - 1] && vs[n - 1].finite());
        }
    }
}

/// Signals named like voltages are shown in volts, those named like currents in amperes, and
/// others without a unit. A magnitude of a voltage is a voltage.
pub proof fn panes_go_by_name(lname: Seq<char>)
    ensures
        text::starts_with(lname, "v("@) ==> pane_by_lower_name(lname).unit() == "V"@,
        text::starts_with(lname, "|v("@) ==> pane_by_lower_name(lname).unit() == "V"@,
        !text::starts_with(lname, "v("@) && !text::starts_with(lname, "|v("@) && (
        text::starts_with(lname, "i("@) || text::ends_with(lname, "#branch"@))
            ==> pane_by_lower_name(lname).unit() == "A"@,
        !text::starts_with(lname, "v("@) && !text::starts_with(lname, "|v("@)
            && !text::starts_with(lname, "i("@) && !text::ends_with(lname, "#branch"@)
            ==> pane_by_lower_name(lname).unit() == ""@,
{
}

} // verus!
