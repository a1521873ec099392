//! Line charts of a trace, drawn as SVG.
//!
//! A chart is drawn over its marks: the ticks of its axes and, where the vertical axis is
//! logarithmic, the logarithms of the ticks and of the values. The logarithm and the powers
//! of ten by which they are found are the caller's.

use crate::double::{Real, INF_BITS, NAN_BITS};
use crate::numfmt;
use crate::sim_plot;
use crate::text;
use crate::trace;
use crate::trace::Trace;
use vstd::prelude::*;
use vstd::string::*;

verus! {

/// 1.
pub const ONE_BITS: u64 = 0x3ff0_0000_0000_0000;

/// 0.1.
pub const TENTH_BITS: u64 = 0x3fb9_9999_9999_999a;

/// 0.05.
pub const MARGIN_BITS: u64 = 0x3fa9_9999_9999_999a;

/// 1.5.
pub const STEP_ONE_BITS: u64 = 0x3ff8_0000_0000_0000;

/// 3.
pub const STEP_TWO_BITS: u64 = 0x4008_0000_0000_0000;

/// 7.
pub const STEP_FIVE_BITS: u64 = 0x401c_0000_0000_0000;

/// 2.
pub const TWO_BITS: u64 = 0x4000_0000_0000_0000;

/// 5.
pub const FIVE_BITS: u64 = 0x4014_0000_0000_0000;

/// 10.
pub const TEN_BITS: u64 = 0x4024_0000_0000_0000;

/// 1e-9.
pub const SLACK_BITS: u64 = 0x3e11_2e0b_e826_d695;

/// 0.999.
pub const JUST_BELOW_BITS: u64 = 0x3fef_f7ce_d916_872b;

/// 1.001.
pub const JUST_ABOVE_BITS: u64 = 0x3ff0_0418_9374_bc6a;

/// 80, the left edge of the plot.
pub const LEFT_BITS: u64 = 0x4054_0000_0000_0000;

/// 810, the width of the plot.
pub const WIDTH_BITS: u64 = 0x4089_5000_0000_0000;

/// 420, the lower edge of the plot.
pub const BOTTOM_BITS: u64 = 0x407a_4000_0000_0000;

/// 390, the height of the plot.
pub const HEIGHT_BITS: u64 = 0x4078_6000_0000_0000;

/// 1e-3.
pub const SMALL_BITS: u64 = 0x3f50_624d_d2f1_a9fc;

/// 1e4.
pub const LARGE_BITS: u64 = 0x40c3_8800_0000_0000;

/// 100.
pub const HUNDRED_BITS: u64 = 0x4059_0000_0000_0000;

// ── what a chart shows ─────────────────────────────────────────────

/// What a chart shows.
#[derive(Debug)]
pub enum ChartKind {
    /// Series of the trace over the same axis.
    Line,
    /// Two given curves, one before and one after.
    BeforeAfter {
        x_label: String,
        before_label: String,
        before: Vec<(Real, Real)>,
        after_label: String,
        after: Vec<(Real, Real)>,
    },
}

/// One series of the vertical axis.
#[derive(Debug)]
pub struct YSeries {
    /// Its name in the trace.
    pub series_name: String,
    /// Its name in the legend.
    pub label: String,
    /// Its colour; without one it takes its turn in the palette.
    pub color: Option<String>,
}

/// A chart to draw.
#[derive(Debug)]
pub struct ChartSpec {
    /// File name without ending.
    pub file_slug: String,
    pub title: String,
    pub x_label: String,
    pub y_label: String,
    /// The series on the horizontal axis; the step without one.
    pub x_series: Option<String>,
    pub y_series: Vec<YSeries>,
    pub log_y: bool,
    pub kind: ChartKind,
}

impl ChartSpec {
    pub fn line(file_slug: &str, title: &str, x_label: &str, y_label: &str) -> (res: Self)
        ensures
            res.file_slug@ == file_slug@,
            res.title@ == title@,
            res.x_label@ == x_label@,
            res.y_label@ == y_label@,
            res.x_series is None,
            res.y_series@.len() == 0,
            !res.log_y,
            res.kind is Line,
    {
        ChartSpec {
            file_slug: file_slug.to_owned(),
            title: title.to_owned(),
            x_label: x_label.to_owned(),
            y_label: y_label.to_owned(),
            x_series: None,
            y_series: Vec::new(),
            log_y: false,
            kind: ChartKind::Line,
        }
    }

    /// The chart with one more series, in the palette's colour.
    pub fn add_series(self, series_name: &str, label: &str) -> (res: Self)
        ensures
            res == (ChartSpec { y_series: res.y_series, ..self }),
            res.y_series@.len() == self.y_series@.len() + 1,
            res.y_series@.drop_last() == self.y_series@,
            res.y_series@.last().series_name@ == series_name@,
            res.y_series@.last().label@ == label@,
            res.y_series@.last().color is None,
    {
        let mut s = self;
        s.y_series.push(
            YSeries { series_name: series_name.to_owned(), label: label.to_owned(), color: None },
        );
        assert(s.y_series@.drop_last() =~= self.y_series@);
        s
    }

    /// The chart with one more series, in a colour of its own.
    pub fn add_colored_series(self, series_name: &str, label: &str, color: &str) -> (res: Self)
        ensures
            res == (ChartSpec { y_series: res.y_series, ..self }),
            res.y_series@.len() == self.y_series@.len() + 1,
            res.y_series@.drop_last() == self.y_series@,
            res.y_series@.last().series_name@ == series_name@,
            res.y_series@.last().label@ == label@,
            res.y_series@.last().color matches Some(c) && c@ == color@,
    {
        let mut s = self;
        s.y_series.push(
            YSeries {
                series_name: series_name.to_owned(),
                label: label.to_owned(),
                color: Some(color.to_owned()),
            },
        );
        assert(s.y_series@.drop_last() =~= self.y_series@);
        s
    }

    pub fn with_y_log(self, log_y: bool) -> (res: Self)
        ensures
            res == (ChartSpec { log_y, ..self }),
    {
        let mut s = self;
        s.log_y = log_y;
        s
    }

    pub fn with_x_series(self, name: &str) -> (res: Self)
        ensures
            res == (ChartSpec { x_series: res.x_series, ..self }),
            res.x_series matches Some(n) && n@ == name@,
    {
        let mut s = self;
        s.x_series = Some(name.to_owned());
        s
    }

    pub fn before_after(
        file_slug: &str,
        title: &str,
        x_label: &str,
        y_label: &str,
        before_label: &str,
        before: Vec<(Real, Real)>,
        after_label: &str,
        after: Vec<(Real, Real)>,
    ) -> (res: Self)
        ensures
            res.file_slug@ == file_slug@,
            res.title@ == title@,
            res.x_label@ == x_label@,
            res.y_label@ == y_label@,
            res.x_series is None,
            res.y_series@.len() == 0,
            !res.log_y,
            res.kind matches ChartKind::BeforeAfter {
                x_label: xl,
                before_label: bl,
                before: b,
                after_label: al,
                after: a,
            } && xl@ == x_label@ && bl@ == before_label@ && b == before && al@ == after_label@ && a
                == after,
    {
        ChartSpec {
            file_slug: file_slug.to_owned(),
            title: title.to_owned(),
            x_label: x_label.to_owned(),
            y_label: y_label.to_owned(),
            x_series: None,
            y_series: Vec::new(),
            log_y: false,
            kind: ChartKind::BeforeAfter {
                x_label: x_label.to_owned(),
                before_label: before_label.to_owned(),
                before,
                after_label: after_label.to_owned(),
                after,
            },
        }
    }
}

/// One curve of a chart.
#[derive(Debug)]
pub struct Curve {
    pub xs: Vec<Real>,
    pub ys: Vec<Real>,
    pub label: String,
    pub color: String,
}

#[verifier::ext_equal]
pub struct CurveModel {
    pub xs: Seq<Real>,
    pub ys: Seq<Real>,
    pub label: Seq<char>,
    pub color: Seq<char>,
}

impl Curve {
    pub open spec fn model(self) -> CurveModel {
        CurveModel { xs: self.xs@, ys: self.ys@, label: self.label@, color: self.color@ }
    }
}

pub open spec fn curve_models(s: Seq<Curve>) -> Seq<CurveModel> {
    s.map_values(|c: Curve| c.model())
}

/// The `i`-th colour of the palette.
pub open spec fn palette(i: int) -> Seq<char> {
    let k = i % 8;
    if k == 0 {
        "#1f77b4"@
    } else if k == 1 {
        "#d62728"@
    } else if k == 2 {
        "#2ca02c"@
    } else if k == 3 {
        "#9467bd"@
    } else if k == 4 {
        "#ff7f0e"@
    } else if k == 5 {
        "#8c564b"@
    } else if k == 6 {
        "#e377c2"@
    } else {
        "#17becf"@
    }
}

fn palette_at(i: usize) -> (res: &'static str)
    ensures
        res@ == palette(i as int),
{
    let k: usize = i % 8;
    if k == 0 {
        "#1f77b4"
    } else if k == 1 {
        "#d62728"
    } else if k == 2 {
        "#2ca02c"
    } else if k == 3 {
        "#9467bd"
    } else if k == 4 {
        "#ff7f0e"
    } else if k == 5 {
        "#8c564b"
    } else if k == 6 {
        "#e377c2"
    } else {
        "#17becf"
    }
}

/// The numbers on the horizontal axis of a line chart.
pub open spec fn line_xs(spec: ChartSpec, t: Trace) -> Seq<Real> {
    match spec.x_series {
        Some(n) => t.column(n@),
        None => t.steps(),
    }
}

/// The `i`-th curve of a line chart.
pub open spec fn line_curve(spec: ChartSpec, t: Trace, i: int) -> CurveModel {
    let y = spec.y_series@[i];
    CurveModel {
        xs: line_xs(spec, t),
        ys: t.column(y.series_name@),
        label: y.label@,
        color: match y.color {
            Some(c) => c@,
            None => palette(i),
        },
    }
}

/// First coordinates.
pub open spec fn firsts(s: Seq<(Real, Real)>) -> Seq<Real> {
    s.map_values(|p: (Real, Real)| p.0)
}

/// Second coordinates.
pub open spec fn seconds(s: Seq<(Real, Real)>) -> Seq<Real> {
    s.map_values(|p: (Real, Real)| p.1)
}

/// The curves of a chart.
pub open spec fn chart_curves(spec: ChartSpec, t: Trace) -> Seq<CurveModel> {
    match spec.kind {
        ChartKind::Line => Seq::new(spec.y_series@.len(), |i: int| line_curve(spec, t, i)),
        ChartKind::BeforeAfter { x_label, before_label, before, after_label, after } => seq![
            CurveModel {
                xs: firsts(before@),
                ys: seconds(before@),
                label: before_label@,
                color: "#d62728"@,
            },
            CurveModel {
                xs: firsts(after@),
                ys: seconds(after@),
                label: after_label@,
                color: "#1f77b4"@,
            },
        ],
    }
}

fn unzip(v: &Vec<(Real, Real)>) -> (res: (Vec<Real>, Vec<Real>))
    ensures
        res.0@ == firsts(v@),
        res.1@ == seconds(v@),
{
    let mut xs: Vec<Real> = Vec::new();
    let mut ys: Vec<Real> = Vec::new();
    let mut i: usize = 0;
    while i < v.len()
        invariant
            i <= v.len(),
            xs@ =~= firsts(v@).take(i as int),
            ys@ =~= seconds(v@).take(i as int),
        decreases v.len() - i,
    {
        xs.push(v[i].0);
        ys.push(v[i].1);
        i = i + 1;
    }
    assert(xs@ =~= firsts(v@));
    assert(ys@ =~= seconds(v@));
    (xs, ys)
}

fn line_curves(spec: &ChartSpec, t: &Trace) -> (res: Vec<Curve>)
    requires
        spec.kind is Line,
    ensures
        curve_models(res@) == chart_curves(*spec, *t),
{
    let mut out: Vec<Curve> = Vec::new();
    let mut i: usize = 0;
    while i < spec.y_series.len()
        invariant
            i <= spec.y_series.len(),
            spec.kind is Line,
            curve_models(out@) =~= chart_curves(*spec, *t).take(i as int),
        decreases spec.y_series.len() - i,
    {
        let y: &YSeries = &spec.y_series[i];
        let xs = match &spec.x_series {
            Some(n) => t.column_of(n.as_str()),
            None => t.step_numbers(),
        };
        let color = match &y.color {
            Some(c) => c.clone(),
            None => palette_at(i).to_owned(),
        };
        let ghost before = out@;
        out.push(
            Curve { xs, ys: t.column_of(y.series_name.as_str()), label: y.label.clone(), color },
        );
        assert(out@.last().model() =~= line_curve(*spec, *t, i as int));
        assert(curve_models(out@) =~= curve_models(before).push(out@.last().model()));
        i = i + 1;
    }
    assert(curve_models(out@) =~= chart_curves(*spec, *t));
    out
}

/// Collects the curves of a chart.
pub fn curves_of(spec: &ChartSpec, t: &Trace) -> (res: Vec<Curve>)
    ensures
        curve_models(res@) == chart_curves(*spec, *t),
        forall|i: int|
            0 <= i < res@.len() ==> (#[trigger] res@[i]).xs@.len() == res@[i].ys@.len(),
{
    match &spec.kind {
        ChartKind::Line => {
            let out = line_curves(spec, t);
            assert(curve_models(out@).len() == out@.len());
            assert forall|i: int| 0 <= i < out@.len() implies (#[trigger] out@[i]).xs@.len()
                == out@[i].ys@.len() by {
                assert(curve_models(out@)[i] == out@[i].model());
                assert(chart_curves(*spec, *t)[i] == line_curve(*spec, *t, i));
            }
            out
        },
        ChartKind::BeforeAfter { x_label, before_label, before, after_label, after } => {
            let (xs, ys): (Vec<Real>, Vec<Real>) = unzip(before);
            let mut out: Vec<Curve> = Vec::new();
            out.push(
                Curve { xs, ys, label: before_label.clone(), color: "#d62728".to_owned() },
            );
            let (xs, ys): (Vec<Real>, Vec<Real>) = unzip(after);
            out.push(Curve { xs, ys, label: after_label.clone(), color: "#1f77b4".to_owned() });
            assert(curve_models(out@) =~= chart_curves(*spec, *t));
            out
        },
    }
}

// ── ranges ─────────────────────────────────────────────────────────

/// The ranges that a chart shows.
#[derive(Debug, Clone, Copy, PartialEq, Eq, Structural)]
pub struct Frame {
    pub x_min: Real,
    pub x_max: Real,
    pub y_min: Real,
    pub y_max: Real,
}

/// Whether a value has a place on the vertical axis.
pub open spec fn has_place(v: Real, log_y: bool) -> bool {
    v.finite() && !(log_y && v.at_most(Real { bits: 0 }))
}

/// Least and greatest of the first `n` values that have a place on the axis.
pub open spec fn value_range(vs: Seq<Real>, log_y: bool, n: int) -> (Real, Real)
    decreases n,
{
    if n <= 0 {
        sim_plot::no_range()
    } else {
        let r = value_range(vs, log_y, n - 1);
        if has_place(vs[n - 1], log_y) {
            sim_plot::widened(r, vs[n - 1])
        } else {
            r
        }
    }
}

fn value_range_of(vs: &Vec<Real>, log_y: bool) -> (res: (Real, Real))
    ensures
        res == value_range(vs@, log_y, vs@.len() as int),
{
    let mut lo = Real { bits: INF_BITS };
    let mut hi = (Real { bits: INF_BITS }).neg();
    let mut i: usize = 0;
    while i < vs.len()
        invariant
            i <= vs.len(),
            (lo, hi) == value_range(vs@, log_y, i as int),
        decreases vs.len() - i,
    {
        let v = vs[i];
        if v.is_finite() && !(log_y && v.le(Real { bits: 0 })) {
            if v.lt(lo) {
                lo = v;
            }
            if hi.lt(v) {
                hi = v;
            }
        }
        i = i + 1;
    }
    (lo, hi)
}

/// The smallest range that holds two ranges.
pub open spec fn joined_range(r: (Real, Real), s: (Real, Real)) -> (Real, Real) {
    (
        if s.0.below(r.0) {
            s.0
        } else {
            r.0
        },
        if r.1.below(s.1) {
            s.1
        } else {
            r.1
        },
    )
}

fn join_ranges(r: (Real, Real), s: (Real, Real)) -> (res: (Real, Real))
    ensures
        res == joined_range(r, s),
{
    (
        if s.0.lt(r.0) {
            s.0
        } else {
            r.0
        },
        if r.1.lt(s.1) {
            s.1
        } else {
            r.1
        },
    )
}

/// The range of the first `n` curves on the vertical axis.
pub open spec fn curves_y_range(cs: Seq<CurveModel>, log_y: bool, n: int) -> (Real, Real)
    decreases n,
{
    if n <= 0 {
        sim_plot::no_range()
    } else {
        joined_range(
            curves_y_range(cs, log_y, n - 1),
            value_range(cs[n - 1].ys, log_y, cs[n - 1].ys.len() as int),
        )
    }
}

/// The range of the first `n` curves on the horizontal axis.
pub open spec fn curves_x_range(cs: Seq<CurveModel>, n: int) -> (Real, Real)
    decreases n,
{
    if n <= 0 {
        sim_plot::no_range()
    } else {
        joined_range(
            curves_x_range(cs, n - 1),
            value_range(cs[n - 1].xs, false, cs[n - 1].xs.len() as int),
        )
    }
}

fn curve_ranges(cs: &Vec<Curve>, log_y: bool) -> (res: ((Real, Real), (Real, Real)))
    ensures
        res.0 == curves_x_range(curve_models(cs@), cs@.len() as int),
        res.1 == curves_y_range(curve_models(cs@), log_y, cs@.len() as int),
{
    let mut x: (Real, Real) = (Real { bits: INF_BITS }, (Real { bits: INF_BITS }).neg());
    let mut y: (Real, Real) = (Real { bits: INF_BITS }, (Real { bits: INF_BITS }).neg());
    let mut i: usize = 0;
    while i < cs.len()
        invariant
            i <= cs.len(),
            x == curves_x_range(curve_models(cs@), i as int),
            y == curves_y_range(curve_models(cs@), log_y, i as int),
        decreases cs.len() - i,
    {
        assert(curve_models(cs@)[i as int] == cs@[i as int].model());
        x = join_ranges(x, value_range_of(&cs[i].xs, false));
        y = join_ranges(y, value_range_of(&cs[i].ys, log_y));
        i = i + 1;
    }
    (x, y)
}

/// Whether two numbers are equal.
pub open spec fn equal(a: Real, b: Real) -> bool {
    a.at_most(b) && b.at_most(a)
}

/// A range with some room on both sides.
pub open spec fn padded(lo: Real, hi: Real) -> (Real, Real) {
    if equal(lo, hi) {
        let pad = if lo.magnitude() == 0 {
            Real { bits: ONE_BITS }
        } else {
            lo.abs_spec().mul_spec(Real { bits: TENTH_BITS })
        };
        (lo.sub_spec(pad), hi.add_spec(pad))
    } else {
        let pad = (Real { bits: MARGIN_BITS }).mul_spec(hi.sub_spec(lo));
        (lo.sub_spec(pad), hi.add_spec(pad))
    }
}

fn pad_range(lo: Real, hi: Real) -> (res: (Real, Real))
    ensures
        res == padded(lo, hi),
{
    if lo.le(hi) && hi.le(lo) {
        let pad = if lo.abs().to_bits() == 0 {
            Real { bits: ONE_BITS }
        } else {
            lo.abs().mul(Real { bits: TENTH_BITS })
        };
        (lo.sub(pad), hi.add(pad))
    } else {
        let pad = (Real { bits: MARGIN_BITS }).mul(hi.sub(lo));
        (lo.sub(pad), hi.add(pad))
    }
}

/// Whether there is nothing to draw: no curve, a line chart without rows or
/// without a value that has a place, or two curves without points.
pub open spec fn nothing_to_draw(kind: ChartKind, cs: Seq<CurveModel>, log_y: bool) -> bool {
    match kind {
        ChartKind::Line => {
            let y = curves_y_range(cs, log_y, cs.len() as int);
            cs.len() == 0 || cs[0].xs.len() == 0 || !y.0.finite() || !y.1.finite()
        },
        ChartKind::BeforeAfter { .. } => cs[0].xs.len() == 0 && cs[1].xs.len() == 0,
    }
}

/// The ranges that a chart shows; none where there is nothing to draw.
pub open spec fn chart_frame(kind: ChartKind, cs: Seq<CurveModel>, log_y: bool) -> Option<Frame> {
    if nothing_to_draw(kind, cs, log_y) {
        None
    } else {
        let x = match kind {
            ChartKind::Line => value_range(cs[0].xs, false, cs[0].xs.len() as int),
            ChartKind::BeforeAfter { .. } => curves_x_range(cs, cs.len() as int),
        };
        let y = curves_y_range(cs, log_y, cs.len() as int);
        let (y_min, y_max) = padded(y.0, y.1);
        Some(Frame { x_min: x.0, x_max: x.1, y_min, y_max })
    }
}

fn frame_for(kind: &ChartKind, cs: &Vec<Curve>, log_y: bool) -> (res: Option<Frame>)
    requires
        kind is BeforeAfter ==> cs@.len() == 2,
    ensures
        res == chart_frame(*kind, curve_models(cs@), log_y),
{
    let ghost ms = curve_models(cs@);
    assert(forall|i: int| 0 <= i < cs@.len() ==> ms[i] == (#[trigger] cs@[i]).model());
    let (x, y): ((Real, Real), (Real, Real)) = curve_ranges(cs, log_y);
    let x: (Real, Real) = match kind {
        ChartKind::Line => {
            if cs.len() == 0 || cs[0].xs.len() == 0 || !y.0.is_finite() || !y.1.is_finite() {
                return None;
            }
            value_range_of(&cs[0].xs, false)
        },
        ChartKind::BeforeAfter { .. } => {
            if cs[0].xs.len() == 0 && cs[1].xs.len() == 0 {
                return None;
            }
            x
        },
    };
    let (y_min, y_max): (Real, Real) = pad_range(y.0, y.1);
    Some(Frame { x_min: x.0, x_max: x.1, y_min, y_max })
}

// ── ticks ──────────────────────────────────────────────────────────

/// Distance of the ticks before it is rounded.
pub open spec fn raw_step(lo: Real, hi: Real, target: u64) -> Real {
    hi.sub_spec(lo).div_spec(
        Real::of_nat(target as nat).max_spec(Real { bits: ONE_BITS }),
    )
}

pub fn raw_step_of(lo: Real, hi: Real, target: u64) -> (res: Real)
    ensures
        res == raw_step(lo, hi, target),
{
    hi.sub(lo).div(Real::from_u64(target).max(Real { bits: ONE_BITS }))
}

/// Distance of the ticks: one, two, five or ten times the decade `mag`.
pub open spec fn nice_step(raw: Real, mag: Real) -> Real {
    let norm = raw.div_spec(mag);
    mag.mul_spec(
        if norm.below(Real { bits: STEP_ONE_BITS }) {
            Real { bits: ONE_BITS }
        } else if norm.below(Real { bits: STEP_TWO_BITS }) {
            Real { bits: TWO_BITS }
        } else if norm.below(Real { bits: STEP_FIVE_BITS }) {
            Real { bits: FIVE_BITS }
        } else {
            Real { bits: TEN_BITS }
        },
    )
}

fn nice_step_of(raw: Real, mag: Real) -> (res: Real)
    ensures
        res == nice_step(raw, mag),
{
    let norm = raw.div(mag);
    mag.mul(
        if norm.lt(Real { bits: STEP_ONE_BITS }) {
            Real { bits: ONE_BITS }
        } else if norm.lt(Real { bits: STEP_TWO_BITS }) {
            Real { bits: TWO_BITS }
        } else if norm.lt(Real { bits: STEP_FIVE_BITS }) {
            Real { bits: FIVE_BITS }
        } else {
            Real { bits: TEN_BITS }
        },
    )
}

/// The ticks from `t` on, up to `bound`. A distance too small to lead on from a tick
/// ends them there.
pub open spec fn ticks_from(t: Real, step: Real, bound: Real) -> Seq<Real>
    decreases INF_BITS - t.rank(),
{
    if !t.at_most(bound) {
        Seq::empty()
    } else if t.below(t.add_spec(step)) {
        seq![t] + ticks_from(t.add_spec(step), step, bound)
    } else {
        seq![t]
    }
}

/// The ticks of a linear axis, where `mag` is the power of ten at or below the
/// distance before rounding; both ends of a range that has no extent.
pub open spec fn linear_ticks(lo: Real, hi: Real, target: u64, mag: Real) -> Seq<Real> {
    if !lo.finite() || !hi.finite() || hi.at_most(lo) {
        seq![lo, hi]
    } else {
        let step = nice_step(raw_step(lo, hi, target), mag);
        ticks_from(
            lo.div_spec(step).ceil_spec().mul_spec(step),
            step,
            hi.add_spec(step.mul_spec(Real { bits: SLACK_BITS })),
        )
    }
}

/// Lists the ticks of a linear axis.
pub fn nice_ticks(lo: Real, hi: Real, target: u64, mag: Real) -> (res: Vec<Real>)
    ensures
        res@ == linear_ticks(lo, hi, target, mag),
{
    let mut out: Vec<Real> = Vec::new();
    if !lo.is_finite() || !hi.is_finite() || hi.le(lo) {
        out.push(lo);
        out.push(hi);
        assert(out@ =~= seq![lo, hi]);
        return out;
    }
    let step = nice_step_of(raw_step_of(lo, hi, target), mag);
    let bound = hi.add(step.mul(Real { bits: SLACK_BITS }));
    let mut t = lo.div(step).ceil().mul(step);
    let ghost start = t;
    assert(out@ + ticks_from(t, step, bound) =~= ticks_from(start, step, bound));
    while t.le(bound)
        invariant
            out@ + ticks_from(t, step, bound) == ticks_from(start, step, bound),
            linear_ticks(lo, hi, target, mag) == ticks_from(start, step, bound),
        decreases INF_BITS - t.rank(),
    {
        let ghost before = out@;
        out.push(t);
        let next = t.add(step);
        if !t.lt(next) {
            assert(out@ =~= before + seq![t]);
            return out;
        }
        assert(before + (seq![t] + ticks_from(next, step, bound)) =~= out@ + ticks_from(
            next,
            step,
            bound,
        ));
        t = next;
    }
    assert(out@ + ticks_from(t, step, bound) =~= out@);
    out
}

/// Whether a decade is shown on a logarithmic axis.
pub open spec fn decade_shows(v: Real, lo: Real, hi: Real) -> bool {
    lo.mul_spec(Real { bits: JUST_BELOW_BITS }).at_most(v) && v.at_most(
        hi.mul_spec(Real { bits: JUST_ABOVE_BITS }),
    )
}

/// The first `n` decades, those that show.
pub open spec fn shown_decades(decades: Seq<Real>, lo: Real, hi: Real, n: int) -> Seq<Real>
    decreases n,
{
    if n <= 0 {
        Seq::empty()
    } else if decade_shows(decades[n - 1], lo, hi) {
        shown_decades(decades, lo, hi, n - 1).push(decades[n - 1])
    } else {
        shown_decades(decades, lo, hi, n - 1)
    }
}

/// A number at a tick.
pub open spec fn tick_label(v: Real) -> Seq<char> {
    if v.magnitude() == 0 {
        "0"@
    } else if v.abs_spec().below(Real { bits: SMALL_BITS }) || (Real { bits: LARGE_BITS }).at_most(
        v.abs_spec(),
    ) {
        numfmt::scientific(v, 2)
    } else if (Real { bits: HUNDRED_BITS }).at_most(v.abs_spec()) {
        numfmt::fixed(v, 0, false)
    } else {
        numfmt::fixed(v, 3, false)
    }
}

fn format_tick(v: Real) -> (res: String)
    ensures
        res@ == tick_label(v),
{
    if v.abs().to_bits() == 0 {
        "0".to_owned()
    } else if v.abs().lt(Real { bits: SMALL_BITS }) || (Real { bits: LARGE_BITS }).le(v.abs()) {
        numfmt::to_scientific(v, 2)
    } else if (Real { bits: HUNDRED_BITS }).le(v.abs()) {
        numfmt::to_fixed(v, 0, false)
    } else {
        numfmt::to_fixed(v, 3, false)
    }
}

// ── text in a drawing ──────────────────────────────────────────────

/// A character in a form that XML shows as it is.
pub open spec fn xml_char(c: char) -> Seq<char> {
    if c == '&' {
        "&amp;"@
    } else if c == '<' {
        "&lt;"@
    } else if c == '>' {
        "&gt;"@
    } else if c == '"' {
        "&quot;"@
    } else {
        seq![c]
    }
}

/// A text in a form that XML shows as it is.
pub open spec fn xml_text(s: Seq<char>) -> Seq<char>
    decreases s.len(),
{
    if s.len() == 0 {
        Seq::empty()
    } else {
        xml_text(s.drop_last()) + xml_char(s.last())
    }
}

/// Escapes a text for XML.
pub fn escape_xml(s: &str) -> (res: String)
    ensures
        res@ == xml_text(s@),
{
    let v = text::chars_of(s);
    let mut out = String::new();
    let mut i: usize = 0;
    assert(v@.take(0) =~= Seq::empty());
    while i < v.len()
        invariant
            i <= v.len(),
            v@ == s@,
            out@ == xml_text(v@.take(i as int)),
        decreases v.len() - i,
    {
        let c: char = v[i];
        let ghost before = out@;
        if c == '&' {
            out.append("&amp;");
        } else if c == '<' {
            out.append("&lt;");
        } else if c == '>' {
            out.append("&gt;");
        } else if c == '"' {
            out.append("&quot;");
        } else {
            out.push(c);
            assert(out@ =~= before + seq![c]);
        }
        i = i + 1;
        assert(v@.take(i as int).drop_last() =~= v@.take(i - 1));
    }
    assert(v@.take(v@.len() as int) =~= v@);
    out
}

/// Escaped text can neither open a tag nor end an attribute.
pub proof fn xml_text_is_inert(s: Seq<char>, i: int)
    requires
        0 <= i < xml_text(s).len(),
    ensures
        xml_text(s)[i] != '<',
        xml_text(s)[i] != '>',
        xml_text(s)[i] != '"',
    decreases s.len(),
{
    if s.len() > 0 {
        reveal_strlit("&amp;");
        reveal_strlit("&lt;");
        reveal_strlit("&gt;");
        reveal_strlit("&quot;");
        let n = xml_text(s.drop_last()).len() as int;
        if i < n {
            xml_text_is_inert(s.drop_last(), i);
        } else {
            assert(xml_text(s)[i] == xml_char(s.last())[i - n]);
        }
    }
}

/// Two digits after the point.
pub open spec fn two_digits(v: Real) -> Seq<char> {
    numfmt::fixed(v, 2, false)
}

fn two_digit_str(v: Real) -> (res: String)
    ensures
        res@ == two_digits(v),
{
    numfmt::to_fixed(v, 2, false)
}

// ── drawing ────────────────────────────────────────────────────────

/// Logarithms on a logarithmic axis: of its ends, of its ticks, and of every value.
#[derive(Debug)]
pub struct LogScale {
    pub low: Real,
    pub high: Real,
    pub ticks: Vec<Real>,
    pub values: Vec<Vec<Real>>,
}

/// The marks over which a chart is drawn.
#[derive(Debug)]
pub struct Marks {
    pub x_ticks: Vec<Real>,
    pub y_ticks: Vec<Real>,
    /// Present on a logarithmic axis.
    pub log: Option<LogScale>,
}

/// Whether the marks belong to the curves: they hold a logarithm for each tick and
/// each value, if the vertical axis is logarithmic.
pub open spec fn marks_fit(m: Marks, cs: Seq<CurveModel>, log_y: bool) -> bool {
    match m.log {
        None => !log_y,
        Some(l) => log_y && l.ticks@.len() == m.y_ticks@.len() && l.values@.len() == cs.len()
            && forall|i: int|
            0 <= i < cs.len() ==> (#[trigger] l.values@[i])@.len() == cs[i].ys.len(),
    }
}

/// Horizontal position of a number.
pub open spec fn x_position(x: Real, f: Frame) -> Real {
    (Real { bits: LEFT_BITS }).add_spec(
        x.sub_spec(f.x_min).div_spec(f.x_max.sub_spec(f.x_min)).mul_spec(
            Real { bits: WIDTH_BITS },
        ),
    )
}

fn x_position_of(x: Real, f: Frame) -> (res: Real)
    ensures
        res == x_position(x, f),
{
    (Real { bits: LEFT_BITS }).add(
        x.sub(f.x_min).div(f.x_max.sub(f.x_min)).mul(Real { bits: WIDTH_BITS }),
    )
}

/// Vertical position of what lies at a fraction of the height.
pub open spec fn y_position(fraction: Real) -> Real {
    (Real { bits: BOTTOM_BITS }).sub_spec(fraction.mul_spec(Real { bits: HEIGHT_BITS }))
}

/// How far up a number lies.
pub open spec fn fraction(v: Real, lo: Real, hi: Real) -> Real {
    v.sub_spec(lo).div_spec(hi.sub_spec(lo))
}

fn y_position_of(v: Real, lo: Real, hi: Real) -> (res: Real)
    ensures
        res == y_position(fraction(v, lo, hi)),
{
    (Real { bits: BOTTOM_BITS }).sub(
        v.sub(lo).div(hi.sub(lo)).mul(Real { bits: HEIGHT_BITS }),
    )
}

/// Vertical position of the `k`-th tick.
pub open spec fn tick_position(m: Marks, f: Frame, k: int) -> Real {
    match m.log {
        None => y_position(fraction(m.y_ticks@[k], f.y_min, f.y_max)),
        Some(l) => y_position(fraction(l.ticks@[k], l.low, l.high)),
    }
}

/// Vertical position of the `j`-th value of the `i`-th curve; not a number where the
/// value has none.
pub open spec fn value_position(m: Marks, f: Frame, y: Real, i: int, j: int) -> Real {
    match m.log {
        None => y_position(fraction(y, f.y_min, f.y_max)),
        Some(l) => if y.at_most(Real { bits: 0 }) {
            Real { bits: NAN_BITS }
        } else {
            y_position(fraction(l.values@[i]@[j], l.low, l.high))
        },
    }
}

fn value_position_of(m: &Marks, f: Frame, y: Real, i: usize, j: usize) -> (res: Real)
    requires
        m.log matches Some(l) ==> i < l.values@.len() && j < l.values@[i as int]@.len(),
    ensures
        res == value_position(*m, f, y, i as int, j as int),
{
    match &m.log {
        None => y_position_of(y, f.y_min, f.y_max),
        Some(l) => {
            if y.le(Real { bits: 0 }) {
                Real { bits: NAN_BITS }
            } else {
                y_position_of(l.values[i][j], l.low, l.high)
            }
        },
    }
}

/// The outline of the first `n` points of the `i`-th curve, and whether it has
/// begun. Points without a vertical position are left out.
pub open spec fn outline(c: CurveModel, m: Marks, f: Frame, i: int, n: int) -> (Seq<char>, bool)
    decreases n,
{
    if n <= 0 {
        ("M"@, false)
    } else {
        let (path, begun) = outline(c, m, f, i, n - 1);
        let py = value_position(m, f, c.ys[n - 1], i, n - 1);
        let px = x_position(c.xs[n - 1], f);
        if !py.finite() {
            (path, begun)
        } else if begun {
            (path + " L"@ + two_digits(px) + ","@ + two_digits(py), true)
        } else {
            (path + two_digits(px) + ","@ + two_digits(py), true)
        }
    }
}

fn outline_of(c: &Curve, m: &Marks, f: Frame, i: usize) -> (res: String)
    requires
        c.xs@.len() == c.ys@.len(),
        m.log matches Some(l) ==> i < l.values@.len() && l.values@[i as int]@.len()
            == c.ys@.len(),
    ensures
        res@ == outline(c.model(), *m, f, i as int, c.ys@.len() as int).0,
{
    let mut path = "M".to_owned();
    let mut begun: bool = false;
    let mut n: usize = 0;
    while n < c.ys.len()
        invariant
            n <= c.ys.len(),
            c.xs@.len() == c.ys@.len(),
            m.log matches Some(l) ==> i < l.values@.len() && l.values@[i as int]@.len()
                == c.ys@.len(),
            (path@, begun) == outline(c.model(), *m, f, i as int, n as int),
        decreases c.ys.len() - n,
    {
        let px = x_position_of(c.xs[n], f);
        let py = value_position_of(m, f, c.ys[n], i, n);
        if py.is_finite() {
            if begun {
                path.append(" L");
            }
            path.append(two_digit_str(px).as_str());
            path.append(",");
            path.append(two_digit_str(py).as_str());
            begun = true;
        }
        n = n + 1;
    }
    path
}

/// One curve.
pub open spec fn curve_text(c: CurveModel, m: Marks, f: Frame, i: int) -> Seq<char> {
    "<path d=\""@ + outline(c, m, f, i, c.ys.len() as int).0 + "\" fill=\"none\" stroke=\""@
        + c.color + "\" stroke-width=\"2\"/>\n"@
}

fn curve(c: &Curve, m: &Marks, f: Frame, i: usize) -> (res: String)
    requires
        c.xs@.len() == c.ys@.len(),
        m.log matches Some(l) ==> i < l.values@.len() && l.values@[i as int]@.len()
            == c.ys@.len(),
    ensures
        res@ == curve_text(c.model(), *m, f, i as int),
{
    let mut s = "<path d=\"".to_owned();
    s.append(outline_of(c, m, f, i).as_str());
    s.append("\" fill=\"none\" stroke=\"");
    s.append(c.color.as_str());
    s.append("\" stroke-width=\"2\"/>\n");
    s
}

/// The first `n` curves.
pub open spec fn curves_text(cs: Seq<CurveModel>, m: Marks, f: Frame, n: int) -> Seq<char>
    decreases n,
{
    if n <= 0 {
        Seq::empty()
    } else {
        curves_text(cs, m, f, n - 1) + curve_text(cs[n - 1], m, f, n - 1)
    }
}

fn curves(cs: &Vec<Curve>, m: &Marks, f: Frame) -> (res: String)
    requires
        marks_fit(*m, curve_models(cs@), m.log is Some),
        forall|i: int| 0 <= i < cs@.len() ==> (#[trigger] cs@[i]).xs@.len() == cs@[i].ys@.len(),
    ensures
        res@ == curves_text(curve_models(cs@), *m, f, cs@.len() as int),
{
    let mut s = String::new();
    let mut i: usize = 0;
    while i < cs.len()
        invariant
            i <= cs.len(),
            marks_fit(*m, curve_models(cs@), m.log is Some),
            forall|i: int| 0 <= i < cs@.len() ==> (#[trigger] cs@[i]).xs@.len() == cs@[i].ys@.len(),
            s@ == curves_text(curve_models(cs@), *m, f, i as int),
        decreases cs.len() - i,
    {
        assert(curve_models(cs@)[i as int] == cs@[i as int].model());
        s.append(curve(&cs[i], m, f, i).as_str());
        i = i + 1;
    }
    s
}

/// One tick of the horizontal axis, with its grid line.
pub open spec fn x_tick_text(t: Real, f: Frame) -> Seq<char> {
    "<line x1=\""@ + two_digits(x_position(t, f)) + "\" y1=\"30\" x2=\""@
        + two_digits(x_position(t, f))
        + "\" y2=\"420\" stroke=\"#e0e0e0\" stroke-width=\"0.5\"/>\n<text x=\""@
        + two_digits(x_position(t, f)) + "\" y=\"436\" text-anchor=\"middle\" fill=\"#444\">"@
        + tick_label(t) + "</text>\n"@
}

fn x_tick(t: Real, f: Frame) -> (res: String)
    ensures
        res@ == x_tick_text(t, f),
{
    let px = two_digit_str(x_position_of(t, f));
    let mut s = "<line x1=\"".to_owned();
    s.append(px.as_str());
    s.append("\" y1=\"30\" x2=\"");
    s.append(px.as_str());
    s.append("\" y2=\"420\" stroke=\"#e0e0e0\" stroke-width=\"0.5\"/>\n<text x=\"");
    s.append(px.as_str());
    s.append("\" y=\"436\" text-anchor=\"middle\" fill=\"#444\">");
    s.append(format_tick(t).as_str());
    s.append("</text>\n");
    s
}

/// The first `n` ticks of the horizontal axis.
pub open spec fn x_ticks_text(ts: Seq<Real>, f: Frame, n: int) -> Seq<char>
    decreases n,
{
    if n <= 0 {
        Seq::empty()
    } else {
        x_ticks_text(ts, f, n - 1) + x_tick_text(ts[n - 1], f)
    }
}

fn x_ticks(ts: &Vec<Real>, f: Frame) -> (res: String)
    ensures
        res@ == x_ticks_text(ts@, f, ts@.len() as int),
{
    let mut s = String::new();
    let mut i: usize = 0;
    while i < ts.len()
        invariant
            i <= ts.len(),
            s@ == x_ticks_text(ts@, f, i as int),
        decreases ts.len() - i,
    {
        s.append(x_tick(ts[i], f).as_str());
        i = i + 1;
    }
    s
}

/// One tick of the vertical axis at a position, with its grid line.
pub open spec fn y_tick_at_text(t: Real, py: Real) -> Seq<char> {
    "<line x1=\"80\" y1=\""@ + two_digits(py) + "\" x2=\"890\" y2=\""@ + two_digits(py)
        + "\" stroke=\"#e0e0e0\" stroke-width=\"0.5\"/>\n<text x=\"74\" y=\""@ + two_digits(py)
        + "\" text-anchor=\"end\" alignment-baseline=\"middle\" fill=\"#444\">"@ + tick_label(t)
        + "</text>\n"@
}

fn y_tick_at(t: Real, at: Real) -> (res: String)
    ensures
        res@ == y_tick_at_text(t, at),
{
    let py = two_digit_str(at);
    let mut s = "<line x1=\"80\" y1=\"".to_owned();
    s.append(py.as_str());
    s.append("\" x2=\"890\" y2=\"");
    s.append(py.as_str());
    s.append("\" stroke=\"#e0e0e0\" stroke-width=\"0.5\"/>\n<text x=\"74\" y=\"");
    s.append(py.as_str());
    s.append("\" text-anchor=\"end\" alignment-baseline=\"middle\" fill=\"#444\">");
    s.append(format_tick(t).as_str());
    s.append("</text>\n");
    s
}

/// The `k`-th tick of the vertical axis; nothing where it has no position.
pub open spec fn y_tick(m: Marks, f: Frame, k: int) -> Seq<char> {
    let py = tick_position(m, f, k);
    if py.finite() {
        y_tick_at_text(m.y_ticks@[k], py)
    } else {
        ""@
    }
}

fn y_tick_str(m: &Marks, f: Frame, k: usize) -> (res: String)
    requires
        k < m.y_ticks@.len(),
        m.log matches Some(l) ==> l.ticks@.len() == m.y_ticks@.len(),
    ensures
        res@ == y_tick(*m, f, k as int),
{
    let py = match &m.log {
        None => y_position_of(m.y_ticks[k], f.y_min, f.y_max),
        Some(l) => y_position_of(l.ticks[k], l.low, l.high),
    };
    if py.is_finite() {
        y_tick_at(m.y_ticks[k], py)
    } else {
        "".to_owned()
    }
}

/// The first `n` ticks of the vertical axis.
pub open spec fn y_ticks_text(m: Marks, f: Frame, n: int) -> Seq<char>
    decreases n,
{
    if n <= 0 {
        Seq::empty()
    } else {
        y_ticks_text(m, f, n - 1) + y_tick(m, f, n - 1)
    }
}

fn y_ticks(m: &Marks, f: Frame) -> (res: String)
    requires
        m.log matches Some(l) ==> l.ticks@.len() == m.y_ticks@.len(),
    ensures
        res@ == y_ticks_text(*m, f, m.y_ticks@.len() as int),
{
    let mut s = String::new();
    let mut i: usize = 0;
    while i < m.y_ticks.len()
        invariant
            i <= m.y_ticks.len(),
            m.log matches Some(l) ==> l.ticks@.len() == m.y_ticks@.len(),
            s@ == y_ticks_text(*m, f, i as int),
        decreases m.y_ticks.len() - i,
    {
        s.append(y_tick_str(m, f, i).as_str());
        i = i + 1;
    }
    s
}

/// The plot area with its axes and their captions.
pub open spec fn axes_text(x_label: Seq<char>, y_label: Seq<char>, m: Marks, f: Frame) -> Seq<char> {
    "<rect x=\"80\" y=\"30\" width=\"810\" height=\"390\" fill=\"#fafafa\" stroke=\"#888\" stroke-width=\"0.5\"/>\n"@
        + x_ticks_text(m.x_ticks@, f, m.x_ticks@.len() as int)
        + y_ticks_text(m, f, m.y_ticks@.len() as int)
        + "<text x=\"485\" y=\"460\" text-anchor=\"middle\" fill=\"#222\">"@ + xml_text(x_label)
        + "</text>\n<text x=\"20\" y=\"225\" text-anchor=\"middle\" fill=\"#222\" transform=\"rotate(-90 20 225)\">"@
        + xml_text(y_label) + "</text>\n"@
}

fn axes(x_label: &str, y_label: &str, m: &Marks, f: Frame) -> (res: String)
    requires
        m.log matches Some(l) ==> l.ticks@.len() == m.y_ticks@.len(),
    ensures
        res@ == axes_text(x_label@, y_label@, *m, f),
{
    let mut s = "<rect x=\"80\" y=\"30\" width=\"810\" height=\"390\" fill=\"#fafafa\" stroke=\"#888\" stroke-width=\"0.5\"/>\n".to_owned();
    s.append(x_ticks(&m.x_ticks, f).as_str());
    s.append(y_ticks(m, f).as_str());
    s.append("<text x=\"485\" y=\"460\" text-anchor=\"middle\" fill=\"#222\">");
    s.append(escape_xml(x_label).as_str());
    s.append("</text>\n<text x=\"20\" y=\"225\" text-anchor=\"middle\" fill=\"#222\" transform=\"rotate(-90 20 225)\">");
    s.append(escape_xml(y_label).as_str());
    s.append("</text>\n");
    s
}

/// One entry of the legend.
pub open spec fn legend_entry_text(label: Seq<char>, color: Seq<char>, i: nat) -> Seq<char> {
    "<line x1=\"718\" y1=\""@ + text::dec(42 + 16 * i) + "\" x2=\"738\" y2=\""@
        + text::dec(42 + 16 * i) + "\" stroke=\""@ + color
        + "\" stroke-width=\"3\"/>\n<text x=\"746\" y=\""@ + text::dec(46 + 16 * i)
        + "\" fill=\"#222\">"@ + xml_text(label) + "</text>\n"@
}

fn legend_entry(label: &str, color: &str, i: usize) -> (res: String)
    ensures
        res@ == legend_entry_text(label@, color@, i as nat),
{
    let y = text::u128_to_string(42 + 16 * (i as u128));
    let mut s = "<line x1=\"718\" y1=\"".to_owned();
    s.append(y.as_str());
    s.append("\" x2=\"738\" y2=\"");
    s.append(y.as_str());
    s.append("\" stroke=\"");
    s.append(color);
    s.append("\" stroke-width=\"3\"/>\n<text x=\"746\" y=\"");
    s.append(text::u128_to_string(46 + 16 * (i as u128)).as_str());
    s.append("\" fill=\"#222\">");
    s.append(escape_xml(label).as_str());
    s.append("</text>\n");
    s
}

/// The first `n` entries of the legend.
pub open spec fn legend_entries_text(cs: Seq<CurveModel>, n: int) -> Seq<char>
    decreases n,
{
    if n <= 0 {
        Seq::empty()
    } else {
        legend_entries_text(cs, n - 1) + legend_entry_text(cs[n - 1].label, cs[n - 1].color, (n - 1) as nat)
    }
}

fn legend_entries(cs: &Vec<Curve>) -> (res: String)
    ensures
        res@ == legend_entries_text(curve_models(cs@), cs@.len() as int),
{
    let mut s = String::new();
    let mut i: usize = 0;
    while i < cs.len()
        invariant
            i <= cs.len(),
            s@ == legend_entries_text(curve_models(cs@), i as int),
        decreases cs.len() - i,
    {
        assert(curve_models(cs@)[i as int] == cs@[i as int].model());
        s.append(legend_entry(cs[i].label.as_str(), cs[i].color.as_str(), i).as_str());
        i = i + 1;
    }
    s
}

/// The legend.
pub open spec fn legend_text(cs: Seq<CurveModel>) -> Seq<char> {
    "<rect x=\"710\" y=\"30\" width=\"170\" height=\""@ + text::dec(16 * cs.len() + 12)
        + "\" fill=\"white\" stroke=\"#bbb\" stroke-width=\"0.5\" opacity=\"0.92\"/>\n"@
        + legend_entries_text(cs, cs.len() as int)
}

fn legend(cs: &Vec<Curve>) -> (res: String)
    ensures
        res@ == legend_text(curve_models(cs@)),
{
    assert(curve_models(cs@).len() == cs@.len());
    let mut s = "<rect x=\"710\" y=\"30\" width=\"170\" height=\"".to_owned();
    s.append(text::u128_to_string(16 * (cs.len() as u128) + 12).as_str());
    s.append("\" fill=\"white\" stroke=\"#bbb\" stroke-width=\"0.5\" opacity=\"0.92\"/>\n");
    s.append(legend_entries(cs).as_str());
    s
}

/// The opening of a drawing, with its title.
pub open spec fn svg_head_text(title: Seq<char>) -> Seq<char> {
    "<svg xmlns=\"http://www.w3.org/2000/svg\" width=\"920\" height=\"480\" viewBox=\"0 0 920 480\" font-family=\"-apple-system, system-ui, sans-serif\" font-size=\"13\">\n<rect width=\"100%\" height=\"100%\" fill=\"white\"/>\n<text text-anchor=\"middle\" x=\"460\" y=\"20\" font-size=\"15\" font-weight=\"600\">"@
        + xml_text(title) + "</text>\n"@
}

fn svg_head(title: &str) -> (res: String)
    ensures
        res@ == svg_head_text(title@),
{
    let mut s = "<svg xmlns=\"http://www.w3.org/2000/svg\" width=\"920\" height=\"480\" viewBox=\"0 0 920 480\" font-family=\"-apple-system, system-ui, sans-serif\" font-size=\"13\">\n<rect width=\"100%\" height=\"100%\" fill=\"white\"/>\n<text text-anchor=\"middle\" x=\"460\" y=\"20\" font-size=\"15\" font-weight=\"600\">".to_owned();
    s.append(escape_xml(title).as_str());
    s.append("</text>\n");
    s
}

/// The drawing of a chart with nothing to draw.
pub open spec fn empty_chart_text(title: Seq<char>) -> Seq<char> {
    "<svg xmlns=\"http://www.w3.org/2000/svg\" width=\"920\" height=\"480\">\n<rect width=\"100%\" height=\"100%\" fill=\"white\"/>\n<text x=\"460\" y=\"240\" text-anchor=\"middle\" font-size=\"15\">"@
        + xml_text(title) + " (empty trace)</text>\n</svg>\n"@
}

fn empty_chart(title: &str) -> (res: String)
    ensures
        res@ == empty_chart_text(title@),
{
    let mut s = "<svg xmlns=\"http://www.w3.org/2000/svg\" width=\"920\" height=\"480\">\n<rect width=\"100%\" height=\"100%\" fill=\"white\"/>\n<text x=\"460\" y=\"240\" text-anchor=\"middle\" font-size=\"15\">".to_owned();
    s.append(escape_xml(title).as_str());
    s.append(" (empty trace)</text>\n</svg>\n");
    s
}

/// The drawing of a chart over its marks.
pub open spec fn chart_svg(spec: ChartSpec, t: Trace, m: Marks) -> Seq<char> {
    let cs = chart_curves(spec, t);
    match chart_frame(spec.kind, cs, spec.log_y) {
        None => empty_chart_text(spec.title@),
        Some(f) => svg_head_text(spec.title@) + axes_text(spec.x_label@, spec.y_label@, m, f)
            + curves_text(cs, m, f, cs.len() as int) + (if cs.len() > 1 {
            legend_text(cs)
        } else {
            ""@
        }) + "</svg>\n"@,
    }
}

/// Whether a chart can be drawn over marks: they belong to its curves, if there is anything
/// to draw.
pub open spec fn marks_serve(m: Marks, spec: ChartSpec, t: Trace) -> bool {
    chart_frame(spec.kind, chart_curves(spec, t), spec.log_y) is Some ==> marks_fit(
        m,
        chart_curves(spec, t),
        spec.log_y,
    )
}

/// How many ticks the horizontal axis should have.
pub const X_TICKS: u64 = 8;

/// How many ticks a linear vertical axis should have.
pub const Y_TICKS: u64 = 6;

/// Whether a function can be evaluated on every number.
pub open spec fn answers<F: Fn(Real) -> Real>(f: F) -> bool {
    forall|x: Real| #[trigger] call_requires(f, (x,))
}

/// Whether numbers are what a function gives for others.
pub open spec fn answered<F: Fn(Real) -> Real>(f: F, xs: Seq<Real>, ys: Seq<Real>) -> bool {
    &&& xs.len() == ys.len()
    &&& forall|i: int| 0 <= i < ys.len() ==> call_ensures(f, (xs[i],), #[trigger] ys[i])
}

/// Whether `mag` is the power of ten that is found at or below a number whose logarithm is
/// `l`.
pub open spec fn is_magnitude<L: Fn(Real) -> Real, P: Fn(Real) -> Real>(
    x: Real,
    l: Real,
    mag: Real,
    log10: L,
    power: P,
) -> bool {
    call_ensures(log10, (x,), l) && call_ensures(power, (l.floor_spec(),), mag)
}

/// Whether `ticks` are those of a linear axis, by the decimal logarithm and the power of
/// ten.
pub open spec fn are_linear_ticks<L: Fn(Real) -> Real, P: Fn(Real) -> Real>(
    ticks: Seq<Real>,
    lo: Real,
    hi: Real,
    target: u64,
    log10: L,
    power: P,
) -> bool {
    exists|l: Real, mag: Real| #[trigger]
        is_magnitude(raw_step(lo, hi, target), l, mag, log10, power) && ticks == linear_ticks(
            lo,
            hi,
            target,
            mag,
        )
}

fn linear_ticks_of<L: Fn(Real) -> Real, P: Fn(Real) -> Real>(
    lo: Real,
    hi: Real,
    target: u64,
    log10: &L,
    power: &P,
) -> (res: Vec<Real>)
    requires
        answers(*log10),
        answers(*power),
    ensures
        are_linear_ticks(res@, lo, hi, target, *log10, *power),
{
    let l = log10(raw_step_of(lo, hi, target));
    let mag = power(l.floor());
    assert(is_magnitude(raw_step(lo, hi, target), l, mag, *log10, *power));
    nice_ticks(lo, hi, target, mag)
}

/// Whether `decades` are the powers of ten from that at or below the lower end of an axis to
/// that at or above its upper end, by the logarithms of the ends.
pub open spec fn are_decades<Q: Fn(i32) -> Real>(
    decades: Seq<Real>,
    low: Real,
    high: Real,
    decade: Q,
) -> bool {
    let first = low.floor_spec().whole_spec() as int;
    let last = high.ceil_spec().whole_spec() as int;
    &&& decades.len() == (if last < first {
        0
    } else {
        last - first + 1
    })
    &&& forall|i: int|
        0 <= i < decades.len() ==> call_ensures(
            decade,
            ((first + i) as i32,),
            #[trigger] decades[i],
        )
}

/// Whether `ticks` are those of a logarithmic axis whose ends have the logarithms `low` and
/// `high`.
pub open spec fn are_log_ticks<Q: Fn(i32) -> Real>(
    ticks: Seq<Real>,
    lo: Real,
    hi: Real,
    low: Real,
    high: Real,
    decade: Q,
) -> bool {
    if lo.at_most(Real { bits: 0 }) || hi.at_most(Real { bits: 0 }) {
        ticks.len() == 0
    } else {
        exists|decades: Seq<Real>| #[trigger]
            are_decades(decades, low, high, decade) && ticks == shown_decades(
                decades,
                lo,
                hi,
                decades.len() as int,
            )
    }
}

/// Lists the ticks of a logarithmic axis, given the logarithms of its ends; none where the
/// range is not positive.
pub fn log_ticks<Q: Fn(i32) -> Real>(
    lo: Real,
    hi: Real,
    low: Real,
    high: Real,
    decade: &Q,
) -> (res: Vec<Real>)
    requires
        forall|e: i32| #[trigger] call_requires(*decade, (e,)),
    ensures
        are_log_ticks(res@, lo, hi, low, high, *decade),
{
    let mut out: Vec<Real> = Vec::new();
    if lo.le(Real { bits: 0 }) || hi.le(Real { bits: 0 }) {
        return out;
    }
    let first: i64 = low.floor().whole() as i64;
    let last: i64 = high.ceil().whole() as i64;
    let ghost mut decades: Seq<Real> = Seq::empty();
    let mut e: i64 = first;
    while e <= last
        invariant
            first == low.floor_spec().whole_spec(),
            last == high.ceil_spec().whole_spec(),
            first <= e,
            e <= last + 1 || e == first,
            forall|e: i32| #[trigger] call_requires(*decade, (e,)),
            decades.len() == e - first,
            forall|i: int|
                0 <= i < decades.len() ==> call_ensures(
                    *decade,
                    ((first + i) as i32,),
                    #[trigger] decades[i],
                ),
            out@ == shown_decades(decades, lo, hi, decades.len() as int),
        decreases last + 1 - e,
    {
        let v = decade(e as i32);
        proof {
            lemma_shown_grows(decades, v, lo, hi, decades.len() as int);
            decades = decades.push(v);
        }
        if lo.mul(Real { bits: JUST_BELOW_BITS }).le(v) && v.le(
            hi.mul(Real { bits: JUST_ABOVE_BITS }),
        ) {
            out.push(v);
        }
        e = e + 1;
    }
    assert(are_decades(decades, low, high, *decade));
    out
}

proof fn lemma_shown_grows(decades: Seq<Real>, v: Real, lo: Real, hi: Real, n: int)
    requires
        0 <= n <= decades.len(),
    ensures
        shown_decades(decades.push(v), lo, hi, n) == shown_decades(decades, lo, hi, n),
    decreases n,
{
    if n > 0 {
        lemma_shown_grows(decades, v, lo, hi, n - 1);
    }
}

/// Whether marks are those of a chart: eight ticks or so on the horizontal axis; on the
/// vertical one six or so, or powers of ten where it is logarithmic, and then with the
/// logarithms of its ends, of its ticks and of every value. A chart with nothing to draw
/// has none.
pub open spec fn are_marks<L: Fn(Real) -> Real, P: Fn(Real) -> Real, Q: Fn(i32) -> Real>(
    m: Marks,
    spec: ChartSpec,
    t: Trace,
    log10: L,
    power: P,
    decade: Q,
) -> bool {
    let cs = chart_curves(spec, t);
    match chart_frame(spec.kind, cs, spec.log_y) {
        None => m.x_ticks@.len() == 0 && m.y_ticks@.len() == 0 && m.log is None,
        Some(f) => {
            &&& are_linear_ticks(m.x_ticks@, f.x_min, f.x_max, X_TICKS, log10, power)
            &&& match m.log {
                None => !spec.log_y && are_linear_ticks(
                    m.y_ticks@,
                    f.y_min,
                    f.y_max,
                    Y_TICKS,
                    log10,
                    power,
                ),
                Some(l) => {
                    &&& spec.log_y
                    &&& call_ensures(log10, (f.y_min,), l.low)
                    &&& call_ensures(log10, (f.y_max,), l.high)
                    &&& are_log_ticks(m.y_ticks@, f.y_min, f.y_max, l.low, l.high, decade)
                    &&& answered(log10, m.y_ticks@, l.ticks@)
                    &&& l.values@.len() == cs.len()
                    &&& forall|i: int|
                        0 <= i < cs.len() ==> answered(
                            log10,
                            cs[i].ys,
                            (#[trigger] l.values@[i])@,
                        )
                },
            }
        },
    }
}

fn logs_of<L: Fn(Real) -> Real>(v: &Vec<Real>, log10: &L) -> (res: Vec<Real>)
    requires
        answers(*log10),
    ensures
        answered(*log10, v@, res@),
{
    let mut out: Vec<Real> = Vec::new();
    let mut i: usize = 0;
    while i < v.len()
        invariant
            i <= v@.len(),
            out@.len() == i,
            answers(*log10),
            forall|k: int| 0 <= k < i ==> call_ensures(*log10, (v@[k],), #[trigger] out@[k]),
        decreases v@.len() - i,
    {
        out.push(log10(v[i]));
        i = i + 1;
    }
    out
}

/// Finds the marks of a chart. The logarithm and the powers of ten are the caller's:
/// `log10`, ten to a given power, and ten to a whole power.
pub fn marks_of<L: Fn(Real) -> Real, P: Fn(Real) -> Real, Q: Fn(i32) -> Real>(
    spec: &ChartSpec,
    t: &Trace,
    log10: &L,
    power: &P,
    decade: &Q,
) -> (res: Marks)
    requires
        answers(*log10),
        answers(*power),
        forall|e: i32| #[trigger] call_requires(*decade, (e,)),
    ensures
        are_marks(res, *spec, *t, *log10, *power, *decade),
        marks_serve(res, *spec, *t),
{
    let cs = curves_of(spec, t);
    let ghost models = curve_models(cs@);
    assert(models.len() == cs@.len());
    let f = match frame_for(&spec.kind, &cs, spec.log_y) {
        None => {
            return Marks { x_ticks: Vec::new(), y_ticks: Vec::new(), log: None };
        },
        Some(f) => f,
    };
    let x_ticks = linear_ticks_of(f.x_min, f.x_max, X_TICKS, log10, power);
    if !spec.log_y {
        let y_ticks = linear_ticks_of(f.y_min, f.y_max, Y_TICKS, log10, power);
        return Marks { x_ticks, y_ticks, log: None };
    }
    let low = log10(f.y_min);
    let high = log10(f.y_max);
    let y_ticks = log_ticks(f.y_min, f.y_max, low, high, decade);
    let ticks = logs_of(&y_ticks, log10);
    let mut values: Vec<Vec<Real>> = Vec::new();
    let mut i: usize = 0;
    while i < cs.len()
        invariant
            i <= cs@.len(),
            values@.len() == i,
            models == curve_models(cs@),
            answers(*log10),
            forall|k: int|
                0 <= k < i ==> answered(*log10, models[k].ys, (#[trigger] values@[k])@),
        decreases cs@.len() - i,
    {
        assert(models[i as int] == cs@[i as int].model());
        values.push(logs_of(&cs[i].ys, log10));
        i = i + 1;
    }
    Marks { x_ticks, y_ticks, log: Some(LogScale { low, high, ticks, values }) }
}

/// Draws a chart over its marks.
pub fn draw_chart(spec: &ChartSpec, t: &Trace, m: &Marks) -> (res: String)
    requires
        marks_serve(*m, *spec, *t),
    ensures
        res@ == chart_svg(*spec, *t, *m),
{
    let cs = curves_of(spec, t);
    assert(curve_models(cs@).len() == cs@.len());
    match frame_for(&spec.kind, &cs, spec.log_y) {
        None => empty_chart(spec.title.as_str()),
        Some(f) => {
            let mut s = svg_head(spec.title.as_str());
            s.append(axes(spec.x_label.as_str(), spec.y_label.as_str(), m, f).as_str());
            s.append(curves(&cs, m, f).as_str());
            if cs.len() > 1 {
                s.append(legend(&cs).as_str());
            } else {
                s.append("");
            }
            s.append("</svg>\n");
            s
        },
    }
}

/// Draws a chart. The logarithm and the powers of ten are the caller's.
pub fn render_chart_svg<L: Fn(Real) -> Real, P: Fn(Real) -> Real, Q: Fn(i32) -> Real>(
    spec: &ChartSpec,
    t: &Trace,
    log10: &L,
    power: &P,
    decade: &Q,
) -> (res: String)
    requires
        answers(*log10),
        answers(*power),
        forall|e: i32| #[trigger] call_requires(*decade, (e,)),
    ensures
        exists|m: Marks| #[trigger]
            are_marks(m, *spec, *t, *log10, *power, *decade) && res@ == chart_svg(*spec, *t, m),
{
    let m = marks_of(spec, t, log10, power, decade);
    draw_chart(spec, t, &m)
}

/// The curves of a line chart are those of its series, in order: each over the series of the
/// horizontal axis, or over the steps, and in the colour asked for, or in its turn of the
/// palette. The two curves of a comparison go through the points given.
pub proof fn curves_show_their_series(spec: ChartSpec, t: Trace, i: int)
    ensures
        spec.kind is Line ==> chart_curves(spec, t).len() == spec.y_series@.len(),
        spec.kind is Line && 0 <= i < spec.y_series@.len() ==> {
            let c = chart_curves(spec, t)[i];
            let y = spec.y_series@[i];
            &&& c.label == y.label@
            &&& c.ys == t.column(y.series_name@)
            &&& spec.x_series matches Some(n) ==> c.xs == t.column(n@)
            &&& spec.x_series is None ==> c.xs == t.steps()
            &&& y.color matches Some(k) ==> c.color == k@
            &&& y.color is None ==> c.color == palette(i)
        },
        spec.kind matches ChartKind::BeforeAfter { before, after, .. } ==> {
            let cs = chart_curves(spec, t);
            &&& cs.len() == 2
            &&& 0 <= i < before@.len() ==> cs[0].xs[i] == before@[i].0 && cs[0].ys[i]
                == before@[i].1
            &&& 0 <= i < after@.len() ==> cs[1].xs[i] == after@[i].0 && cs[1].ys[i] == after@[i].1
            &&& cs[0].xs.len() == before@.len() && cs[1].xs.len() == after@.len()
        },
{
}

/// Whether a range holds a number.
pub open spec fn range_holds(r: (Real, Real), v: Real) -> bool {
    r.0.rank() <= v.rank() && v.rank() <= r.1.rank()
}

proof fn lemma_value_range(vs: Seq<Real>, log_y: bool, n: int)
    requires
        0 <= n <= vs.len(),
    ensures
        ({
            let r = value_range(vs, log_y, n);
            &&& !r.0.nan() && !r.1.nan()
            &&& forall|i: int|
                0 <= i < n && has_place(#[trigger] vs[i], log_y) ==> range_holds(r, vs[i])
            &&& r.0 == sim_plot::no_range().0 || exists|i: int|
                0 <= i < n && has_place(#[trigger] vs[i], log_y) && r.0 == vs[i]
            &&& r.1 == sim_plot::no_range().1 || exists|i: int|
                0 <= i < n && has_place(#[trigger] vs[i], log_y) && r.1 == vs[i]
        }),
    decreases n,
{
    if n > 0 {
        lemma_value_range(vs, log_y, n - 1);
        let before = value_range(vs, log_y, n - 1);
        let r = value_range(vs, log_y, n);
        if r.0 != before.0 {
            assert(has_place(vs[n - 1], log_y) && r.0 == vs[n - 1]);
        }
        if r.1 != before.1 {
            assert(has_place(vs[n - 1], log_y) && r.1 == vs[n - 1]);
        }
    }
}

/// Whether a number is a value of one of the first `n` curves that has a place.
pub open spec fn is_shown(cs: Seq<CurveModel>, log_y: bool, n: int, v: Real) -> bool {
    exists|k: int, i: int|
        0 <= k < n && 0 <= i < cs[k].ys.len() && #[trigger] cs[k].ys[i] == v && has_place(v, log_y)
}

/// The vertical range of curves holds all their values that have a place, and its ends are
/// two of them. On a logarithmic axis only positive numbers have one.
pub proof fn ranges_hold_what_is_shown(cs: Seq<CurveModel>, log_y: bool, n: int)
    requires
        0 <= n <= cs.len(),
    ensures
        ({
            let r = curves_y_range(cs, log_y, n);
            &&& !r.0.nan() && !r.1.nan()
            &&& forall|k: int, i: int|
                0 <= k < n && 0 <= i < cs[k].ys.len() && has_place(
                    #[trigger] cs[k].ys[i],
                    log_y,
                ) ==> range_holds(r, cs[k].ys[i])
            &&& r.0 == sim_plot::no_range().0 || is_shown(cs, log_y, n, r.0)
            &&& r.1 == sim_plot::no_range().1 || is_shown(cs, log_y, n, r.1)
        }),
        forall|v: Real| #[trigger]
            has_place(v, log_y) <==> v.finite() && (log_y ==> v.rank() > 0),
    decreases n,
{
    if n > 0 {
        ranges_hold_what_is_shown(cs, log_y, n - 1);
        let ys = cs[n - 1].ys;
        lemma_value_range(ys, log_y, ys.len() as int);
        let before = curves_y_range(cs, log_y, n - 1);
        let here = value_range(ys, log_y, ys.len() as int);
        let r = curves_y_range(cs, log_y, n);
        assert(forall|v: Real|
            is_shown(cs, log_y, n - 1, v) ==> #[trigger] is_shown(cs, log_y, n, v));
        if here.0 != sim_plot::no_range().0 {
            let i = choose|i: int|
                0 <= i < ys.len() && has_place(#[trigger] ys[i], log_y) && here.0 == ys[i];
            assert(cs[n - 1].ys[i] == here.0);
            assert(is_shown(cs, log_y, n, here.0));
        }
        if here.1 != sim_plot::no_range().1 {
            let i = choose|i: int|
                0 <= i < ys.len() && has_place(#[trigger] ys[i], log_y) && here.1 == ys[i];
            assert(cs[n - 1].ys[i] == here.1);
            assert(is_shown(cs, log_y, n, here.1));
        }
        assert forall|k: int, i: int|
            0 <= k < n && 0 <= i < cs[k].ys.len() && has_place(
                #[trigger] cs[k].ys[i],
                log_y,
            ) implies range_holds(r, cs[k].ys[i]) by {
            if k < n - 1 {
                assert(range_holds(before, cs[k].ys[i]));
            } else {
                assert(range_holds(here, ys[i]));
            }
        }
    }
}

/// Ticks begin at their start, each is above the one before it by the distance, and none is
/// beyond the bound.
pub proof fn ticks_ascend(t: Real, step: Real, bound: Real)
    ensures
        ({
            let ts = ticks_from(t, step, bound);
            &&& ts.len() > 0 <==> t.at_most(bound)
            &&& ts.len() > 0 ==> ts[0] == t
            &&& forall|i: int| 0 <= i < ts.len() ==> (#[trigger] ts[i]).at_most(bound)
            &&& forall|i: int|
                0 < i < ts.len() ==> #[trigger] ts[i] == ts[i - 1].add_spec(step) && ts[i
                    - 1].below(ts[i])
        }),
    decreases INF_BITS - t.rank(),
{
    if t.at_most(bound) && t.below(t.add_spec(step)) {
        let next = t.add_spec(step);
        let rest = ticks_from(next, step, bound);
        let ts = ticks_from(t, step, bound);
        ticks_ascend(next, step, bound);
        assert forall|i: int| 0 <= i < ts.len() implies (#[trigger] ts[i]).at_most(bound) by {
            if i > 0 {
                assert(ts[i] == rest[i - 1]);
            }
        }
        assert forall|i: int| 0 < i < ts.len() implies #[trigger] ts[i] == ts[i - 1].add_spec(step)
            && ts[i - 1].below(ts[i]) by {
            assert(ts[i] == rest[i - 1]);
            if i > 1 {
                assert(ts[i - 1] == rest[i - 2]);
            }
        }
    }
}

} // verus!
