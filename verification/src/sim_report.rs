//! Reports on a batch of simulation runs: one page per corner, cross-corner
//! summaries in Markdown and HTML, and CSV tables.

use crate::cache;
use crate::corner;
use crate::corner::CornerKind;
use crate::double::Real;
use crate::harness;
use crate::harness::RunOutcome;
use crate::liberty;
use crate::limits;
use crate::limits::{McSummaryStyle, Spec, SpecBundle, SpecCheck, SpecFail};
use crate::measure;
use crate::measure::MeasurementValue;
use crate::numfmt;
use crate::paths;
use crate::text;
use crate::verify::VerifierResult;
use vstd::prelude::*;
use vstd::string::*;

verus! {

// ── numbers ────────────────────────────────────────────────────────

/// 0.999.
pub const NEARLY_ONE_BITS: u64 = 0x3fef_f7ce_d916_872b;

/// 0.05.
pub const SMALL_DELTA_BITS: u64 = 0x3fa9_9999_9999_999a;

/// 0.20.
pub const LARGE_DELTA_BITS: u64 = 0x3fc9_9999_9999_999a;

/// 100.
pub const HUNDRED_BITS: u64 = 0x4059_0000_0000_0000;

/// 2^-52.
pub const EPSILON_BITS: u64 = 0x3cb0_0000_0000_0000;

/// 10.
pub const TEN_BITS: u64 = 0x4024_0000_0000_0000;

/// 180.
pub const BAR_WIDTH_BITS: u64 = 0x4066_8000_0000_0000;

/// -0.2.
pub const BAR_LOW_BITS: u64 = 0xbfc9_9999_9999_999a;

/// 1.2.
pub const BAR_HIGH_BITS: u64 = 0x3ff3_3333_3333_3333;

/// 1.
pub const ONE_BITS: u64 = 0x3ff0_0000_0000_0000;

/// 300.
pub const PLOT_WIDTH_BITS: u64 = 0x4072_c000_0000_0000;

/// Scale of the `k`-th unit prefix, from 1e15 down to 1e-15.
pub open spec fn prefix_bits(k: int) -> u64 {
    if k == 0 {
        0x430c_6bf5_2634_0000
    } else if k == 1 {
        0x426d_1a94_a200_0000
    } else if k == 2 {
        0x41cd_cd65_0000_0000
    } else if k == 3 {
        0x412e_8480_0000_0000
    } else if k == 4 {
        0x408f_4000_0000_0000
    } else if k == 5 {
        0x3ff0_0000_0000_0000
    } else if k == 6 {
        0x3f50_624d_d2f1_a9fc
    } else if k == 7 {
        0x3eb0_c6f7_a0b5_ed8d
    } else if k == 8 {
        0x3e11_2e0b_e826_d695
    } else if k == 9 {
        0x3d71_9799_812d_ea11
    } else {
        0x3cd2_03af_9ee7_5616
    }
}

/// The `k`-th unit prefix.
pub open spec fn prefix_name(k: int) -> Seq<char> {
    if k == 0 {
        "P"@
    } else if k == 1 {
        "T"@
    } else if k == 2 {
        "G"@
    } else if k == 3 {
        "M"@
    } else if k == 4 {
        "k"@
    } else if k == 5 {
        ""@
    } else if k == 6 {
        "m"@
    } else if k == 7 {
        "µ"@
    } else if k == 8 {
        "n"@
    } else if k == 9 {
        "p"@
    } else {
        "f"@
    }
}

fn prefix_at(k: usize) -> (res: (u64, &'static str))
    ensures
        res.0 == prefix_bits(k as int),
        res.1@ == prefix_name(k as int),
{
    if k == 0 {
        (0x430c_6bf5_2634_0000, "P")
    } else if k == 1 {
        (0x426d_1a94_a200_0000, "T")
    } else if k == 2 {
        (0x41cd_cd65_0000_0000, "G")
    } else if k == 3 {
        (0x412e_8480_0000_0000, "M")
    } else if k == 4 {
        (0x408f_4000_0000_0000, "k")
    } else if k == 5 {
        (0x3ff0_0000_0000_0000, "")
    } else if k == 6 {
        (0x3f50_624d_d2f1_a9fc, "m")
    } else if k == 7 {
        (0x3eb0_c6f7_a0b5_ed8d, "µ")
    } else if k == 8 {
        (0x3e11_2e0b_e826_d695, "n")
    } else if k == 9 {
        (0x3d71_9799_812d_ea11, "p")
    } else {
        (0x3cd2_03af_9ee7_5616, "f")
    }
}

/// The first prefix, from the `k`-th on, that a magnitude nearly reaches; the
/// smallest one if it reaches none.
pub open spec fn prefix_index(av: Real, k: int) -> int
    decreases 10 - k,
{
    if k >= 10 || (Real { bits: prefix_bits(k) }).mul_spec(Real { bits: NEARLY_ONE_BITS }).at_most(
        av,
    ) {
        k
    } else {
        prefix_index(av, k + 1)
    }
}

fn reaches_prefix(av: Real, k: usize) -> (res: bool)
    ensures
        res == (Real { bits: prefix_bits(k as int) }).mul_spec(Real { bits: NEARLY_ONE_BITS }).at_most(
            av,
        ),
{
    (Real { bits: prefix_at(k).0 }).mul(Real { bits: NEARLY_ONE_BITS }).le(av)
}

/// A number with its unit, if it has one.
pub open spec fn with_unit(number: Seq<char>, unit: Seq<char>) -> Seq<char> {
    let u = text::trim(unit);
    if u.len() == 0 {
        number
    } else {
        number + " "@ + u
    }
}

fn append_unit(number: String, unit: &str) -> (res: String)
    ensures
        res@ == with_unit(number@, unit@),
{
    let mut s = number;
    let u = text::trimmed(unit);
    if !u.as_str().is_empty() {
        s.append(" ");
        s.append(u.as_str());
    }
    s
}

/// Whether a value needs no unit prefix: its magnitude is from one to a thousand.
pub open spec fn is_unscaled(v: Real) -> bool {
    (Real { bits: prefix_bits(5) }).at_most(v.abs_spec()) && v.abs_spec().at_most(
        Real { bits: prefix_bits(4) },
    )
}

/// Whether a value is not scaled though it is out of that range: it is negative, or too
/// small for every prefix.
pub open spec fn is_outlier(v: Real) -> bool {
    v.negative() || !(Real { bits: prefix_bits(10) }).mul_spec(
        Real { bits: NEARLY_ONE_BITS },
    ).at_most(v.abs_spec())
}

/// A value in engineering notation: scaled by a unit prefix, with three digits after the
/// point. From one to a thousand it stands as it is, with four digits after the point;
/// other values that are not scaled stand in scientific notation.
pub open spec fn value_text(v: Real, unit: Seq<char>) -> Seq<char> {
    if !v.finite() {
        numfmt::special_text(v, false)
    } else if v.magnitude() == 0 {
        if unit.len() == 0 {
            "0"@
        } else {
            "0 "@ + unit
        }
    } else if is_unscaled(v) {
        with_unit(numfmt::fixed(v, 4, false), unit)
    } else if is_outlier(v) {
        with_unit(numfmt::scientific(v, 4), unit)
    } else {
        let k = prefix_index(v.abs_spec(), 0);
        let scaled = v.div_spec(Real { bits: prefix_bits(k) });
        with_unit(numfmt::fixed(scaled, 3, false), prefix_name(k) + unit)
    }
}

/// Renders a value in engineering notation.
pub fn fmt_value(v: Real, unit: &str) -> (res: String)
    ensures
        res@ == value_text(v, unit@),
{
    if !v.is_finite() {
        return numfmt::to_shortest(v);
    }
    if v.abs().to_bits() == 0 {
        if unit.is_empty() {
            return "0".to_owned();
        }
        let mut s = "0 ".to_owned();
        s.append(unit);
        return s;
    }
    let av = v.abs();
    if (Real { bits: prefix_at(5).0 }).le(av) && av.le(Real { bits: prefix_at(4).0 }) {
        return append_unit(numfmt::to_fixed(v, 4, false), unit);
    }
    if v.is_negative() || !reaches_prefix(av, 10) {
        return append_unit(numfmt::to_scientific(v, 4), unit);
    }
    let mut k: usize = 0;
    while k < 10 && !reaches_prefix(av, k)
        invariant
            k <= 10,
            prefix_index(av, 0) == prefix_index(av, k as int),
        decreases 10 - k,
    {
        k = k + 1;
    }
    let (bits, name): (u64, &str) = prefix_at(k);
    let mut joined = name.to_owned();
    joined.append(unit);
    append_unit(numfmt::to_fixed(v.div(Real { bits }), 3, false), joined.as_str())
}

/// The unit, empty where there is none.
pub open spec fn unit_text(u: Option<String>) -> Seq<char> {
    match u {
        Some(s) => s@,
        None => ""@,
    }
}

pub fn unit_str(u: &Option<String>) -> (res: &str)
    ensures
        res@ == unit_text(*u),
{
    match u {
        Some(s) => s.as_str(),
        None => "",
    }
}

/// A value, or a dash where there is none.
pub open spec fn value_or_dash(v: Option<Real>, unit: Seq<char>) -> Seq<char> {
    match v {
        Some(x) => value_text(x, unit),
        None => "—"@,
    }
}

pub fn fmt_or_dash(v: Option<Real>, unit: &str) -> (res: String)
    ensures
        res@ == value_or_dash(v, unit@),
{
    match v {
        Some(x) => fmt_value(x, unit),
        None => "—".to_owned(),
    }
}

/// The text of a spec outcome.
pub open spec fn cell_text(c: SpecCheck, unit: Seq<char>) -> Seq<char> {
    match c {
        SpecCheck::Pass { measured } => value_text(measured, unit),
        SpecCheck::Fail { measured, reason } => value_text(measured, unit) + (match reason {
            SpecFail::BelowMin(lo) => " (< "@ + value_text(lo, unit),
            SpecFail::AboveMax(hi) => " (> "@ + value_text(hi, unit),
        }) + ")"@,
        SpecCheck::Skipped => "—"@,
    }
}

/// The style class of a spec outcome.
pub open spec fn cell_class(c: SpecCheck) -> Seq<char> {
    match c {
        SpecCheck::Pass { .. } => "pass"@,
        SpecCheck::Fail { .. } => "fail"@,
        SpecCheck::Skipped => "skip"@,
    }
}

/// Text and style class of a spec outcome.
pub fn check_cell(c: SpecCheck, unit: &str) -> (res: (String, &'static str))
    ensures
        res.0@ == cell_text(c, unit@),
        res.1@ == cell_class(c),
{
    match c {
        SpecCheck::Pass { measured } => (fmt_value(measured, unit), "pass"),
        SpecCheck::Fail { measured, reason } => {
            let mut s = fmt_value(measured, unit);
            let suffix = match reason {
                SpecFail::BelowMin(lo) => {
                    let mut t = " (< ".to_owned();
                    t.append(fmt_value(lo, unit).as_str());
                    t
                },
                SpecFail::AboveMax(hi) => {
                    let mut t = " (> ".to_owned();
                    t.append(fmt_value(hi, unit).as_str());
                    t
                },
            };
            s.append(suffix.as_str());
            s.append(")");
            (s, "fail")
        },
        SpecCheck::Skipped => ("—".to_owned(), "skip"),
    }
}

/// Tick, cross or dot for a spec outcome.
pub open spec fn cell_mark(c: SpecCheck) -> Seq<char> {
    match c {
        SpecCheck::Pass { .. } => "✓"@,
        SpecCheck::Fail { .. } => "✗"@,
        SpecCheck::Skipped => "·"@,
    }
}

pub fn check_mark(c: SpecCheck) -> (res: &'static str)
    ensures
        res@ == cell_mark(c),
{
    match c {
        SpecCheck::Pass { .. } => "✓",
        SpecCheck::Fail { .. } => "✗",
        SpecCheck::Skipped => "·",
    }
}

// ── escaping ───────────────────────────────────────────────────────

/// A character in a form that HTML shows as it is.
pub open spec fn escaped_char(c: char) -> Seq<char> {
    if c == '&' {
        "&amp;"@
    } else if c == '<' {
        "&lt;"@
    } else if c == '>' {
        "&gt;"@
    } else if c == '"' {
        "&quot;"@
    } else if c == '\'' {
        "&#39;"@
    } else {
        seq![c]
    }
}

/// A text in a form that HTML shows as it is.
pub open spec fn escaped(s: Seq<char>) -> Seq<char>
    decreases s.len(),
{
    if s.len() == 0 {
        Seq::empty()
    } else {
        escaped(s.drop_last()) + escaped_char(s.last())
    }
}

/// Escapes a text for HTML.
pub fn html_escape(s: &str) -> (res: String)
    ensures
        res@ == escaped(s@),
{
    let v = text::chars_of(s);
    let mut out = String::new();
    let mut i: usize = 0;
    assert(v@.take(0) =~= Seq::empty());
    while i < v.len()
        invariant
            i <= v.len(),
            v@ == s@,
            out@ == escaped(v@.take(i as int)),
        decreases v.len() - i,
    {
        let c: char = v[i];
        let ghost before = out@;
        if c == '&' {
            out.append("&amp;");
        } else if c == '<' {
            out.append("&lt;");
        } else if c == '>' {
            out.append("&gt;");
        } else if c == '"' {
            out.append("&quot;");
        } else if c == '\'' {
            out.append("&#39;");
        } else {
            out.push(c);
            assert(out@ =~= before + seq![c]);
        }
        i = i + 1;
        assert(v@.take(i as int).drop_last() =~= v@.take(i - 1));
    }
    assert(v@.take(v@.len() as int) =~= v@);
    out
}

proof fn lemma_escaped_char(c: char, i: int)
    requires
        0 <= i < escaped_char(c).len(),
    ensures
        escaped_char(c)[i] != '<',
        escaped_char(c)[i] != '>',
        escaped_char(c)[i] != '"',
        escaped_char(c)[i] != '\'',
{
    reveal_strlit("&amp;");
    reveal_strlit("&lt;");
    reveal_strlit("&gt;");
    reveal_strlit("&quot;");
    reveal_strlit("&#39;");
}

/// Escaped text holds no character that could open or close a tag or an
/// attribute.
pub proof fn escaped_text_is_inert(s: Seq<char>, i: int)
    requires
        0 <= i < escaped(s).len(),
    ensures
        escaped(s)[i] != '<',
        escaped(s)[i] != '>',
        escaped(s)[i] != '"',
        escaped(s)[i] != '\'',
    decreases s.len(),
{
    if s.len() > 0 {
        let n = escaped(s.drop_last()).len() as int;
        if i < n {
            escaped_text_is_inert(s.drop_last(), i);
        } else {
            lemma_escaped_char(s.last(), i - n);
        }
    }
}

// ── pieces of a page ───────────────────────────────────────────────

/// File stem of one corner's artifacts: the view is named only where a batch
/// has both.
pub open spec fn stem(tb: Seq<char>, c: corner::Corner, multi_view: bool) -> Seq<char> {
    if multi_view {
        tb + "_"@ + c.view.tag() + "_"@ + c.label@
    } else {
        tb + "_"@ + c.label@
    }
}

/// File stem of one corner's artifacts.
pub fn corner_stem(tb: &str, c: &corner::Corner, multi_view: bool) -> (res: String)
    ensures
        res@ == stem(tb@, *c, multi_view),
{
    let mut s = tb.to_owned();
    s.append("_");
    if multi_view {
        s.append(c.view.as_str());
        s.append("_");
    }
    s.append(c.label.as_str());
    s
}

/// Position of `m` between `l` and `l + span`, as a horizontal coordinate.
pub open spec fn bar_x(m: Real, l: Real, span: Real, low: Real, high: Real) -> Real {
    (Real { bits: TEN_BITS }).add_spec(
        m.sub_spec(l).div_spec(span).clamp_spec(low, high).mul_spec(Real { bits: BAR_WIDTH_BITS }),
    )
}

fn bar_position(m: Real, l: Real, span: Real, low: Real, high: Real) -> (res: Real)
    requires
        low.at_most(high),
    ensures
        res == bar_x(m, l, span, low, high),
{
    (Real { bits: TEN_BITS }).add(
        m.sub(l).div(span).clamp(low, high).mul(Real { bits: BAR_WIDTH_BITS }),
    )
}

/// The marks inside a range bar.
pub open spec fn range_marks(m: Real, sp: Spec) -> Seq<char> {
    match (sp.min, sp.max) {
        (Some(l), Some(h)) => {
            let span = h.sub_spec(l);
            if (Real { bits: 0 }).below(span) {
                let x = bar_x(m, l, span, Real { bits: BAR_LOW_BITS }, Real { bits: BAR_HIGH_BITS });
                "<rect x=10 y=10 width=180 height=4 fill=#c2f0c2 rx=2/><circle cx="@ + numfmt::fixed(
                    x,
                    1,
                    false,
                ) + " cy=12 r=5 class=mark-"@ + (if l.at_most(m) && m.at_most(h) {
                    "ok"@
                } else {
                    "bad"@
                }) + "/>"@ + (match sp.typ {
                    Some(t) => {
                        let tx = numfmt::fixed(
                            bar_x(t, l, span, Real { bits: 0 }, Real { bits: ONE_BITS }),
                            1,
                            false,
                        );
                        "<line x1="@ + tx + " y1=6 x2="@ + tx
                            + " y2=18 stroke=#586069 stroke-width=1 stroke-dasharray=\"2,2\"/>"@
                    },
                    None => ""@,
                })
            } else {
                ""@
            }
        },
        _ => ""@,
    }
}

/// A bar that shows where a measured value lies between its limits.
pub open spec fn range_bar(m: Real, sp: Spec) -> Seq<char> {
    "<svg width=200 height=24 viewBox=\"0 0 200 24\" class=range><rect x=10 y=10 width=180 height=4 fill=#e1e4e8 rx=2/>"@
        + range_marks(m, sp) + "</svg>"@
}

fn range_marks_svg(m: Real, sp: &Spec) -> (res: String)
    ensures
        res@ == range_marks(m, *sp),
{
    match (sp.min, sp.max) {
        (Some(l), Some(h)) => {
            let span = h.sub(l);
            if !(Real { bits: 0 }).lt(span) {
                return "".to_owned();
            }
            let x = bar_position(m, l, span, Real { bits: BAR_LOW_BITS }, Real { bits: BAR_HIGH_BITS });
            let mut s = "<rect x=10 y=10 width=180 height=4 fill=#c2f0c2 rx=2/><circle cx=".to_owned();
            s.append(numfmt::to_fixed(x, 1, false).as_str());
            s.append(" cy=12 r=5 class=mark-");
            s.append(
                if l.le(m) && m.le(h) {
                    "ok"
                } else {
                    "bad"
                },
            );
            s.append("/>");
            let tick = match sp.typ {
                Some(t) => {
                    let tx = numfmt::to_fixed(
                        bar_position(t, l, span, Real { bits: 0 }, Real { bits: ONE_BITS }),
                        1,
                        false,
                    );
                    let mut u = "<line x1=".to_owned();
                    u.append(tx.as_str());
                    u.append(" y1=6 x2=");
                    u.append(tx.as_str());
                    u.append(" y2=18 stroke=#586069 stroke-width=1 stroke-dasharray=\"2,2\"/>");
                    u
                },
                None => "".to_owned(),
            };
            s.append(tick.as_str());
            s
        },
        _ => "".to_owned(),
    }
}

/// Draws a bar that shows where a measured value lies between its limits.
pub fn range_bar_svg(m: Real, sp: &Spec) -> (res: String)
    ensures
        res@ == range_bar(m, *sp),
{
    let mut s =
        "<svg width=200 height=24 viewBox=\"0 0 200 24\" class=range><rect x=10 y=10 width=180 height=4 fill=#e1e4e8 rx=2/>".to_owned();
    s.append(range_marks_svg(m, sp).as_str());
    s.append("</svg>");
    s
}

/// Relative deviation from the typical value, in percent, with its style class;
/// none without a typical value that is clearly not zero.
pub open spec fn delta(m: Real, typ: Option<Real>) -> Option<(Real, Seq<char>)> {
    match typ {
        None => None,
        Some(t) => if t.abs_spec().below(Real { bits: EPSILON_BITS }) {
            None
        } else {
            let rel = m.sub_spec(t).div_spec(t.abs_spec());
            let class = if rel.abs_spec().at_most(Real { bits: SMALL_DELTA_BITS }) {
                "delta-ok"@
            } else if rel.abs_spec().at_most(Real { bits: LARGE_DELTA_BITS }) {
                "delta-warn"@
            } else {
                "delta-bad"@
            };
            Some((rel.mul_spec(Real { bits: HUNDRED_BITS }), class))
        },
    }
}

/// Relative deviation from the typical value, in percent, with its style class.
pub fn delta_from_typ(m: Real, typ: Option<Real>) -> (res: Option<(Real, &'static str)>)
    ensures
        match res {
            Some((pct, class)) => delta(m, typ) == Some((pct, class@)),
            None => delta(m, typ) is None,
        },
{
    match typ {
        None => None,
        Some(t) => {
            if t.abs().lt(Real { bits: EPSILON_BITS }) {
                return None;
            }
            let rel = m.sub(t).div(t.abs());
            let class = if rel.abs().le(Real { bits: SMALL_DELTA_BITS }) {
                "delta-ok"
            } else if rel.abs().le(Real { bits: LARGE_DELTA_BITS }) {
                "delta-warn"
            } else {
                "delta-bad"
            };
            Some((rel.mul(Real { bits: HUNDRED_BITS }), class))
        },
    }
}

/// The deviation from the typical value as a coloured span, `none` where there
/// is none.
pub open spec fn delta_span(m: Real, typ: Option<Real>, none: Seq<char>) -> Seq<char> {
    match delta(m, typ) {
        Some((pct, class)) => "<span class="@ + class + ">"@ + numfmt::fixed(pct, 1, true)
            + "%</span>"@,
        None => none,
    }
}

fn delta_span_html(m: Real, typ: Option<Real>, none: &str) -> (res: String)
    ensures
        res@ == delta_span(m, typ, none@),
{
    match delta_from_typ(m, typ) {
        Some((pct, class)) => {
            let mut s = "<span class=".to_owned();
            s.append(class);
            s.append(">");
            s.append(numfmt::to_fixed(pct, 1, true).as_str());
            s.append("%</span>");
            s
        },
        None => none.to_owned(),
    }
}

/// The style sheet of every page.
pub const STYLE: &'static str = "<style>
:root{--ok:#22863a;--bad:#b31d28;--warn:#9a6b00;--mute:#586069}
body{font:14px/1.5 -apple-system,system-ui,sans-serif;max-width:1100px;margin:2em auto;padding:0 1.5em;color:#24292e}
h1{font-size:1.6em;margin:.4em 0}
h2{font-size:1.15em;margin:1.6em 0 .5em;border-bottom:1px solid #eee;padding-bottom:.2em}
.corner-tag{display:inline-block;font-size:.55em;padding:.15em .55em;border-radius:1em;background:#f1f8ff;color:#0366d6;vertical-align:middle;margin-left:.5em}
table{border-collapse:collapse;margin:1em 0;width:100%}
th,td{border:1px solid #e1e4e8;padding:.4em .7em;text-align:left;vertical-align:middle}
th{background:#f6f8fa;font-weight:600;font-size:90%}
.pass{background:#e6ffed;color:var(--ok)}
.fail{background:#ffeef0;color:var(--bad);font-weight:600}
.skip{background:#f6f8fa;color:var(--mute)}
.meta{color:var(--mute);font-size:90%;margin:.4em 0 1em}
.banner{display:inline-block;padding:.45em 1em;border-radius:.4em;font-weight:700;letter-spacing:.05em;font-size:.95em;margin:.5em 0}
.banner-ok{background:#dcffe4;color:var(--ok)}
.banner-bad{background:#ffd6d8;color:var(--bad)}
.card{background:#fafbfc;border:1px solid #e1e4e8;border-radius:.4em;padding:.7em 1em;margin:.5em 0 1.5em}
.meta-tbl{width:auto}
.meta-tbl th{background:none;color:var(--mute);font-weight:500;border:0;padding:.15em .6em;text-align:right}
.meta-tbl td{border:0;padding:.15em .6em}
table.summary td>div+div.delta{margin-top:.15em;font-size:80%}
.delta-ok{color:var(--ok)}
.delta-warn{color:var(--warn)}
.delta-bad{color:var(--bad);font-weight:600}
svg.range,svg.hist{display:block}
.range circle.mark-ok{fill:#22863a;stroke:#fff;stroke-width:1.5}
.range circle.mark-bad{fill:#b31d28;stroke:#fff;stroke-width:1.5}
.tag-typical{display:inline-block;font-size:.7em;padding:.05em .5em;border-radius:.8em;background:#e7f3ff;color:#0366d6;margin-left:.4em}
.tag-etc{display:inline-block;font-size:.7em;padding:.05em .5em;border-radius:.8em;background:#fff5d6;color:#735c00;margin-left:.4em}
.tag-mc{display:inline-block;font-size:.7em;padding:.05em .5em;border-radius:.8em;background:#f4d7ff;color:#6e2c91;margin-left:.4em}
.pf-pass{float:right;color:var(--ok);font-weight:600}
.pf-fail{float:right;color:var(--bad);font-weight:700}
.corner-grid{display:grid;grid-template-columns:repeat(auto-fit,minmax(280px,1fr));gap:.7em}
.corner-card{border:1px solid #e1e4e8;border-radius:.35em;padding:.55em .7em;background:#fff}
.corner-head{margin-bottom:.4em}
.corner-head a{text-decoration:none;color:#0366d6}
img.thumb{width:100%;height:auto;border:1px solid #eee;border-radius:.25em}
img.wave{max-width:100%;border:1px solid #e1e4e8;border-radius:.3em}
.meta-mini{color:var(--mute);font-size:78%;margin-top:.4em}
details{margin:1em 0;border:1px solid #e1e4e8;border-radius:.3em;padding:.5em .8em;background:#fafbfc}
details summary{cursor:pointer;font-weight:600;color:#0366d6}
pre.src{font:11px/1.4 ui-monospace,Menlo,Consolas,monospace;background:#f6f8fa;padding:.6em .8em;border-radius:.25em;overflow-x:auto;max-height:480px}
code{font:.92em ui-monospace,Menlo,Consolas,monospace;background:#f6f8fa;padding:.1em .35em;border-radius:.25em}
.hist text{font-family:-apple-system,sans-serif}
</style>";

/// The first `n` bytes of a run's key.
pub open spec fn short_key(sha: Seq<char>, n: nat) -> Seq<char> {
    sha.take(measure::position_of_byte(sha, 0, n)->0)
}

/// Whether the first `n` bytes of a key can be shown: it has as many, and no character lies
/// across their end.
pub open spec fn key_shows(sha: Seq<char>, n: nat) -> bool {
    measure::position_of_byte(sha, 0, n) is Some
}

/// Says whether the first `n` bytes of a key can be shown.
pub fn shows_key(sha: &str, n: u8) -> (res: bool)
    ensures
        res == key_shows(sha@, n as nat),
{
    measure::find_byte(&text::chars_of(sha), n as u128).is_some()
}

fn short(sha: &str, n: u8) -> (res: String)
    requires
        key_shows(sha@, n as nat),
    ensures
        res@ == short_key(sha@, n as nat),
{
    let v = text::chars_of(sha);
    match measure::find_byte(&v, n as u128) {
        Some(k) => {
            let r = text::slice_string(&v, 0, k);
            assert(r@ =~= sha@.take(k as int));
            r
        },
        None => String::new(),
    }
}

/// Of the key of a run as many characters as asked for can be shown, up to all of them.
pub proof fn run_keys_can_be_shown(sha: Seq<char>, n: nat)
    requires
        cache::is_key(sha),
        n <= 64,
    ensures
        key_shows(sha, n),
        short_key(sha, n) == sha.take(n as int),
{
    lemma_byte_position(sha, 0, n);
}

proof fn lemma_byte_position(sha: Seq<char>, i: int, n: nat)
    requires
        cache::is_key(sha),
        0 <= i <= n <= sha.len(),
    ensures
        liberty::byte_offset(sha, i) == i,
        measure::position_of_byte(sha, i, n) == Some(n as int),
    decreases n - i,
{
    lemma_byte_offset(sha, i);
    if i < n {
        lemma_byte_position(sha, i + 1, n);
    }
}

proof fn lemma_byte_offset(sha: Seq<char>, i: int)
    requires
        cache::is_key(sha),
        0 <= i <= sha.len(),
    ensures
        liberty::byte_offset(sha, i) == i,
    decreases i,
{
    if i > 0 {
        lemma_byte_offset(sha, i - 1);
        assert(cache::is_hex_digit(sha[i - 1]));
    }
}

/// Title and headline of a corner's page.
pub open spec fn page_head_text(tb: Seq<char>, o: RunOutcome, multi_view: bool) -> Seq<char> {
    "<!doctype html><meta charset=utf-8><title>"@ + tb + " – "@ + o.corner.label@ + "</title>\n"@
        + STYLE@ + "<h1>"@ + tb + " <span class=corner-tag>"@ + o.corner.label@ + "</span>"@
        + view_chip(o.corner.view, multi_view) + "</h1>\n"@
}

fn page_head(tb: &str, o: &RunOutcome, multi_view: bool) -> (res: String)
    ensures
        res@ == page_head_text(tb@, *o, multi_view),
{
    let mut s = "<!doctype html><meta charset=utf-8><title>".to_owned();
    s.append(tb);
    s.append(" – ");
    s.append(o.corner.label.as_str());
    s.append("</title>\n");
    s.append(STYLE);
    s.append("<h1>");
    s.append(tb);
    s.append(" <span class=corner-tag>");
    s.append(o.corner.label.as_str());
    s.append("</span>");
    s.append(view_chip_str(o.corner.view, multi_view));
    s.append("</h1>\n");
    s
}

/// The view, where a batch has both.
pub open spec fn view_chip(v: corner::View, multi_view: bool) -> Seq<char> {
    if !multi_view {
        ""@
    } else {
        match v {
            corner::View::Schematic => " <span class=tag-sch>Sch</span>"@,
            corner::View::Layout => " <span class=tag-lay>Lay</span>"@,
        }
    }
}

fn view_chip_str(v: corner::View, multi_view: bool) -> (res: &'static str)
    ensures
        res@ == view_chip(v, multi_view),
{
    if !multi_view {
        ""
    } else {
        match v {
            corner::View::Schematic => " <span class=tag-sch>Sch</span>",
            corner::View::Layout => " <span class=tag-lay>Lay</span>",
        }
    }
}

/// Seed and key of a run.
pub open spec fn key_row(o: RunOutcome) -> Seq<char> {
    match o.corner.seed {
        Some(seed) => "<tr><th>seed<td>"@ + text::dec(seed as nat) + "<th>sha<td><code>"@
            + short_key(o.sha@, 12) + "</code>\n"@,
        None => "<tr><th>sha<td colspan=3><code>"@ + short_key(o.sha@, 12) + "</code>\n"@,
    }
}

fn key_row_html(o: &RunOutcome) -> (res: String)
    requires
        key_shows(o.sha@, 12),
    ensures
        res@ == key_row(*o),
{
    let mut s = match o.corner.seed {
        Some(seed) => {
            let mut t = "<tr><th>seed<td>".to_owned();
            t.append(text::u64_to_string(seed).as_str());
            t.append("<th>sha<td><code>");
            t
        },
        None => "<tr><th>sha<td colspan=3><code>".to_owned(),
    };
    s.append(short(o.sha.as_str(), 12).as_str());
    s.append("</code>\n");
    s
}

/// What is known of a run besides its results.
pub open spec fn meta_card_text(tb: Seq<char>, o: RunOutcome, multi_view: bool) -> Seq<char> {
    "<div class=card><table class=meta-tbl><tr><th>kind<td>"@ + o.corner.kind.variant()
        + "<th>lib section<td>"@ + o.corner.lib_section@ + "\n<tr><th>vdd<td>"@
        + numfmt::fixed(o.corner.vdd, 3, false) + " V<th>temp<td>"@
        + numfmt::fixed(o.corner.temp_c, 1, false) + " °C\n"@ + key_row(o) + "<tr><th>cached<td>"@
        + (if o.from_cache { "yes"@ } else { "no"@ }) + "<th>artifacts<td><a href=\""@
        + stem(tb, o.corner, multi_view) + ".deck.spice\">deck</a> · <a href=\""@
        + stem(tb, o.corner, multi_view) + ".log\">log</a> · <a href=\""@
        + stem(tb, o.corner, multi_view) + ".png\">png</a>\n</table></div>"@
}

fn meta_card(tb: &str, o: &RunOutcome, multi_view: bool) -> (res: String)
    requires
        key_shows(o.sha@, 12),
    ensures
        res@ == meta_card_text(tb@, *o, multi_view),
{
    let name = corner_stem(tb, &o.corner, multi_view);
    let mut s = "<div class=card><table class=meta-tbl><tr><th>kind<td>".to_owned();
    s.append(o.corner.kind.variant_name());
    s.append("<th>lib section<td>");
    s.append(o.corner.lib_section.as_str());
    s.append("\n<tr><th>vdd<td>");
    s.append(numfmt::to_fixed(o.corner.vdd, 3, false).as_str());
    s.append(" V<th>temp<td>");
    s.append(numfmt::to_fixed(o.corner.temp_c, 1, false).as_str());
    s.append(" °C\n");
    s.append(key_row_html(o).as_str());
    s.append("<tr><th>cached<td>");
    s.append(if o.from_cache { "yes" } else { "no" });
    s.append("<th>artifacts<td><a href=\"");
    s.append(name.as_str());
    s.append(".deck.spice\">deck</a> · <a href=\"");
    s.append(name.as_str());
    s.append(".log\">log</a> · <a href=\"");
    s.append(name.as_str());
    s.append(".png\">png</a>\n</table></div>");
    s
}

/// The unit of a measurement, by its spec.
pub open spec fn spec_unit(sp: Option<Spec>) -> Seq<char> {
    match sp {
        Some(x) => unit_text(x.unit),
        None => ""@,
    }
}

pub fn spec_unit_str<'b>(sp: Option<&'b Spec>) -> (res: &'b str)
    ensures
        match sp {
            Some(x) => res@ == unit_text(x.unit),
            None => res@ == ""@,
        },
{
    match sp {
        Some(x) => unit_str(&x.unit),
        None => "",
    }
}

/// One row of the table of measurements.
pub open spec fn measure_row(name: Seq<char>, v: MeasurementValue, sp: Option<Spec>) -> Seq<char> {
    let unit = spec_unit(sp);
    let shown = match v {
        MeasurementValue::Number(x) => value_text(x, unit),
        MeasurementValue::Failed => "<span class=fail>failed</span>"@,
    };
    let min = match sp {
        Some(x) => value_or_dash(x.min, unit),
        None => "—"@,
    };
    let typ = match sp {
        Some(x) => value_or_dash(x.typ, unit),
        None => "—"@,
    };
    let max = match sp {
        Some(x) => value_or_dash(x.max, unit),
        None => "—"@,
    };
    let deviation = match (v, sp) {
        (MeasurementValue::Number(m), Some(x)) => delta_span(m, x.typ, "—"@),
        _ => "—"@,
    };
    let bar = match (v, sp) {
        (MeasurementValue::Number(m), Some(x)) => range_bar(m, x),
        _ => ""@,
    };
    "<tr><td>"@ + name + "<td>"@ + shown + "<td>"@ + min + "<td>"@ + typ + "<td>"@ + max + "<td>"@
        + deviation + "<td>"@ + bar + "\n"@
}

fn measure_row_html(name: &str, v: MeasurementValue, specs: &SpecBundle) -> (res: String)
    ensures
        res@ == measure_row(name@, v, limits::find_spec(specs.specs@, name@)),
{
    let sp = specs.find(name);
    let unit = spec_unit_str(sp);
    let shown = match v {
        MeasurementValue::Number(x) => fmt_value(x, unit),
        MeasurementValue::Failed => "<span class=fail>failed</span>".to_owned(),
    };
    let (min, typ, max): (String, String, String) = match sp {
        Some(x) => (fmt_or_dash(x.min, unit), fmt_or_dash(x.typ, unit), fmt_or_dash(x.max, unit)),
        None => ("—".to_owned(), "—".to_owned(), "—".to_owned()),
    };
    let (deviation, bar): (String, String) = match (v, sp) {
        (MeasurementValue::Number(m), Some(x)) => (
            delta_span_html(m, x.typ, "—"),
            range_bar_svg(m, x),
        ),
        _ => ("—".to_owned(), "".to_owned()),
    };
    let mut s = "<tr><td>".to_owned();
    s.append(name);
    s.append("<td>");
    s.append(shown.as_str());
    s.append("<td>");
    s.append(min.as_str());
    s.append("<td>");
    s.append(typ.as_str());
    s.append("<td>");
    s.append(max.as_str());
    s.append("<td>");
    s.append(deviation.as_str());
    s.append("<td>");
    s.append(bar.as_str());
    s.append("\n");
    s
}

/// The rows of the table of measurements.
pub open spec fn measure_rows_text(listing: Seq<(String, MeasurementValue)>, specs: Seq<Spec>, n: int) -> Seq<char>
    decreases n,
{
    if n <= 0 {
        Seq::empty()
    } else {
        measure_rows_text(listing, specs, n - 1) + measure_row(listing[n - 1].0@, listing[n - 1].1, limits::find_spec(specs, listing[n - 1].0@))
    }
}

fn measure_rows(o: &RunOutcome, specs: &SpecBundle) -> (res: String)
    ensures
        res@ == measure_rows_text(o.measures.values.listing(), specs.specs@, o.measures.values.listing().len() as int),
{
    let mut s = String::new();
    let mut i: usize = 0;
    while i < o.measures.values.len()
        invariant
            i <= o.measures.values.listing().len(),
            s@ == measure_rows_text(o.measures.values.listing(), specs.specs@, i as int),
        decreases o.measures.values.listing().len() - i,
    {
        s.append(measure_row_html(o.measures.values.name_at(i).as_str(), o.measures.values.value_at(i), specs).as_str());
        i = i + 1;
    }
    s
}

/// One row of the table of spec outcomes.
pub open spec fn check_row_text(name: Seq<char>, c: SpecCheck, sp: Option<Spec>) -> Seq<char> {
    "<tr><td>"@ + name + "<td class="@ + cell_class(c) + ">"@ + cell_text(c, spec_unit(sp))
        + "\n"@
}

fn check_row(name: &str, c: SpecCheck, specs: &SpecBundle) -> (res: String)
    ensures
        res@ == check_row_text(name@, c, limits::find_spec(specs.specs@, name@)),
{
    let (txt, class): (String, &str) = check_cell(c, spec_unit_str(specs.find(name)));
    let mut s = "<tr><td>".to_owned();
    s.append(name);
    s.append("<td class=");
    s.append(class);
    s.append(">");
    s.append(txt.as_str());
    s.append("\n");
    s
}

/// The rows of the table of spec outcomes.
pub open spec fn check_rows_text(checks: Seq<(String, SpecCheck)>, specs: Seq<Spec>, n: int) -> Seq<char>
    decreases n,
{
    if n <= 0 {
        Seq::empty()
    } else {
        check_rows_text(checks, specs, n - 1) + check_row_text(checks[n - 1].0@, checks[n - 1].1, limits::find_spec(specs, checks[n - 1].0@))
    }
}

fn check_rows(o: &RunOutcome, specs: &SpecBundle) -> (res: String)
    ensures
        res@ == check_rows_text(o.spec_checks@, specs.specs@, o.spec_checks@.len() as int),
{
    let mut s = String::new();
    let mut i: usize = 0;
    while i < o.spec_checks.len()
        invariant
            i <= o.spec_checks.len(),
            s@ == check_rows_text(o.spec_checks@, specs.specs@, i as int),
        decreases o.spec_checks.len() - i,
    {
        s.append(check_row(o.spec_checks[i].0.as_str(), o.spec_checks[i].1, specs).as_str());
        i = i + 1;
    }
    s
}

/// One row of the table of verifiers.
pub open spec fn verifier_row(name: Seq<char>, r: Option<VerifierResult>) -> Seq<char> {
    match r {
        None => "<tr><td>"@ + name + "<td>—<td>—<td class=skipped>not run\n"@,
        Some(v) => "<tr><td>"@ + name + "<td>"@ + text::dec(v.count as nat) + "<td>"@ + (
        if v.first_message@.len() == 0 {
            "—"@
        } else {
            escaped(v.first_message@)
        }) + (if v.count == 0 {
            "<td class=pass>clean\n"@
        } else {
            "<td class=fail>violations\n"@
        }),
    }
}

fn verifier_row_html(name: &str, r: &Option<VerifierResult>) -> (res: String)
    ensures
        res@ == verifier_row(name@, *r),
{
    let mut s = "<tr><td>".to_owned();
    s.append(name);
    match r {
        None => {
            s.append("<td>—<td>—<td class=skipped>not run\n");
        },
        Some(v) => {
            s.append("<td>");
            s.append(text::usize_to_string(v.count).as_str());
            s.append("<td>");
            let first = if v.first_message.as_str().is_empty() {
                "—".to_owned()
            } else {
                html_escape(v.first_message.as_str())
            };
            s.append(first.as_str());
            s.append(
                if v.is_clean() {
                    "<td class=pass>clean\n"
                } else {
                    "<td class=fail>violations\n"
                },
            );
        },
    }
    s
}

/// The table of verifiers; nothing where none ran.
pub open spec fn verification_section(o: RunOutcome) -> Seq<char> {
    if o.verify.drc is None && o.verify.lvs is None && o.verify.em is None {
        ""@
    } else {
        "<h2>Verification</h2><table class=checks><tr><th>verifier<th>count<th>first<th>result"@
            + verifier_row("DRC"@, o.verify.drc) + verifier_row("LVS"@, o.verify.lvs)
            + verifier_row("EM"@, o.verify.em) + "</table>"@
    }
}

fn verification_html(o: &RunOutcome) -> (res: String)
    ensures
        res@ == verification_section(*o),
{
    if o.verify.drc.is_none() && o.verify.lvs.is_none() && o.verify.em.is_none() {
        return "".to_owned();
    }
    let mut s =
        "<h2>Verification</h2><table class=checks><tr><th>verifier<th>count<th>first<th>result".to_owned();
    s.append(verifier_row_html("DRC", &o.verify.drc).as_str());
    s.append(verifier_row_html("LVS", &o.verify.lvs).as_str());
    s.append(verifier_row_html("EM", &o.verify.em).as_str());
    s.append("</table>");
    s
}

/// The picture of the waveform; nothing where the run left none.
pub open spec fn waveform_section(name: Seq<char>, o: RunOutcome) -> Seq<char> {
    if o.has_waveform {
        "<h2>Waveform</h2><img class=wave src=\""@ + name + ".png\" alt=\"waveform for "@
            + o.corner.label@ + "\">\n"@
    } else {
        ""@
    }
}

fn waveform_html(name: &str, o: &RunOutcome) -> (res: String)
    ensures
        res@ == waveform_section(name@, *o),
{
    if !o.has_waveform {
        return "".to_owned();
    }
    let mut s = "<h2>Waveform</h2><img class=wave src=\"".to_owned();
    s.append(name);
    s.append(".png\" alt=\"waveform for ");
    s.append(o.corner.label.as_str());
    s.append("\">\n");
    s
}

/// The first `n` lines with line breaks between them.
pub open spec fn clipped(lines: Seq<Seq<char>>, n: int) -> Seq<char>
    decreases n,
{
    if n <= 0 {
        Seq::empty()
    } else if n == 1 {
        lines[0]
    } else {
        clipped(lines, n - 1) + "\n"@ + lines[n - 1]
    }
}

fn clip(lines: &Vec<String>, n: usize) -> (res: String)
    requires
        n <= lines@.len(),
    ensures
        res@ == clipped(text::texts(lines@), n as int),
{
    let ghost all = text::texts(lines@);
    if n == 0 {
        return String::new();
    }
    let mut s = lines[0].clone();
    assert(all[0] == lines@[0]@);
    let mut i: usize = 1;
    while i < n
        invariant
            1 <= i <= n <= lines@.len(),
            all == text::texts(lines@),
            s@ == clipped(all, i as int),
        decreases n - i,
    {
        s.append("\n");
        s.append(lines[i].as_str());
        assert(all[i as int] == lines@[i as int]@);
        i = i + 1;
    }
    s
}

/// How many lines of the log a page shows.
pub open spec fn shown_lines(n: nat) -> int {
    if n > 400 {
        400
    } else {
        n as int
    }
}

/// The deck and the simulator's log, folded away.
pub open spec fn sources_section(name: Seq<char>, o: RunOutcome) -> Seq<char> {
    let log = text::lines(o.stdout@);
    "<details><summary>SPICE deck ("@ + text::dec(text::lines(o.deck@).len())
        + " lines)</summary><pre class=src>"@ + escaped(o.deck@)
        + "</pre></details>\n<details><summary>ngspice log ("@ + text::dec(log.len()) + " lines"@ + (
    if log.len() > 400 {
        " (showing first 400 of "@ + text::dec(log.len()) + " lines — see <a href=\""@ + name
            + ".log\">full log</a>)"@
    } else {
        ""@
    }) + ")</summary><pre class=src>"@ + escaped(clipped(log, shown_lines(log.len())))
        + "</pre></details>\n"@
}

fn sources_html(name: &str, o: &RunOutcome) -> (res: String)
    ensures
        res@ == sources_section(name@, *o),
{
    let deck_lines = text::split_lines(o.deck.as_str());
    let log_lines = text::split_lines(o.stdout.as_str());
    assert(text::texts(deck_lines@).len() == deck_lines@.len());
    assert(text::texts(log_lines@).len() == log_lines@.len());
    let mut s = "<details><summary>SPICE deck (".to_owned();
    s.append(text::usize_to_string(deck_lines.len()).as_str());
    s.append(" lines)</summary><pre class=src>");
    s.append(html_escape(o.deck.as_str()).as_str());
    s.append("</pre></details>\n<details><summary>ngspice log (");
    s.append(text::usize_to_string(log_lines.len()).as_str());
    s.append(" lines");
    let note = if log_lines.len() > 400 {
        let mut t = " (showing first 400 of ".to_owned();
        t.append(text::usize_to_string(log_lines.len()).as_str());
        t.append(" lines — see <a href=\"");
        t.append(name);
        t.append(".log\">full log</a>)");
        t
    } else {
        "".to_owned()
    };
    s.append(note.as_str());
    s.append(")</summary><pre class=src>");
    let n: usize = if log_lines.len() > 400 {
        400
    } else {
        log_lines.len()
    };
    s.append(html_escape(clip(&log_lines, n).as_str()).as_str());
    s.append("</pre></details>\n");
    s
}

/// The page of one corner.
#[verifier::opaque]
pub open spec fn corner_html_text(tb: Seq<char>, o: RunOutcome, specs: Seq<Spec>, multi_view: bool) -> Seq<char> {
    page_head_text(tb, o, multi_view) + meta_card_text(tb, o, multi_view)
        + "<h2>Measurements</h2><table class=meas><tr><th>name<th>measured<th>min<th>typ<th>max<th>Δ vs typ<th>position"@
        + measure_rows_text(o.measures.values.listing(), specs, o.measures.values.listing().len() as int)
        + "</table><h2>Spec checks</h2><table class=checks><tr><th>name<th>result"@
        + check_rows_text(o.spec_checks@, specs, o.spec_checks@.len() as int) + "</table>"@
        + verification_section(o) + waveform_section(stem(tb, o.corner, multi_view), o)
        + sources_section(stem(tb, o.corner, multi_view), o)
}

/// Renders the page of one corner.
pub fn render_corner_html(tb: &str, o: &RunOutcome, specs: &SpecBundle, multi_view: bool) -> (res: String)
    requires
        key_shows(o.sha@, 12),
    ensures
        res@ == corner_html_text(tb@, *o, specs.specs@, multi_view),
{
    proof {
        reveal(corner_html_text);
    }
    let name = corner_stem(tb, &o.corner, multi_view);
    let mut s = page_head(tb, o, multi_view);
    s.append(meta_card(tb, o, multi_view).as_str());
    s.append("<h2>Measurements</h2><table class=meas><tr><th>name<th>measured<th>min<th>typ<th>max<th>Δ vs typ<th>position");
    s.append(measure_rows(o, specs).as_str());
    s.append("</table><h2>Spec checks</h2><table class=checks><tr><th>name<th>result");
    s.append(check_rows(o, specs).as_str());
    s.append("</table>");
    s.append(verification_html(o).as_str());
    s.append(waveform_html(name.as_str(), o).as_str());
    s.append(sources_html(name.as_str(), o).as_str());
    s
}

// ── rows of a summary ──────────────────────────────────────────────

/// What one spec came to at every corner.
#[derive(Debug)]
pub struct SummaryRow {
    pub spec_name: String,
    pub unit: Option<String>,
    /// Corner label and outcome, in the order of the runs.
    pub per_corner: Vec<(String, SpecCheck)>,
}

/// The first outcome listed under `name`; skipped where there is none.
pub open spec fn named_check(s: Seq<(String, SpecCheck)>, name: Seq<char>) -> SpecCheck
    decreases s.len(),
{
    if s.len() == 0 {
        SpecCheck::Skipped
    } else if s[0].0@ == name {
        s[0].1
    } else {
        named_check(s.skip(1), name)
    }
}

pub fn find_check(s: &Vec<(String, SpecCheck)>, name: &str) -> (res: SpecCheck)
    ensures
        res == named_check(s@, name@),
{
    let mut i: usize = 0;
    assert(s@.skip(0) =~= s@);
    while i < s.len()
        invariant
            i <= s.len(),
            named_check(s@, name@) == named_check(s@.skip(i as int), name@),
        decreases s.len() - i,
    {
        assert(s@.skip(i as int).skip(1) =~= s@.skip(i + 1));
        if text::same(s[i].0.as_str(), name) {
            return s[i].1;
        }
        i = i + 1;
    }
    SpecCheck::Skipped
}

/// Whether `row` says what `sp` came to in every run.
pub open spec fn is_row_of(row: SummaryRow, sp: Spec, outcomes: Seq<RunOutcome>) -> bool {
    &&& row.spec_name@ == sp.name@
    &&& paths::opt_text(row.unit) == paths::opt_text(sp.unit)
    &&& row.per_corner@.len() == outcomes.len()
    &&& forall|j: int|
        #![trigger row.per_corner@[j]]
        0 <= j < outcomes.len() ==> row.per_corner@[j].0@ == outcomes[j].corner.label@
            && row.per_corner@[j].1 == named_check(outcomes[j].spec_checks@, sp.name@)
}

pub fn row_for(sp: &Spec, outcomes: &[RunOutcome]) -> (res: SummaryRow)
    ensures
        is_row_of(res, *sp, outcomes@),
{
    let mut per_corner: Vec<(String, SpecCheck)> = Vec::new();
    let mut j: usize = 0;
    while j < outcomes.len()
        invariant
            j <= outcomes.len(),
            per_corner@.len() == j,
            forall|k: int|
                #![trigger per_corner@[k]]
                0 <= k < j ==> per_corner@[k].0@ == outcomes@[k].corner.label@
                    && per_corner@[k].1 == named_check(outcomes@[k].spec_checks@, sp.name@),
        decreases outcomes.len() - j,
    {
        let check = find_check(&outcomes[j].spec_checks, sp.name.as_str());
        per_corner.push((outcomes[j].corner.label.clone(), check));
        j = j + 1;
    }
    SummaryRow { spec_name: sp.name.clone(), unit: sp.unit.clone(), per_corner }
}

/// Whether the run is a Monte Carlo draw.
pub open spec fn is_mc(o: RunOutcome) -> bool {
    o.corner.kind == CornerKind::Mc
}

/// Monte Carlo draws among the first `n` runs.
pub open spec fn mc_count(outcomes: Seq<RunOutcome>, n: int) -> nat
    decreases n,
{
    if n <= 0 {
        0
    } else {
        mc_count(outcomes, n - 1) + if is_mc(outcomes[n - 1]) {
            1nat
        } else {
            0nat
        }
    }
}

pub fn count_mc(outcomes: &[RunOutcome]) -> (res: usize)
    ensures
        res == mc_count(outcomes@, outcomes@.len() as int),
        res <= outcomes@.len(),
{
    let mut c: usize = 0;
    let mut i: usize = 0;
    while i < outcomes.len()
        invariant
            c <= i <= outcomes.len(),
            c == mc_count(outcomes@, i as int),
        decreases outcomes.len() - i,
    {
        if outcomes[i].corner.kind == CornerKind::Mc {
            c = c + 1;
        }
        i = i + 1;
    }
    c
}

/// No spec failed at any corner.
pub open spec fn all_pass(rows: Seq<SummaryRow>) -> bool {
    forall|i: int, j: int|
        0 <= i < rows.len() && 0 <= j < rows[i].per_corner@.len() ==> !((
        #[trigger] rows[i].per_corner@[j]).1 is Fail)
}

pub fn none_fails(rows: &Vec<SummaryRow>) -> (res: bool)
    ensures
        res == all_pass(rows@),
{
    let mut i: usize = 0;
    while i < rows.len()
        invariant
            i <= rows.len(),
            forall|k: int, j: int|
                0 <= k < i && 0 <= j < rows@[k].per_corner@.len() ==> !((
                #[trigger] rows@[k].per_corner@[j]).1 is Fail),
        decreases rows.len() - i,
    {
        let mut j: usize = 0;
        while j < rows[i].per_corner.len()
            invariant
                i < rows.len(),
                j <= rows@[i as int].per_corner@.len(),
                forall|k: int|
                    0 <= k < j ==> !((#[trigger] rows@[i as int].per_corner@[k]).1 is Fail),
            decreases rows@[i as int].per_corner@.len() - j,
        {
            if rows[i].per_corner[j].1.is_fail() {
                assert(rows@[i as int].per_corner@[j as int].1 is Fail);
                return false;
            }
            j = j + 1;
        }
        i = i + 1;
    }
    true
}

/// The numbers that the Monte Carlo draws among the first `n` runs measured
/// under `name`.
pub open spec fn draws(outcomes: Seq<RunOutcome>, name: Seq<char>, n: int) -> Seq<Real>
    decreases n,
{
    if n <= 0 {
        Seq::empty()
    } else {
        let before = draws(outcomes, name, n - 1);
        let o = outcomes[n - 1];
        if !is_mc(o) {
            before
        } else {
            match harness::measured_number(o.measures.values@, name) {
                Some(v) => before.push(v),
                None => before,
            }
        }
    }
}

/// All numbers that Monte Carlo draws measured under `name`.
pub open spec fn all_draws(outcomes: Seq<RunOutcome>, name: Seq<char>) -> Seq<Real> {
    draws(outcomes, name, outcomes.len() as int)
}

/// The numbers that Monte Carlo draws measured under `name`.
pub fn mc_values(outcomes: &[RunOutcome], name: &str) -> (res: Vec<Real>)
    ensures
        res@ == all_draws(outcomes@, name@),
{
    let mut out: Vec<Real> = Vec::new();
    let mut i: usize = 0;
    while i < outcomes.len()
        invariant
            i <= outcomes.len(),
            out@ == draws(outcomes@, name@, i as int),
        decreases outcomes.len() - i,
    {
        if outcomes[i].corner.kind == CornerKind::Mc {
            match outcomes[i].measures.get(name) {
                Some(MeasurementValue::Number(v)) => {
                    out.push(v);
                },
                _ => {},
            }
        }
        i = i + 1;
    }
    out
}

/// Low and high representative of the draws; their mean where there is none.
pub open spec fn mc_span(style: McSummaryStyle, vs: Seq<Real>) -> (Real, Real) {
    match style.summary(vs) {
        Some((lo, _, hi)) => (lo, hi),
        None => (limits::mean(vs), limits::mean(vs)),
    }
}

pub fn span_of(style: McSummaryStyle, vs: &Vec<Real>) -> (res: (Real, Real))
    ensures
        res == mc_span(style, vs@),
{
    match style.summarize(vs) {
        Some((lo, _, hi)) => (lo, hi),
        None => (limits::mean_of(vs), limits::mean_of(vs)),
    }
}

/// Outcome of the draws against a spec; without one there is nothing to miss.
pub open spec fn mc_gate(sp: Option<Spec>, vs: Seq<Real>, style: McSummaryStyle) -> SpecCheck {
    match sp {
        Some(x) => x.mc_outcome(vs, style),
        None => SpecCheck::Pass { measured: mc_span(style, vs).1 },
    }
}

pub fn limit_min(sp: Option<&Spec>) -> (res: Option<Real>)
    ensures
        match sp {
            Some(x) => res == x.min,
            None => res is None,
        },
{
    match sp {
        Some(x) => x.min,
        None => None,
    }
}

pub fn limit_typ(sp: Option<&Spec>) -> (res: Option<Real>)
    ensures
        match sp {
            Some(x) => res == x.typ,
            None => res is None,
        },
{
    match sp {
        Some(x) => x.typ,
        None => None,
    }
}

pub fn limit_max(sp: Option<&Spec>) -> (res: Option<Real>)
    ensures
        match sp {
            Some(x) => res == x.max,
            None => res is None,
        },
{
    match sp {
        Some(x) => x.max,
        None => None,
    }
}

/// The lower limit, if a spec has one.
pub open spec fn min_of(sp: Option<Spec>) -> Option<Real> {
    match sp {
        Some(x) => x.min,
        None => None,
    }
}

/// The typical value, if a spec has one.
pub open spec fn typ_of(sp: Option<Spec>) -> Option<Real> {
    match sp {
        Some(x) => x.typ,
        None => None,
    }
}

/// The upper limit, if a spec has one.
pub open spec fn max_of(sp: Option<Spec>) -> Option<Real> {
    match sp {
        Some(x) => x.max,
        None => None,
    }
}

// ── Markdown summary ───────────────────────────────────────────────

/// Name, unit and limits of a spec, as cells of a Markdown row.
pub open spec fn md_limits_text(name: Seq<char>, unit: Seq<char>, sp: Option<Spec>) -> Seq<char> {
    "| "@ + name + " | "@ + unit + " | "@ + value_or_dash(min_of(sp), unit) + " | "@
        + value_or_dash(typ_of(sp), unit) + " | "@ + value_or_dash(max_of(sp), unit) + " |"@
}

fn md_limits(name: &str, unit: &str, specs: &SpecBundle) -> (res: String)
    ensures
        res@ == md_limits_text(name@, unit@, limits::find_spec(specs.specs@, name@)),
{
    let sp = specs.find(name);
    let mut s = "| ".to_owned();
    s.append(name);
    s.append(" | ");
    s.append(unit);
    s.append(" | ");
    s.append(fmt_or_dash(limit_min(sp), unit).as_str());
    s.append(" | ");
    s.append(fmt_or_dash(limit_typ(sp), unit).as_str());
    s.append(" | ");
    s.append(fmt_or_dash(limit_max(sp), unit).as_str());
    s.append(" |");
    s
}

/// Column head of a run; nothing for a Monte Carlo draw.
pub open spec fn md_label_text(o: RunOutcome) -> Seq<char> {
    if !is_mc(o) {
        " "@ + o.corner.label@ + " |"@
    } else {
        ""@
    }
}

fn md_label(o: &RunOutcome) -> (res: String)
    ensures
        res@ == md_label_text(*o),
{
    if !(o.corner.kind != CornerKind::Mc) {
        return "".to_owned();
    }
    let mut s = " ".to_owned();
    s.append(o.corner.label.as_str());
    s.append(" |");
    s
}

/// Column rule of a run; nothing for a Monte Carlo draw.
pub open spec fn md_rule_text(o: RunOutcome) -> Seq<char> {
    if !is_mc(o) {
        "---|"@
    } else {
        ""@
    }
}

fn md_rule(o: &RunOutcome) -> (res: String)
    ensures
        res@ == md_rule_text(*o),
{
    if !(o.corner.kind != CornerKind::Mc) {
        return "".to_owned();
    }
    let mut s = "---|".to_owned();
    s
}

/// Outcome of a spec in a run; nothing for a Monte Carlo draw.
pub open spec fn md_cell_text(o: RunOutcome, name: Seq<char>, unit: Seq<char>) -> Seq<char> {
    if !is_mc(o) {
        " "@ + cell_mark(named_check(o.spec_checks@, name)) + " "@
            + cell_text(named_check(o.spec_checks@, name), unit) + " |"@
    } else {
        ""@
    }
}

fn md_cell(o: &RunOutcome, name: &str, unit: &str) -> (res: String)
    ensures
        res@ == md_cell_text(*o, name@, unit@),
{
    if !(o.corner.kind != CornerKind::Mc) {
        return "".to_owned();
    }
    let check = find_check(&o.spec_checks, name);
    let mut s = " ".to_owned();
    s.append(check_mark(check));
    s.append(" ");
    s.append(check_cell(check, unit).0.as_str());
    s.append(" |");
    s
}

/// Column heads of the first `n` runs.
pub open spec fn md_labels_text(outcomes: Seq<RunOutcome>, n: int) -> Seq<char>
    decreases n,
{
    if n <= 0 {
        Seq::empty()
    } else {
        md_labels_text(outcomes, n - 1) + md_label_text(outcomes[n - 1])
    }
}

fn md_labels(outcomes: &[RunOutcome]) -> (res: String)
    ensures
        res@ == md_labels_text(outcomes@, outcomes@.len() as int),
{
    let mut s = String::new();
    let mut i: usize = 0;
    while i < outcomes.len()
        invariant
            i <= outcomes.len(),
            s@ == md_labels_text(outcomes@, i as int),
        decreases outcomes.len() - i,
    {
        s.append(md_label(&outcomes[i]).as_str());
        i = i + 1;
    }
    s
}

/// Column rules of the first `n` runs.
pub open spec fn md_rules_text(outcomes: Seq<RunOutcome>, n: int) -> Seq<char>
    decreases n,
{
    if n <= 0 {
        Seq::empty()
    } else {
        md_rules_text(outcomes, n - 1) + md_rule_text(outcomes[n - 1])
    }
}

fn md_rules(outcomes: &[RunOutcome]) -> (res: String)
    ensures
        res@ == md_rules_text(outcomes@, outcomes@.len() as int),
{
    let mut s = String::new();
    let mut i: usize = 0;
    while i < outcomes.len()
        invariant
            i <= outcomes.len(),
            s@ == md_rules_text(outcomes@, i as int),
        decreases outcomes.len() - i,
    {
        s.append(md_rule(&outcomes[i]).as_str());
        i = i + 1;
    }
    s
}

/// Outcomes of a spec in the first `n` runs.
pub open spec fn md_cells_text(outcomes: Seq<RunOutcome>, name: Seq<char>, unit: Seq<char>, n: int) -> Seq<char>
    decreases n,
{
    if n <= 0 {
        Seq::empty()
    } else {
        md_cells_text(outcomes, name, unit, n - 1) + md_cell_text(outcomes[n - 1], name, unit)
    }
}

fn md_cells(outcomes: &[RunOutcome], name: &str, unit: &str) -> (res: String)
    ensures
        res@ == md_cells_text(outcomes@, name@, unit@, outcomes@.len() as int),
{
    let mut s = String::new();
    let mut i: usize = 0;
    while i < outcomes.len()
        invariant
            i <= outcomes.len(),
            s@ == md_cells_text(outcomes@, name@, unit@, i as int),
        decreases outcomes.len() - i,
    {
        s.append(md_cell(&outcomes[i], name, unit).as_str());
        i = i + 1;
    }
    s
}

/// One row of the cross-corner table.
#[verifier::opaque]
pub open spec fn md_row_text(row: SummaryRow, outcomes: Seq<RunOutcome>, specs: Seq<Spec>) -> Seq<char> {
    md_limits_text(row.spec_name@, unit_text(row.unit), limits::find_spec(specs, row.spec_name@))
        + md_cells_text(outcomes, row.spec_name@, unit_text(row.unit), outcomes.len() as int)
        + "\n"@
}

fn md_row(row: &SummaryRow, outcomes: &[RunOutcome], specs: &SpecBundle) -> (res: String)
    ensures
        res@ == md_row_text(*row, outcomes@, specs.specs@),
{
    proof {
        reveal(md_row_text);
    }
    let mut s = md_limits(row.spec_name.as_str(), unit_str(&row.unit), specs);
    s.append(md_cells(outcomes, row.spec_name.as_str(), unit_str(&row.unit)).as_str());
    s.append("\n");
    s
}

/// The rows of the cross-corner table.
pub open spec fn md_rows_text(rows: Seq<SummaryRow>, outcomes: Seq<RunOutcome>, specs: Seq<Spec>, n: int) -> Seq<char>
    decreases n,
{
    if n <= 0 {
        Seq::empty()
    } else {
        md_rows_text(rows, outcomes, specs, n - 1) + md_row_text(rows[n - 1], outcomes, specs)
    }
}

fn md_rows(rows: &Vec<SummaryRow>, outcomes: &[RunOutcome], specs: &SpecBundle) -> (res: String)
    ensures
        res@ == md_rows_text(rows@, outcomes@, specs.specs@, rows@.len() as int),
{
    let mut s = String::new();
    let mut i: usize = 0;
    while i < rows.len()
        invariant
            i <= rows.len(),
            s@ == md_rows_text(rows@, outcomes@, specs.specs@, i as int),
        decreases rows.len() - i,
    {
        s.append(md_row(&rows[i], outcomes, specs).as_str());
        i = i + 1;
    }
    s
}

/// The cross-corner table; nothing where every run is a Monte Carlo draw.
pub open spec fn md_corners_text(rows: Seq<SummaryRow>, outcomes: Seq<RunOutcome>, specs: Seq<Spec>) -> Seq<char> {
    if mc_count(outcomes, outcomes.len() as int) < outcomes.len() {
        "## Per-corner\n\n| spec | unit | min | typ | max |"@
            + md_labels_text(outcomes, outcomes.len() as int) + "\n|---|---|---|---|---|"@
            + md_rules_text(outcomes, outcomes.len() as int) + "\n"@
            + md_rows_text(rows, outcomes, specs, rows.len() as int) + "\n"@
    } else {
        ""@
    }
}

fn md_corners(rows: &Vec<SummaryRow>, outcomes: &[RunOutcome], specs: &SpecBundle) -> (res: String)
    ensures
        res@ == md_corners_text(rows@, outcomes@, specs.specs@),
{
    if !(count_mc(outcomes) < outcomes.len()) {
        return "".to_owned();
    }
    let mut s = "## Per-corner\n\n| spec | unit | min | typ | max |".to_owned();
    s.append(md_labels(outcomes).as_str());
    s.append("\n|---|---|---|---|---|");
    s.append(md_rules(outcomes).as_str());
    s.append("\n");
    s.append(md_rows(rows, outcomes, specs).as_str());
    s.append("\n");
    s
}

/// How the verdict on a Monte Carlo row reads.
pub open spec fn gate_text(c: SpecCheck) -> Seq<char> {
    match c {
        SpecCheck::Pass { .. } => "✓ pass"@,
        SpecCheck::Fail { .. } => "✗ FAIL"@,
        SpecCheck::Skipped => "·"@,
    }
}

fn gate_str(c: SpecCheck) -> (res: &'static str)
    ensures
        res@ == gate_text(c),
{
    match c {
        SpecCheck::Pass { .. } => "✓ pass",
        SpecCheck::Fail { .. } => "✗ FAIL",
        SpecCheck::Skipped => "·",
    }
}

/// The row of a spec without draws.
pub open spec fn md_no_draws_text(row: SummaryRow) -> Seq<char> {
    "| "@ + row.spec_name@ + " | "@ + unit_text(row.unit) + " | — | — | — | — | — |\n"@
}

fn md_no_draws(row: &SummaryRow) -> (res: String)
    ensures
        res@ == md_no_draws_text(*row),
{
    let mut s = "| ".to_owned();
    s.append(row.spec_name.as_str());
    s.append(" | ");
    s.append(unit_str(&row.unit));
    s.append(" | — | — | — | — | — |\n");
    s
}

/// The row of a spec with draws `vs`.
#[verifier::opaque]
pub open spec fn md_draws_text(row: SummaryRow, vs: Seq<Real>, sp: Option<Spec>, style: McSummaryStyle) -> Seq<char> {
    "| "@ + row.spec_name@ + " | "@ + unit_text(row.unit) + " | "@
        + value_text(mc_span(style, vs).0, unit_text(row.unit)) + " | "@
        + value_text(limits::mean(vs), unit_text(row.unit)) + " | "@
        + value_text(mc_span(style, vs).1, unit_text(row.unit)) + " | "@
        + value_text(limits::deviation(vs, limits::mean(vs)), unit_text(row.unit)) + " | "@
        + gate_text(mc_gate(sp, vs, style)) + " |\n"@
}

fn md_draws(row: &SummaryRow, vs: &Vec<Real>, specs: &SpecBundle, style: McSummaryStyle) -> (res: String)
    ensures
        res@ == md_draws_text(*row, vs@, limits::find_spec(specs.specs@, row.spec_name@), style),
{
    proof {
        reveal(md_draws_text);
    }
    let unit = unit_str(&row.unit);
    let mean = limits::mean_of(vs);
    let (lo, hi): (Real, Real) = span_of(style, vs);
    let gate = match specs.find(row.spec_name.as_str()) {
        Some(x) => x.check_mc(vs, style),
        None => SpecCheck::Pass { measured: hi },
    };
    let mut s = "| ".to_owned();
    s.append(row.spec_name.as_str());
    s.append(" | ");
    s.append(unit);
    s.append(" | ");
    s.append(fmt_value(lo, unit).as_str());
    s.append(" | ");
    s.append(fmt_value(mean, unit).as_str());
    s.append(" | ");
    s.append(fmt_value(hi, unit).as_str());
    s.append(" | ");
    s.append(fmt_value(limits::deviation_of(vs, mean), unit).as_str());
    s.append(" | ");
    s.append(gate_str(gate));
    s.append(" |\n");
    s
}

/// One row of the Monte Carlo table.
#[verifier::opaque]
pub open spec fn md_mc_row_text(row: SummaryRow, outcomes: Seq<RunOutcome>, specs: Seq<Spec>, style: McSummaryStyle) -> Seq<char> {
    let vs = all_draws(outcomes, row.spec_name@);
    if vs.len() == 0 {
        md_no_draws_text(row)
    } else {
        md_draws_text(row, vs, limits::find_spec(specs, row.spec_name@), style)
    }
}

fn md_mc_row(row: &SummaryRow, outcomes: &[RunOutcome], specs: &SpecBundle, style: McSummaryStyle) -> (res: String)
    ensures
        res@ == md_mc_row_text(*row, outcomes@, specs.specs@, style),
{
    proof {
        reveal(md_mc_row_text);
    }
    let vs = mc_values(outcomes, row.spec_name.as_str());
    if vs.len() == 0 {
        md_no_draws(row)
    } else {
        md_draws(row, &vs, specs, style)
    }
}

/// The rows of the Monte Carlo table.
pub open spec fn md_mc_rows_text(rows: Seq<SummaryRow>, outcomes: Seq<RunOutcome>, specs: Seq<Spec>, style: McSummaryStyle, n: int) -> Seq<char>
    decreases n,
{
    if n <= 0 {
        Seq::empty()
    } else {
        md_mc_rows_text(rows, outcomes, specs, style, n - 1) + md_mc_row_text(rows[n - 1], outcomes, specs, style)
    }
}

fn md_mc_rows(rows: &Vec<SummaryRow>, outcomes: &[RunOutcome], specs: &SpecBundle, style: McSummaryStyle) -> (res: String)
    ensures
        res@ == md_mc_rows_text(rows@, outcomes@, specs.specs@, style, rows@.len() as int),
{
    let mut s = String::new();
    let mut i: usize = 0;
    while i < rows.len()
        invariant
            i <= rows.len(),
            s@ == md_mc_rows_text(rows@, outcomes@, specs.specs@, style, i as int),
        decreases rows.len() - i,
    {
        s.append(md_mc_row(&rows[i], outcomes, specs, style).as_str());
        i = i + 1;
    }
    s
}

/// Column heads of the low and high representative.
pub open spec fn span_heads(style: McSummaryStyle) -> (Seq<char>, Seq<char>) {
    match style {
        McSummaryStyle::ThreeStd => ("µ-3σ"@, "µ+3σ"@),
        McSummaryStyle::MinMax => ("min"@, "max"@),
    }
}

fn span_head_strs(style: McSummaryStyle) -> (res: (&'static str, &'static str))
    ensures
        (res.0@, res.1@) == span_heads(style),
{
    match style {
        McSummaryStyle::ThreeStd => ("µ-3σ", "µ+3σ"),
        McSummaryStyle::MinMax => ("min", "max"),
    }
}

/// The Monte Carlo table; nothing without draws.
pub open spec fn md_monte_carlo_text(rows: Seq<SummaryRow>, outcomes: Seq<RunOutcome>, specs: Seq<Spec>, style: McSummaryStyle) -> Seq<char> {
    if mc_count(outcomes, outcomes.len() as int) > 0 {
        "## Monte Carlo ("@ + text::dec(mc_count(outcomes, outcomes.len() as int))
            + " draws, summary="@ + style.tag() + ")\n\n| spec | unit | "@ + span_heads(style).0
            + " | µ | "@ + span_heads(style).1 + " | σ | gate |\n|---|---|---|---|---|---|---|\n"@
            + md_mc_rows_text(rows, outcomes, specs, style, rows.len() as int) + "\n"@
    } else {
        ""@
    }
}

fn md_monte_carlo(rows: &Vec<SummaryRow>, outcomes: &[RunOutcome], specs: &SpecBundle, style: McSummaryStyle) -> (res: String)
    ensures
        res@ == md_monte_carlo_text(rows@, outcomes@, specs.specs@, style),
{
    if !(count_mc(outcomes) > 0) {
        return "".to_owned();
    }
    let (low_head, high_head): (&str, &str) = span_head_strs(style);
    let mut s = "## Monte Carlo (".to_owned();
    s.append(text::usize_to_string(count_mc(outcomes)).as_str());
    s.append(" draws, summary=");
    s.append(style.as_str());
    s.append(")\n\n| spec | unit | ");
    s.append(low_head);
    s.append(" | µ | ");
    s.append(high_head);
    s.append(" | σ | gate |\n|---|---|---|---|---|---|---|\n");
    s.append(md_mc_rows(rows, outcomes, specs, style).as_str());
    s.append("\n");
    s
}

/// Whether the `i`-th outcome of a row counts towards the yield.
pub open spec fn counted(outcomes: Seq<RunOutcome>, i: int) -> bool {
    i >= outcomes.len() || !is_mc(outcomes[i])
}

/// How many of the first `n` outcomes count towards the yield.
pub open spec fn yield_total(row: SummaryRow, outcomes: Seq<RunOutcome>, n: int) -> nat
    decreases n,
{
    if n <= 0 {
        0
    } else {
        yield_total(row, outcomes, n - 1) + if counted(outcomes, n - 1) {
            1nat
        } else {
            0nat
        }
    }
}

/// How many of the first `n` outcomes count towards the yield and pass.
pub open spec fn yield_pass(row: SummaryRow, outcomes: Seq<RunOutcome>, n: int) -> nat
    decreases n,
{
    if n <= 0 {
        0
    } else {
        yield_pass(row, outcomes, n - 1) + if counted(outcomes, n - 1)
            && row.per_corner@[n - 1].1 is Pass {
            1nat
        } else {
            0nat
        }
    }
}

fn yield_of(row: &SummaryRow, outcomes: &[RunOutcome]) -> (res: (usize, usize))
    ensures
        res.0 == yield_pass(*row, outcomes@, row.per_corner@.len() as int),
        res.1 == yield_total(*row, outcomes@, row.per_corner@.len() as int),
{
    let mut pass: usize = 0;
    let mut total: usize = 0;
    let mut i: usize = 0;
    while i < row.per_corner.len()
        invariant
            i <= row.per_corner@.len(),
            pass <= i,
            total <= i,
            pass == yield_pass(*row, outcomes@, i as int),
            total == yield_total(*row, outcomes@, i as int),
        decreases row.per_corner@.len() - i,
    {
        if i >= outcomes.len() || outcomes[i].corner.kind != CornerKind::Mc {
            total = total + 1;
            if row.per_corner[i].1.is_pass() {
                pass = pass + 1;
            }
        }
        i = i + 1;
    }
    (pass, total)
}

/// No more outcomes pass than count.
pub proof fn yield_is_at_most_whole(row: SummaryRow, outcomes: Seq<RunOutcome>, n: int)
    ensures
        yield_pass(row, outcomes, n) <= yield_total(row, outcomes, n),
    decreases n,
{
    if n > 0 {
        yield_is_at_most_whole(row, outcomes, n - 1);
    }
}

/// The yield of one spec.
pub open spec fn md_yield_text(row: SummaryRow, outcomes: Seq<RunOutcome>) -> Seq<char> {
    "- **"@ + row.spec_name@ + "**: "@
        + text::dec(yield_pass(row, outcomes, row.per_corner@.len() as int)) + "/"@
        + text::dec(yield_total(row, outcomes, row.per_corner@.len() as int)) + " pass\n"@
}

fn md_yield(row: &SummaryRow, outcomes: &[RunOutcome]) -> (res: String)
    ensures
        res@ == md_yield_text(*row, outcomes@),
{
    let (pass, total): (usize, usize) = yield_of(row, outcomes);
    let mut s = "- **".to_owned();
    s.append(row.spec_name.as_str());
    s.append("**: ");
    s.append(text::usize_to_string(pass).as_str());
    s.append("/");
    s.append(text::usize_to_string(total).as_str());
    s.append(" pass\n");
    s
}

/// The yields of the first `n` specs.
pub open spec fn md_yields_text(rows: Seq<SummaryRow>, outcomes: Seq<RunOutcome>, n: int) -> Seq<char>
    decreases n,
{
    if n <= 0 {
        Seq::empty()
    } else {
        md_yields_text(rows, outcomes, n - 1) + md_yield_text(rows[n - 1], outcomes)
    }
}

fn md_yields(rows: &Vec<SummaryRow>, outcomes: &[RunOutcome]) -> (res: String)
    ensures
        res@ == md_yields_text(rows@, outcomes@, rows@.len() as int),
{
    let mut s = String::new();
    let mut i: usize = 0;
    while i < rows.len()
        invariant
            i <= rows.len(),
            s@ == md_yields_text(rows@, outcomes@, i as int),
        decreases rows.len() - i,
    {
        s.append(md_yield(&rows[i], outcomes).as_str());
        i = i + 1;
    }
    s
}

/// The headline figures.
pub open spec fn md_stats_text(rows: Seq<SummaryRow>, outcomes: Seq<RunOutcome>) -> Seq<char> {
    "**"@ + text::dec(outcomes.len()) + " corners** ("@
        + text::dec((outcomes.len() - mc_count(outcomes, outcomes.len() as int)) as nat)
        + " typical/etc, "@ + text::dec(mc_count(outcomes, outcomes.len() as int))
        + " Monte Carlo) · **"@ + text::dec(rows.len()) + " specs** · `"@
        + short_key(outcomes[0].sha@, 12) + "`\n\n"@
}

fn md_stats(rows: &Vec<SummaryRow>, outcomes: &[RunOutcome]) -> (res: String)
    requires
        outcomes@.len() > 0,
        key_shows(outcomes@[0].sha@, 12),
    ensures
        res@ == md_stats_text(rows@, outcomes@),
{
    let draws: usize = count_mc(outcomes);
    let mut s = "**".to_owned();
    s.append(text::usize_to_string(outcomes.len()).as_str());
    s.append(" corners** (");
    s.append(text::usize_to_string(outcomes.len() - draws).as_str());
    s.append(" typical/etc, ");
    s.append(text::usize_to_string(draws).as_str());
    s.append(" Monte Carlo) · **");
    s.append(text::usize_to_string(rows.len()).as_str());
    s.append(" specs** · `");
    s.append(short(outcomes[0].sha.as_str(), 12).as_str());
    s.append("`\n\n");
    s
}

/// The title of the Markdown summary.
pub open spec fn md_title_text(tb: Seq<char>) -> Seq<char> {
    "# "@ + tb + " – simulation summary\n\n"@
}

fn md_title(tb: &str) -> (res: String)
    ensures
        res@ == md_title_text(tb@),
{
    let mut s = "# ".to_owned();
    s.append(tb);
    s.append(" – simulation summary\n\n");
    s
}

/// The cross-corner summary in Markdown.
#[verifier::opaque]
pub open spec fn summary_markdown(
    tb: Seq<char>,
    rows: Seq<SummaryRow>,
    outcomes: Seq<RunOutcome>,
    specs: Seq<Spec>,
    style: McSummaryStyle,
) -> Seq<char> {
    if outcomes.len() == 0 {
        md_title_text(tb) + "_No corners ran._\n"@
    } else {
        md_title_text(tb) + md_stats_text(rows, outcomes) + md_corners_text(rows, outcomes, specs)
            + md_monte_carlo_text(rows, outcomes, specs, style) + "## Yield (non-MC)\n"@
            + md_yields_text(rows, outcomes, rows.len() as int)
    }
}

/// Renders the cross-corner summary in Markdown.
pub fn render_summary_markdown(
    tb: &str,
    rows: &Vec<SummaryRow>,
    outcomes: &[RunOutcome],
    specs: &SpecBundle,
    style: McSummaryStyle,
) -> (res: String)
    requires
        outcomes@.len() > 0 ==> key_shows(outcomes@[0].sha@, 12),
    ensures
        res@ == summary_markdown(tb@, rows@, outcomes@, specs.specs@, style),
{
    proof {
        reveal(summary_markdown);
    }
    let mut s = md_title(tb);
    if outcomes.len() == 0 {
        s.append("_No corners ran._\n");
        return s;
    }
    s.append(md_stats(rows, outcomes).as_str());
    s.append(md_corners(rows, outcomes, specs).as_str());
    s.append(md_monte_carlo(rows, outcomes, specs, style).as_str());
    s.append("## Yield (non-MC)\n");
    s.append(md_yields(rows, outcomes).as_str());
    s
}

// ── HTML summary ───────────────────────────────────────────────────

/// Population standard deviation around `m`.
pub open spec fn spread(vs: Seq<Real>, m: Real) -> Real {
    limits::sum(limits::deviations(vs, m)).div_spec(Real::of_nat(vs.len())).sqrt_spec()
}

fn spread_of(vs: &Vec<Real>, m: Real) -> (res: Real)
    ensures
        res == spread(vs@, m),
{
    let mut sq: Vec<Real> = Vec::new();
    let mut i: usize = 0;
    while i < vs.len()
        invariant
            i <= vs.len(),
            sq@ == limits::deviations(vs@, m).take(i as int),
        decreases vs.len() - i,
    {
        let d = vs[i].sub(m);
        sq.push(d.mul(d));
        i = i + 1;
        assert(sq@ =~= limits::deviations(vs@, m).take(i as int));
    }
    assert(sq@ =~= limits::deviations(vs@, m));
    limits::sum_of(&sq).div(Real::from_u64(vs.len() as u64)).sqrt()
}

/// The domain that a histogram shows: the draws, one deviation around their mean
/// and the limits, with a margin.
pub open spec fn histogram_domain(vs: Seq<Real>, sp: Spec) -> (Real, Real) {
    let m = limits::mean(vs);
    let d = spread(vs, m);
    let lo = limits::least(vs).min_spec(m.sub_spec(d));
    let hi = limits::greatest(vs).max_spec(m.add_spec(d));
    let lo = match sp.min {
        Some(l) => lo.min_spec(l),
        None => lo,
    };
    let hi = match sp.max {
        Some(h) => hi.max_spec(h),
        None => hi,
    };
    let pad = hi.sub_spec(lo).mul_spec(Real { bits: SMALL_DELTA_BITS });
    (lo.sub_spec(pad), hi.add_spec(pad))
}

fn histogram_domain_of(vs: &Vec<Real>, sp: &Spec, m: Real, d: Real) -> (res: (Real, Real))
    requires
        m == limits::mean(vs@),
        d == spread(vs@, m),
    ensures
        res == histogram_domain(vs@, *sp),
{
    let lo = limits::least_of(vs).min(m.sub(d));
    let hi = limits::greatest_of(vs).max(m.add(d));
    let lo = match sp.min {
        Some(l) => lo.min(l),
        None => lo,
    };
    let hi = match sp.max {
        Some(h) => hi.max(h),
        None => hi,
    };
    let pad = hi.sub(lo).mul(Real { bits: SMALL_DELTA_BITS });
    (lo.sub(pad), hi.add(pad))
}

/// Horizontal coordinate of a value in a histogram.
pub open spec fn hist_x(v: Real, d: (Real, Real)) -> Real {
    (Real { bits: TEN_BITS }).add_spec(
        v.sub_spec(d.0).div_spec(d.1.sub_spec(d.0)).mul_spec(Real { bits: PLOT_WIDTH_BITS }),
    )
}

fn hist_position(v: Real, d: (Real, Real)) -> (res: Real)
    ensures
        res == hist_x(v, d),
{
    (Real { bits: TEN_BITS }).add(
        v.sub(d.0).div(d.1.sub(d.0)).mul(Real { bits: PLOT_WIDTH_BITS }),
    )
}

/// One digit after the point.
pub open spec fn one_digit(v: Real) -> Seq<char> {
    numfmt::fixed(v, 1, false)
}

fn one_digit_str(v: Real) -> (res: String)
    ensures
        res@ == one_digit(v),
{
    numfmt::to_fixed(v, 1, false)
}

/// Width between two coordinates, at least zero.
pub open spec fn band_width(a: Real, b: Real) -> Real {
    b.sub_spec(a).max_spec(Real { bits: 0 })
}

fn band_width_of(a: Real, b: Real) -> (res: Real)
    ensures
        res == band_width(a, b),
{
    b.sub(a).max(Real { bits: 0 })
}

/// The band between both limits; nothing unless there are two.
pub open spec fn hist_band(sp: Spec, d: (Real, Real)) -> Seq<char> {
    match (sp.min, sp.max) {
        (Some(a), Some(b)) => "<rect x="@ + one_digit(hist_x(a, d)) + " y=20 width="@ + one_digit(
            band_width(hist_x(a, d), hist_x(b, d)),
        ) + " height=40 fill=#c2f0c2 opacity=0.45/>"@,
        _ => ""@,
    }
}

fn hist_band_svg(sp: &Spec, d: (Real, Real)) -> (res: String)
    ensures
        res@ == hist_band(*sp, d),
{
    match (sp.min, sp.max) {
        (Some(a), Some(b)) => {
            let x1 = hist_position(a, d);
            let x2 = hist_position(b, d);
            let mut s = "<rect x=".to_owned();
            s.append(one_digit_str(x1).as_str());
            s.append(" y=20 width=");
            s.append(one_digit_str(band_width_of(x1, x2)).as_str());
            s.append(" height=40 fill=#c2f0c2 opacity=0.45/>");
            s
        },
        _ => "".to_owned(),
    }
}

/// The mark of one draw.
pub open spec fn hist_dot_text(v: Real, d: (Real, Real)) -> Seq<char> {
    "<circle cx="@ + one_digit(hist_x(v, d)) + " cy=60 r=3 fill=#0366d6 opacity=0.7/>"@
}

fn hist_dot(v: Real, d: (Real, Real)) -> (res: String)
    ensures
        res@ == hist_dot_text(v, d),
{
    let mut s = "<circle cx=".to_owned();
    s.append(one_digit_str(hist_position(v, d)).as_str());
    s.append(" cy=60 r=3 fill=#0366d6 opacity=0.7/>");
    s
}

/// The marks of the first `n` draws.
pub open spec fn hist_dots_text(vs: Seq<Real>, d: (Real, Real), n: int) -> Seq<char>
    decreases n,
{
    if n <= 0 {
        Seq::empty()
    } else {
        hist_dots_text(vs, d, n - 1) + hist_dot_text(vs[n - 1], d)
    }
}

fn hist_dots(vs: &Vec<Real>, d: (Real, Real)) -> (res: String)
    ensures
        res@ == hist_dots_text(vs@, d, vs@.len() as int),
{
    let mut s = String::new();
    let mut i: usize = 0;
    while i < vs.len()
        invariant
            i <= vs.len(),
            s@ == hist_dots_text(vs@, d, i as int),
        decreases vs.len() - i,
    {
        s.append(hist_dot(vs[i], d).as_str());
        i = i + 1;
    }
    s
}

/// The line at the mean and the band of one deviation around it.
pub open spec fn hist_mean_text(m: Real, d: (Real, Real), dev: Real) -> Seq<char> {
    "<line x1="@ + one_digit(hist_x(m, d)) + " y1=15 x2="@ + one_digit(hist_x(m, d))
        + " y2=65 stroke=#b31d28 stroke-width=2/><rect x="@
        + one_digit(hist_x(m.sub_spec(dev), d)) + " y=55 width="@
        + one_digit(band_width(hist_x(m.sub_spec(dev), d), hist_x(m.add_spec(dev), d)))
        + " height=10 fill=#b31d28 opacity=0.18/>"@
}

fn hist_mean(m: Real, d: (Real, Real), dev: Real) -> (res: String)
    ensures
        res@ == hist_mean_text(m, d, dev),
{
    let xl = hist_position(m.sub(dev), d);
    let xh = hist_position(m.add(dev), d);
    let mut s = "<line x1=".to_owned();
    s.append(one_digit_str(hist_position(m, d)).as_str());
    s.append(" y1=15 x2=");
    s.append(one_digit_str(hist_position(m, d)).as_str());
    s.append(" y2=65 stroke=#b31d28 stroke-width=2/><rect x=");
    s.append(one_digit_str(xl).as_str());
    s.append(" y=55 width=");
    s.append(one_digit_str(band_width_of(xl, xh)).as_str());
    s.append(" height=10 fill=#b31d28 opacity=0.18/>");
    s
}

/// A value with its spaces made unbreakable.
pub open spec fn solid_value(v: Real, unit: Seq<char>) -> Seq<char> {
    text::replaced(value_text(v, unit), " "@, "\u{a0}"@)
}

fn fmt_solid(v: Real, unit: &str) -> (res: String)
    ensures
        res@ == solid_value(v, unit@),
{
    proof {
        reveal_strlit(" ");
    }
    text::replace_all(fmt_value(v, unit).as_str(), " ", "\u{a0}")
}

/// The drawing of the draws over the domain `d`.
#[verifier::opaque]
pub open spec fn hist_body_text(vs: Seq<Real>, sp: Spec, d: (Real, Real)) -> Seq<char> {
    "<svg width=320 height=80 viewBox=\"0 0 320 80\" class=hist>"@ + hist_band(sp, d)
        + "<line x1=10 y1=60 x2=310.0 y2=60 stroke=#999 stroke-width=1/>"@
        + hist_dots_text(vs, d, vs.len() as int)
        + hist_mean_text(limits::mean(vs), d, spread(vs, limits::mean(vs)))
        + "<text x=10 y=14 font-size=10 fill=#586069>µ="@
        + solid_value(limits::mean(vs), unit_text(sp.unit)) + ", σ="@
        + solid_value(spread(vs, limits::mean(vs)), unit_text(sp.unit)) + " ("@
        + text::dec(vs.len()) + " draws)</text></svg>"@
}

fn hist_body(vs: &Vec<Real>, sp: &Spec, d: (Real, Real), m: Real, dev: Real) -> (res: String)
    requires
        m == limits::mean(vs@),
        dev == spread(vs@, m),
    ensures
        res@ == hist_body_text(vs@, *sp, d),
{
    proof {
        reveal(hist_body_text);
    }
    let mut s = "<svg width=320 height=80 viewBox=\"0 0 320 80\" class=hist>".to_owned();
    s.append(hist_band_svg(sp, d).as_str());
    s.append("<line x1=10 y1=60 x2=310.0 y2=60 stroke=#999 stroke-width=1/>");
    s.append(hist_dots(vs, d).as_str());
    s.append(hist_mean(m, d, dev).as_str());
    s.append("<text x=10 y=14 font-size=10 fill=#586069>µ=");
    s.append(fmt_solid(m, unit_str(&sp.unit)).as_str());
    s.append(", σ=");
    s.append(fmt_solid(dev, unit_str(&sp.unit)).as_str());
    s.append(" (");
    s.append(text::usize_to_string(vs.len()).as_str());
    s.append(" draws)</text></svg>");
    s
}

/// Drawing of the draws of one spec; none for fewer than three draws or for a
/// domain of no extent.
pub open spec fn histogram(vs: Seq<Real>, sp: Spec) -> Option<Seq<char>> {
    let d = histogram_domain(vs, sp);
    if vs.len() < 3 || d.1.sub_spec(d.0).below(Real { bits: EPSILON_BITS }) {
        None
    } else {
        Some(hist_body_text(vs, sp, d))
    }
}

/// Draws the draws of one spec.
pub fn mc_histogram_svg(vs: &Vec<Real>, sp: &Spec) -> (res: Option<String>)
    ensures
        paths::opt_text(res) == histogram(vs@, *sp),
{
    if vs.len() < 3 {
        return None;
    }
    let m = limits::mean_of(vs);
    let dev = spread_of(vs, m);
    let d = histogram_domain_of(vs, sp, m, dev);
    if d.1.sub(d.0).lt(Real { bits: EPSILON_BITS }) {
        return None;
    }
    Some(hist_body(vs, sp, d, m, dev))
}

/// Column head of a run; nothing for a Monte Carlo draw.
pub open spec fn html_label_text(o: RunOutcome) -> Seq<char> {
    if !is_mc(o) {
        "<th>"@ + escaped(o.corner.label@)
    } else {
        ""@
    }
}

fn html_label(o: &RunOutcome) -> (res: String)
    ensures
        res@ == html_label_text(*o),
{
    if !(o.corner.kind != CornerKind::Mc) {
        return "".to_owned();
    }
    let mut s = "<th>".to_owned();
    s.append(html_escape(o.corner.label.as_str()).as_str());
    s
}

/// Column heads of the first `n` runs.
pub open spec fn html_labels_text(outcomes: Seq<RunOutcome>, n: int) -> Seq<char>
    decreases n,
{
    if n <= 0 {
        Seq::empty()
    } else {
        html_labels_text(outcomes, n - 1) + html_label_text(outcomes[n - 1])
    }
}

fn html_labels(outcomes: &[RunOutcome]) -> (res: String)
    ensures
        res@ == html_labels_text(outcomes@, outcomes@.len() as int),
{
    let mut s = String::new();
    let mut i: usize = 0;
    while i < outcomes.len()
        invariant
            i <= outcomes.len(),
            s@ == html_labels_text(outcomes@, i as int),
        decreases outcomes.len() - i,
    {
        s.append(html_label(&outcomes[i]).as_str());
        i = i + 1;
    }
    s
}

/// Name, unit and limits of a spec, as cells of an HTML row.
pub open spec fn html_limits_text(name: Seq<char>, unit: Seq<char>, sp: Option<Spec>) -> Seq<char> {
    "<tr><td><strong>"@ + escaped(name) + "</strong><td>"@ + unit + "<td>"@
        + value_or_dash(min_of(sp), unit) + "<td>"@ + value_or_dash(typ_of(sp), unit) + "<td>"@
        + value_or_dash(max_of(sp), unit)
}

fn html_limits(name: &str, unit: &str, specs: &SpecBundle) -> (res: String)
    ensures
        res@ == html_limits_text(name@, unit@, limits::find_spec(specs.specs@, name@)),
{
    let sp = specs.find(name);
    let mut s = "<tr><td><strong>".to_owned();
    s.append(html_escape(name).as_str());
    s.append("</strong><td>");
    s.append(unit);
    s.append("<td>");
    s.append(fmt_or_dash(limit_min(sp), unit).as_str());
    s.append("<td>");
    s.append(fmt_or_dash(limit_typ(sp), unit).as_str());
    s.append("<td>");
    s.append(fmt_or_dash(limit_max(sp), unit).as_str());
    s
}

/// The outcome of a row in its `i`-th run; skipped where the row holds none.
pub open spec fn row_check(row: SummaryRow, i: int) -> SpecCheck {
    if 0 <= i < row.per_corner@.len() {
        row.per_corner@[i].1
    } else {
        SpecCheck::Skipped
    }
}

/// Deviation of an outcome from the typical value; nothing without either.
pub open spec fn check_delta(c: SpecCheck, sp: Option<Spec>) -> Seq<char> {
    match (c, sp) {
        (SpecCheck::Pass { measured }, Some(x)) => delta_span(measured, x.typ, ""@),
        (SpecCheck::Fail { measured, .. }, Some(x)) => delta_span(measured, x.typ, ""@),
        _ => ""@,
    }
}

fn check_delta_html(c: SpecCheck, name: &str, specs: &SpecBundle) -> (res: String)
    ensures
        res@ == check_delta(c, limits::find_spec(specs.specs@, name@)),
{
    match (c, specs.find(name)) {
        (SpecCheck::Pass { measured }, Some(x)) => delta_span_html(measured, x.typ, ""),
        (SpecCheck::Fail { measured, .. }, Some(x)) => delta_span_html(measured, x.typ, ""),
        _ => "".to_owned(),
    }
}

/// Outcome of a spec in the `i`-th run; nothing for a Monte Carlo draw.
pub open spec fn html_cell_text(row: SummaryRow, outcomes: Seq<RunOutcome>, specs: Seq<Spec>, i: int) -> Seq<char> {
    if !is_mc(outcomes[i]) {
        "<td class="@ + cell_class(row_check(row, i)) + "><div>"@
            + cell_text(row_check(row, i), unit_text(row.unit)) + "</div><div class=delta>"@
            + check_delta(row_check(row, i), limits::find_spec(specs, row.spec_name@)) + "</div>"@
    } else {
        ""@
    }
}

fn html_cell(row: &SummaryRow, outcomes: &[RunOutcome], specs: &SpecBundle, i: usize) -> (res: String)
    requires
        i < outcomes@.len(),
    ensures
        res@ == html_cell_text(*row, outcomes@, specs.specs@, i as int),
{
    if !(outcomes[i].corner.kind != CornerKind::Mc) {
        return "".to_owned();
    }
    let check: SpecCheck = if i < row.per_corner.len() {
        row.per_corner[i].1
    } else {
        SpecCheck::Skipped
    };
    let (txt, class): (String, &str) = check_cell(check, unit_str(&row.unit));
    let mut s = "<td class=".to_owned();
    s.append(class);
    s.append("><div>");
    s.append(txt.as_str());
    s.append("</div><div class=delta>");
    s.append(check_delta_html(check, row.spec_name.as_str(), specs).as_str());
    s.append("</div>");
    s
}

/// Outcomes of a spec in the first `n` runs.
pub open spec fn html_cells_text(row: SummaryRow, outcomes: Seq<RunOutcome>, specs: Seq<Spec>, n: int) -> Seq<char>
    decreases n,
{
    if n <= 0 {
        Seq::empty()
    } else {
        html_cells_text(row, outcomes, specs, n - 1) + html_cell_text(row, outcomes, specs, n - 1)
    }
}

fn html_cells(row: &SummaryRow, outcomes: &[RunOutcome], specs: &SpecBundle) -> (res: String)
    ensures
        res@ == html_cells_text(*row, outcomes@, specs.specs@, outcomes@.len() as int),
{
    let mut s = String::new();
    let mut i: usize = 0;
    while i < outcomes.len()
        invariant
            i <= outcomes.len(),
            s@ == html_cells_text(*row, outcomes@, specs.specs@, i as int),
        decreases outcomes.len() - i,
    {
        s.append(html_cell(row, outcomes, specs, i).as_str());
        i = i + 1;
    }
    s
}

/// One row of the cross-corner table.
#[verifier::opaque]
pub open spec fn html_row_text(row: SummaryRow, outcomes: Seq<RunOutcome>, specs: Seq<Spec>) -> Seq<char> {
    html_limits_text(row.spec_name@, unit_text(row.unit), limits::find_spec(specs, row.spec_name@))
        + html_cells_text(row, outcomes, specs, outcomes.len() as int) + "\n"@
}

fn html_row(row: &SummaryRow, outcomes: &[RunOutcome], specs: &SpecBundle) -> (res: String)
    ensures
        res@ == html_row_text(*row, outcomes@, specs.specs@),
{
    proof {
        reveal(html_row_text);
    }
    let mut s = html_limits(row.spec_name.as_str(), unit_str(&row.unit), specs);
    s.append(html_cells(row, outcomes, specs).as_str());
    s.append("\n");
    s
}

/// The rows of the cross-corner table.
pub open spec fn html_rows_text(rows: Seq<SummaryRow>, outcomes: Seq<RunOutcome>, specs: Seq<Spec>, n: int) -> Seq<char>
    decreases n,
{
    if n <= 0 {
        Seq::empty()
    } else {
        html_rows_text(rows, outcomes, specs, n - 1) + html_row_text(rows[n - 1], outcomes, specs)
    }
}

fn html_rows(rows: &Vec<SummaryRow>, outcomes: &[RunOutcome], specs: &SpecBundle) -> (res: String)
    ensures
        res@ == html_rows_text(rows@, outcomes@, specs.specs@, rows@.len() as int),
{
    let mut s = String::new();
    let mut i: usize = 0;
    while i < rows.len()
        invariant
            i <= rows.len(),
            s@ == html_rows_text(rows@, outcomes@, specs.specs@, i as int),
        decreases rows.len() - i,
    {
        s.append(html_row(&rows[i], outcomes, specs).as_str());
        i = i + 1;
    }
    s
}

/// The cross-corner table; nothing where every run is a Monte Carlo draw.
pub open spec fn html_corners_text(rows: Seq<SummaryRow>, outcomes: Seq<RunOutcome>, specs: Seq<Spec>) -> Seq<char> {
    if mc_count(outcomes, outcomes.len() as int) < outcomes.len() {
        "<h2>Per-corner specs</h2><table class=summary><thead><tr><th>spec<th>unit<th>min<th>typ<th>max"@
            + html_labels_text(outcomes, outcomes.len() as int) + "</thead>\n"@
            + html_rows_text(rows, outcomes, specs, rows.len() as int) + "</table>"@
    } else {
        ""@
    }
}

fn html_corners(rows: &Vec<SummaryRow>, outcomes: &[RunOutcome], specs: &SpecBundle) -> (res: String)
    ensures
        res@ == html_corners_text(rows@, outcomes@, specs.specs@),
{
    if !(count_mc(outcomes) < outcomes.len()) {
        return "".to_owned();
    }
    let mut s = "<h2>Per-corner specs</h2><table class=summary><thead><tr><th>spec<th>unit<th>min<th>typ<th>max".to_owned();
    s.append(html_labels(outcomes).as_str());
    s.append("</thead>\n");
    s.append(html_rows(rows, outcomes, specs).as_str());
    s.append("</table>");
    s
}

/// Gate of a Monte Carlo row; a dash without a spec.
pub open spec fn html_gate(sp: Option<Spec>, vs: Seq<Real>, style: McSummaryStyle) -> (
    Seq<char>,
    Seq<char>,
) {
    match sp {
        Some(x) => match x.mc_outcome(vs, style) {
            SpecCheck::Pass { .. } => ("✓ pass"@, "pass"@),
            SpecCheck::Fail { .. } => ("✗ FAIL"@, "fail"@),
            SpecCheck::Skipped => ("—"@, "skip"@),
        },
        None => ("—"@, "skip"@),
    }
}

fn html_gate_strs(sp: Option<&Spec>, vs: &Vec<Real>, style: McSummaryStyle) -> (res: (
    &'static str,
    &'static str,
))
    ensures
        match sp {
            Some(x) => (res.0@, res.1@) == html_gate(Some(*x), vs@, style),
            None => (res.0@, res.1@) == html_gate(None, vs@, style),
        },
{
    match sp {
        Some(x) => match x.check_mc(vs, style) {
            SpecCheck::Pass { .. } => ("✓ pass", "pass"),
            SpecCheck::Fail { .. } => ("✗ FAIL", "fail"),
            SpecCheck::Skipped => ("—", "skip"),
        },
        None => ("—", "skip"),
    }
}

/// Histogram cell of a Monte Carlo row; empty where there is no histogram.
pub open spec fn html_histogram(sp: Option<Spec>, vs: Seq<Real>) -> Seq<char> {
    match sp {
        Some(x) => match histogram(vs, x) {
            Some(t) => t,
            None => Seq::empty(),
        },
        None => Seq::empty(),
    }
}

fn html_histogram_svg(sp: Option<&Spec>, vs: &Vec<Real>) -> (res: String)
    ensures
        match sp {
            Some(x) => res@ == html_histogram(Some(*x), vs@),
            None => res@ == html_histogram(None, vs@),
        },
{
    match sp {
        Some(x) => match mc_histogram_svg(vs, x) {
            Some(t) => t,
            None => String::new(),
        },
        None => String::new(),
    }
}

/// The row of a spec without draws.
pub open spec fn html_no_draws_text(row: SummaryRow) -> Seq<char> {
    "<tr><td>"@ + escaped(row.spec_name@) + "<td colspan=8 class=skip>no MC draws\n"@
}

fn html_no_draws(row: &SummaryRow) -> (res: String)
    ensures
        res@ == html_no_draws_text(*row),
{
    let mut s = "<tr><td>".to_owned();
    s.append(html_escape(row.spec_name.as_str()).as_str());
    s.append("<td colspan=8 class=skip>no MC draws\n");
    s
}

/// The row of a spec with draws `vs`.
#[verifier::opaque]
pub open spec fn html_draws_text(row: SummaryRow, vs: Seq<Real>, sp: Option<Spec>, style: McSummaryStyle) -> Seq<char> {
    "<tr><td><strong>"@ + escaped(row.spec_name@) + "</strong><td>"@ + html_histogram(sp, vs)
        + "<td>"@ + value_text(mc_span(style, vs).0, unit_text(row.unit)) + "<td>"@
        + value_text(limits::mean(vs), unit_text(row.unit)) + "<td>"@
        + value_text(mc_span(style, vs).1, unit_text(row.unit)) + "<td>"@
        + value_text(limits::deviation(vs, limits::mean(vs)), unit_text(row.unit)) + "<td>"@
        + value_text(limits::least(vs), unit_text(row.unit)) + "<td>"@
        + value_text(limits::greatest(vs), unit_text(row.unit)) + "<td class="@
        + html_gate(sp, vs, style).1 + ">"@ + html_gate(sp, vs, style).0 + "\n"@
}

fn html_draws(row: &SummaryRow, vs: &Vec<Real>, specs: &SpecBundle, style: McSummaryStyle) -> (res: String)
    ensures
        res@ == html_draws_text(*row, vs@, limits::find_spec(specs.specs@, row.spec_name@), style),
{
    proof {
        reveal(html_draws_text);
    }
    let unit = unit_str(&row.unit);
    let sp = specs.find(row.spec_name.as_str());
    let mean = limits::mean_of(vs);
    let (lo, hi): (Real, Real) = span_of(style, vs);
    let (gate, gate_class): (&str, &str) = html_gate_strs(sp, vs, style);
    let mut s = "<tr><td><strong>".to_owned();
    s.append(html_escape(row.spec_name.as_str()).as_str());
    s.append("</strong><td>");
    s.append(html_histogram_svg(sp, vs).as_str());
    s.append("<td>");
    s.append(fmt_value(lo, unit).as_str());
    s.append("<td>");
    s.append(fmt_value(mean, unit).as_str());
    s.append("<td>");
    s.append(fmt_value(hi, unit).as_str());
    s.append("<td>");
    s.append(fmt_value(limits::deviation_of(vs, mean), unit).as_str());
    s.append("<td>");
    s.append(fmt_value(limits::least_of(vs), unit).as_str());
    s.append("<td>");
    s.append(fmt_value(limits::greatest_of(vs), unit).as_str());
    s.append("<td class=");
    s.append(gate_class);
    s.append(">");
    s.append(gate);
    s.append("\n");
    s
}

/// One row of the Monte Carlo table.
#[verifier::opaque]
pub open spec fn html_mc_row_text(row: SummaryRow, outcomes: Seq<RunOutcome>, specs: Seq<Spec>, style: McSummaryStyle) -> Seq<char> {
    let vs = all_draws(outcomes, row.spec_name@);
    if vs.len() == 0 {
        html_no_draws_text(row)
    } else {
        html_draws_text(row, vs, limits::find_spec(specs, row.spec_name@), style)
    }
}

fn html_mc_row(row: &SummaryRow, outcomes: &[RunOutcome], specs: &SpecBundle, style: McSummaryStyle) -> (res: String)
    ensures
        res@ == html_mc_row_text(*row, outcomes@, specs.specs@, style),
{
    proof {
        reveal(html_mc_row_text);
    }
    let vs = mc_values(outcomes, row.spec_name.as_str());
    if vs.len() == 0 {
        html_no_draws(row)
    } else {
        html_draws(row, &vs, specs, style)
    }
}

/// The rows of the Monte Carlo table.
pub open spec fn html_mc_rows_text(rows: Seq<SummaryRow>, outcomes: Seq<RunOutcome>, specs: Seq<Spec>, style: McSummaryStyle, n: int) -> Seq<char>
    decreases n,
{
    if n <= 0 {
        Seq::empty()
    } else {
        html_mc_rows_text(rows, outcomes, specs, style, n - 1) + html_mc_row_text(rows[n - 1], outcomes, specs, style)
    }
}

fn html_mc_rows(rows: &Vec<SummaryRow>, outcomes: &[RunOutcome], specs: &SpecBundle, style: McSummaryStyle) -> (res: String)
    ensures
        res@ == html_mc_rows_text(rows@, outcomes@, specs.specs@, style, rows@.len() as int),
{
    let mut s = String::new();
    let mut i: usize = 0;
    while i < rows.len()
        invariant
            i <= rows.len(),
            s@ == html_mc_rows_text(rows@, outcomes@, specs.specs@, style, i as int),
        decreases rows.len() - i,
    {
        s.append(html_mc_row(&rows[i], outcomes, specs, style).as_str());
        i = i + 1;
    }
    s
}

/// Column heads of the low and high representative in HTML.
pub open spec fn html_span_heads(style: McSummaryStyle) -> (Seq<char>, Seq<char>) {
    match style {
        McSummaryStyle::ThreeStd => ("µ−3σ"@, "µ+3σ"@),
        McSummaryStyle::MinMax => ("min"@, "max"@),
    }
}

fn html_span_head_strs(style: McSummaryStyle) -> (res: (&'static str, &'static str))
    ensures
        (res.0@, res.1@) == html_span_heads(style),
{
    match style {
        McSummaryStyle::ThreeStd => ("µ−3σ", "µ+3σ"),
        McSummaryStyle::MinMax => ("min", "max"),
    }
}

/// The Monte Carlo table; nothing without draws.
pub open spec fn html_monte_carlo_text(rows: Seq<SummaryRow>, outcomes: Seq<RunOutcome>, specs: Seq<Spec>, style: McSummaryStyle) -> Seq<char> {
    if mc_count(outcomes, outcomes.len() as int) > 0 {
        "<h2>Monte Carlo ("@ + text::dec(mc_count(outcomes, outcomes.len() as int))
            + " draws, summary <code>"@ + style.tag()
            + "</code>)</h2>\n<table class=mc><thead><tr><th>spec<th>distribution<th>"@
            + html_span_heads(style).0 + "<th>µ<th>"@ + html_span_heads(style).1
            + "<th>σ<th>raw min<th>raw max<th>gate</thead>\n"@
            + html_mc_rows_text(rows, outcomes, specs, style, rows.len() as int) + "</table>"@
    } else {
        ""@
    }
}

fn html_monte_carlo(rows: &Vec<SummaryRow>, outcomes: &[RunOutcome], specs: &SpecBundle, style: McSummaryStyle) -> (res: String)
    ensures
        res@ == html_monte_carlo_text(rows@, outcomes@, specs.specs@, style),
{
    if !(count_mc(outcomes) > 0) {
        return "".to_owned();
    }
    let (low_head, high_head): (&str, &str) = html_span_head_strs(style);
    let mut s = "<h2>Monte Carlo (".to_owned();
    s.append(text::usize_to_string(count_mc(outcomes)).as_str());
    s.append(" draws, summary <code>");
    s.append(style.as_str());
    s.append("</code>)</h2>\n<table class=mc><thead><tr><th>spec<th>distribution<th>");
    s.append(low_head);
    s.append("<th>µ<th>");
    s.append(high_head);
    s.append("<th>σ<th>raw min<th>raw max<th>gate</thead>\n");
    s.append(html_mc_rows(rows, outcomes, specs, style).as_str());
    s.append("</table>");
    s
}

/// How many of the first `n` outcomes pass.
pub open spec fn pass_count(s: Seq<(String, SpecCheck)>, n: int) -> nat
    decreases n,
{
    if n <= 0 {
        0
    } else {
        pass_count(s, n - 1) + if s[n - 1].1 is Pass {
            1nat
        } else {
            0nat
        }
    }
}

fn count_pass(s: &Vec<(String, SpecCheck)>) -> (res: usize)
    ensures
        res == pass_count(s@, s@.len() as int),
{
    let mut c: usize = 0;
    let mut i: usize = 0;
    while i < s.len()
        invariant
            c <= i <= s.len(),
            c == pass_count(s@, i as int),
        decreases s.len() - i,
    {
        if s[i].1.is_pass() {
            c = c + 1;
        }
        i = i + 1;
    }
    c
}

/// Whether the runs have both views.
pub open spec fn has_both_views(outcomes: Seq<RunOutcome>) -> bool {
    exists|i: int, j: int|
        0 <= i < outcomes.len() && 0 <= j < outcomes.len() && (#[trigger] outcomes[i]).corner.view
            != (#[trigger] outcomes[j]).corner.view
}

/// Says whether the runs have both views.
pub fn both_views(outcomes: &[RunOutcome]) -> (res: bool)
    ensures
        res == has_both_views(outcomes@),
{
    let mut i: usize = 0;
    while i < outcomes.len()
        invariant
            i <= outcomes.len(),
            forall|k: int|
                0 <= k < i ==> (#[trigger] outcomes@[k]).corner.view == outcomes@[0].corner.view,
        decreases outcomes.len() - i,
    {
        if outcomes[i].corner.view != outcomes[0].corner.view {
            return true;
        }
        i = i + 1;
    }
    assert(!has_both_views(outcomes@)) by {
        if has_both_views(outcomes@) {
            let (i, j) = choose|i: int, j: int|
                0 <= i < outcomes@.len() && 0 <= j < outcomes@.len() && (
                #[trigger] outcomes@[i]).corner.view != (#[trigger] outcomes@[j]).corner.view;
            assert(outcomes@[i].corner.view == outcomes@[0].corner.view);
            assert(outcomes@[j].corner.view == outcomes@[0].corner.view);
        }
    }
    false
}

/// The picture of a run; nothing where it left no waveform.
pub open spec fn thumbnail_text(tb: Seq<char>, o: RunOutcome, multi_view: bool) -> Seq<char> {
    if o.has_waveform {
        "<a href=\""@ + stem(tb, o.corner, multi_view) + ".html\"><img class=thumb src=\""@ + stem(
            tb,
            o.corner,
            multi_view,
        ) + ".png\" alt=\""@ + o.corner.label@ + "\"></a>"@
    } else {
        ""@
    }
}

fn thumbnail(tb: &str, o: &RunOutcome, multi_view: bool) -> (res: String)
    ensures
        res@ == thumbnail_text(tb@, *o, multi_view),
{
    if !(o.has_waveform) {
        return "".to_owned();
    }
    let name = corner_stem(tb, &o.corner, multi_view);
    let mut s = "<a href=\"".to_owned();
    s.append(name.as_str());
    s.append(".html\"><img class=thumb src=\"");
    s.append(name.as_str());
    s.append(".png\" alt=\"");
    s.append(o.corner.label.as_str());
    s.append("\"></a>");
    s
}

/// The card of one run.
#[verifier::opaque]
pub open spec fn corner_card_text(tb: Seq<char>, o: RunOutcome, multi_view: bool) -> Seq<char> {
    "<div class=corner-card><div class=corner-head><a href=\""@ + stem(tb, o.corner, multi_view)
        + ".html\"><strong>"@ + o.corner.label@ + "</strong></a> <span class=tag-"@
        + o.corner.kind.tag() + ">"@ + o.corner.kind.tag() + "</span><span class=pf-"@
        + (if pass_count(o.spec_checks@, o.spec_checks@.len() as int) == o.spec_checks@.len() { "pass"@ } else { "fail"@ })
        + ">"@ + text::dec(pass_count(o.spec_checks@, o.spec_checks@.len() as int)) + "/"@
        + text::dec(o.spec_checks@.len()) + "</span></div>"@ + thumbnail_text(tb, o, multi_view)
        + "<div class=meta-mini>vdd="@ + numfmt::fixed(o.corner.vdd, 3, false) + " V · "@
        + numfmt::fixed(o.corner.temp_c, 0, false) + " °C · sha="@ + short_key(o.sha@, 8)
        + "</div></div>\n"@
}

fn corner_card(tb: &str, o: &RunOutcome, multi_view: bool) -> (res: String)
    requires
        key_shows(o.sha@, 8),
    ensures
        res@ == corner_card_text(tb@, *o, multi_view),
{
    proof {
        reveal(corner_card_text);
    }
    let pass: usize = count_pass(&o.spec_checks);
    let mut s = "<div class=corner-card><div class=corner-head><a href=\"".to_owned();
    s.append(corner_stem(tb, &o.corner, multi_view).as_str());
    s.append(".html\"><strong>");
    s.append(o.corner.label.as_str());
    s.append("</strong></a> <span class=tag-");
    s.append(o.corner.kind.as_str());
    s.append(">");
    s.append(o.corner.kind.as_str());
    s.append("</span><span class=pf-");
    s.append(if pass == o.spec_checks.len() { "pass" } else { "fail" });
    s.append(">");
    s.append(text::usize_to_string(pass).as_str());
    s.append("/");
    s.append(text::usize_to_string(o.spec_checks.len()).as_str());
    s.append("</span></div>");
    s.append(thumbnail(tb, o, multi_view).as_str());
    s.append("<div class=meta-mini>vdd=");
    s.append(numfmt::to_fixed(o.corner.vdd, 3, false).as_str());
    s.append(" V · ");
    s.append(numfmt::to_fixed(o.corner.temp_c, 0, false).as_str());
    s.append(" °C · sha=");
    s.append(short(o.sha.as_str(), 8).as_str());
    s.append("</div></div>\n");
    s
}

/// The cards of the first `n` runs.
pub open spec fn corner_cards_text(
    tb: Seq<char>,
    outcomes: Seq<RunOutcome>,
    multi_view: bool,
    n: int,
) -> Seq<char>
    decreases n,
{
    if n <= 0 {
        Seq::empty()
    } else {
        corner_cards_text(tb, outcomes, multi_view, n - 1) + corner_card_text(
            tb,
            outcomes[n - 1],
            multi_view,
        )
    }
}

fn corner_cards(tb: &str, outcomes: &[RunOutcome], multi_view: bool) -> (res: String)
    requires
        forall|i: int| 0 <= i < outcomes@.len() ==> key_shows((#[trigger] outcomes@[i]).sha@, 8),
    ensures
        res@ == corner_cards_text(tb@, outcomes@, multi_view, outcomes@.len() as int),
{
    let mut s = String::new();
    let mut i: usize = 0;
    while i < outcomes.len()
        invariant
            i <= outcomes.len(),
            forall|i: int| 0 <= i < outcomes@.len() ==> key_shows((#[trigger] outcomes@[i]).sha@, 8),
            s@ == corner_cards_text(tb@, outcomes@, multi_view, i as int),
        decreases outcomes.len() - i,
    {
        s.append(corner_card(tb, &outcomes[i], multi_view).as_str());
        i = i + 1;
    }
    s
}

/// Title and headline of the HTML summary.
pub open spec fn html_title_text(tb: Seq<char>) -> Seq<char> {
    "<!doctype html><meta charset=utf-8><title>"@ + tb + " – summary</title>\n"@ + STYLE@
        + "<h1>"@ + tb + " – simulation summary</h1>\n"@
}

fn html_title(tb: &str) -> (res: String)
    ensures
        res@ == html_title_text(tb@),
{
    let mut s = "<!doctype html><meta charset=utf-8><title>".to_owned();
    s.append(tb);
    s.append(" – summary</title>\n");
    s.append(STYLE);
    s.append("<h1>");
    s.append(tb);
    s.append(" – simulation summary</h1>\n");
    s
}

/// Banner and headline figures.
pub open spec fn html_stats_text(rows: Seq<SummaryRow>, outcomes: Seq<RunOutcome>) -> Seq<char> {
    "<div class=\"banner "@ + (if all_pass(rows) { "banner-ok"@ } else { "banner-bad"@ }) + "\">"@
        + (if all_pass(rows) { "ALL CORNERS PASS"@ } else { "SPEC FAILURES"@ })
        + "</div>\n<p class=meta>"@ + text::dec(outcomes.len()) + " corners ("@
        + text::dec((outcomes.len() - mc_count(outcomes, outcomes.len() as int)) as nat)
        + " typical/etc, "@ + text::dec(mc_count(outcomes, outcomes.len() as int))
        + " Monte Carlo) · "@ + text::dec(rows.len()) + " specs</p>\n"@
}

fn html_stats(rows: &Vec<SummaryRow>, outcomes: &[RunOutcome]) -> (res: String)
    ensures
        res@ == html_stats_text(rows@, outcomes@),
{
    let draws: usize = count_mc(outcomes);
    let pass: bool = none_fails(rows);
    let mut s = "<div class=\"banner ".to_owned();
    s.append(if pass { "banner-ok" } else { "banner-bad" });
    s.append("\">");
    s.append(if pass { "ALL CORNERS PASS" } else { "SPEC FAILURES" });
    s.append("</div>\n<p class=meta>");
    s.append(text::usize_to_string(outcomes.len()).as_str());
    s.append(" corners (");
    s.append(text::usize_to_string(outcomes.len() - draws).as_str());
    s.append(" typical/etc, ");
    s.append(text::usize_to_string(draws).as_str());
    s.append(" Monte Carlo) · ");
    s.append(text::usize_to_string(rows.len()).as_str());
    s.append(" specs</p>\n");
    s
}

/// The cross-corner summary in HTML. It leads to the page and the picture of each run.
#[verifier::opaque]
pub open spec fn summary_html(
    tb: Seq<char>,
    rows: Seq<SummaryRow>,
    outcomes: Seq<RunOutcome>,
    specs: Seq<Spec>,
    style: McSummaryStyle,
) -> Seq<char> {
    if outcomes.len() == 0 {
        html_title_text(tb) + "<p>No corners ran.</p>"@
    } else {
        html_title_text(tb) + html_stats_text(rows, outcomes) + html_corners_text(
            rows,
            outcomes,
            specs,
        ) + html_monte_carlo_text(rows, outcomes, specs, style)
            + "<h2>Per-corner detail</h2><div class=corner-grid>"@ + corner_cards_text(
            tb,
            outcomes,
            has_both_views(outcomes),
            outcomes.len() as int,
        ) + "</div>"@
    }
}

/// Renders the cross-corner summary in HTML.
pub fn render_summary_html(
    tb: &str,
    rows: &Vec<SummaryRow>,
    outcomes: &[RunOutcome],
    specs: &SpecBundle,
    style: McSummaryStyle,
) -> (res: String)
    requires
        forall|i: int| 0 <= i < outcomes@.len() ==> key_shows((#[trigger] outcomes@[i]).sha@, 8),
    ensures
        res@ == summary_html(tb@, rows@, outcomes@, specs.specs@, style),
{
    proof {
        reveal(summary_html);
    }
    let mut s = html_title(tb);
    if outcomes.len() == 0 {
        s.append("<p>No corners ran.</p>");
        return s;
    }
    s.append(html_stats(rows, outcomes).as_str());
    s.append(html_corners(rows, outcomes, specs).as_str());
    s.append(html_monte_carlo(rows, outcomes, specs, style).as_str());
    s.append("<h2>Per-corner detail</h2><div class=corner-grid>");
    s.append(corner_cards(tb, outcomes, both_views(outcomes)).as_str());
    s.append("</div>");
    s
}

// ── what summaries say ─────────────────────────────────────────────

/// The outcome under a name is that of the first check of that name, and skipped where there
/// is none.
pub proof fn checks_are_found_by_name(s: Seq<(String, SpecCheck)>, name: Seq<char>)
    ensures
        (forall|i: int| 0 <= i < s.len() ==> (#[trigger] s[i]).0@ != name) ==> named_check(s, name)
            == SpecCheck::Skipped,
        (exists|i: int| 0 <= i < s.len() && (#[trigger] s[i]).0@ == name) ==> exists|i: int|
            0 <= i < s.len() && (#[trigger] s[i]).0@ == name && named_check(s, name) == s[i].1 && (
            forall|j: int| 0 <= j < i ==> (#[trigger] s[j]).0@ != name),
    decreases s.len(),
{
    if s.len() > 0 {
        if s[0].0@ == name {
            assert(s[0].0@ == name);
        } else {
            let rest = s.skip(1);
            checks_are_found_by_name(rest, name);
            assert forall|i: int| 0 <= i < rest.len() implies #[trigger] rest[i] == s[i + 1] by {}
            if exists|i: int| 0 <= i < s.len() && (#[trigger] s[i]).0@ == name {
                let i = choose|i: int| 0 <= i < s.len() && (#[trigger] s[i]).0@ == name;
                assert(rest[i - 1].0@ == name);
                let k = choose|k: int|
                    0 <= k < rest.len() && (#[trigger] rest[k]).0@ == name && named_check(
                        rest,
                        name,
                    ) == rest[k].1 && (forall|j: int|
                        0 <= j < k ==> (#[trigger] rest[j]).0@ != name);
                assert(s[k + 1].0@ == name);
                assert forall|j: int| 0 <= j < k + 1 implies (#[trigger] s[j]).0@ != name by {
                    if j > 0 {
                        assert(rest[j - 1] == s[j]);
                    }
                }
            } else {
                assert forall|i: int| 0 <= i < rest.len() implies (#[trigger] rest[i]).0@
                    != name by {
                    assert(s[i + 1].0@ != name);
                }
            }
        }
    }
}

/// The draws under a name are the numbers that Monte Carlo runs measured under it, in the
/// order of the runs; no other run counts. `of` says which run each is of.
pub proof fn draws_are_those_of_monte_carlo_runs(
    outcomes: Seq<RunOutcome>,
    name: Seq<char>,
    n: int,
) -> (of: Seq<int>)
    requires
        0 <= n <= outcomes.len(),
    ensures
        of.len() == draws(outcomes, name, n).len(),
        forall|j: int, k: int| 0 <= j < k < of.len() ==> (#[trigger] of[j]) < (#[trigger] of[k]),
        forall|k: int|
            #![trigger of[k]]
            0 <= k < of.len() ==> 0 <= of[k] < n && outcomes[of[k]].corner.kind == CornerKind::Mc
                && outcomes[of[k]].measures.values@.contains_key(name)
                && outcomes[of[k]].measures.values@[name].number() == Some(
                draws(outcomes, name, n)[k],
            ),
        forall|i: int|
            #![trigger outcomes[i]]
            0 <= i < n && outcomes[i].corner.kind == CornerKind::Mc
                && outcomes[i].measures.values@.contains_key(name)
                && outcomes[i].measures.values@[name].number() is Some ==> of.contains(i),
    decreases n,
{
    if n == 0 {
        Seq::empty()
    } else {
        let less = draws_are_those_of_monte_carlo_runs(outcomes, name, n - 1);
        let before = draws(outcomes, name, n - 1);
        let o = outcomes[n - 1];
        if is_mc(o) && harness::measured_number(o.measures.values@, name) is Some {
            let of = less.push(n - 1);
            assert forall|i: int|
                #![trigger outcomes[i]]
                0 <= i < n && outcomes[i].corner.kind == CornerKind::Mc
                    && outcomes[i].measures.values@.contains_key(name)
                    && outcomes[i].measures.values@[name].number() is Some implies of.contains(i) by {
                if i < n - 1 {
                    let k = choose|k: int| 0 <= k < less.len() && less[k] == i;
                    assert(of[k] == i);
                } else {
                    assert(of[of.len() - 1] == i);
                }
            }
            assert forall|k: int| #![trigger of[k]] 0 <= k < of.len() implies 0 <= of[k] < n
                && outcomes[of[k]].corner.kind == CornerKind::Mc
                && outcomes[of[k]].measures.values@.contains_key(name)
                && outcomes[of[k]].measures.values@[name].number() == Some(
                draws(outcomes, name, n)[k],
            ) by {
                if k < less.len() {
                    assert(of[k] == less[k]);
                    assert(draws(outcomes, name, n)[k] == before[k]);
                }
            }
            of
        } else {
            less
        }
    }
}

/// Runs up to the `n`-th that a condition picks.
pub open spec fn picked_runs(f: spec_fn(int) -> bool, n: int) -> Seq<int>
    decreases n,
{
    if n <= 0 {
        Seq::empty()
    } else if f(n - 1) {
        picked_runs(f, n - 1).push(n - 1)
    } else {
        picked_runs(f, n - 1)
    }
}

/// The yield of a spec is counted over the runs that are no Monte Carlo draws: how many there
/// are, and in how many of them it passes. Draws are counted apart, so that all together are
/// all runs.
pub proof fn yields_leave_draws_out(row: SummaryRow, outcomes: Seq<RunOutcome>, n: int)
    requires
        0 <= n <= outcomes.len(),
        n <= row.per_corner@.len(),
    ensures
        yield_total(row, outcomes, n) + mc_count(outcomes, n) == n,
        yield_total(row, outcomes, n) == picked_runs(
            |i: int| outcomes[i].corner.kind != CornerKind::Mc,
            n,
        ).len(),
        yield_pass(row, outcomes, n) == picked_runs(
            |i: int|
                outcomes[i].corner.kind != CornerKind::Mc && row.per_corner@[i].1 is Pass,
            n,
        ).len(),
    decreases n,
{
    if n > 0 {
        yields_leave_draws_out(row, outcomes, n - 1);
    }
}

/// A value is scaled by the largest unit prefix that it nearly reaches: it reaches none of
/// those before, and reaches this one unless it is the smallest.
pub proof fn prefixes_are_the_largest_reached(av: Real, k: int)
    requires
        0 <= k <= 10,
    ensures
        k <= prefix_index(av, k) <= 10,
        forall|j: int|
            k <= j < prefix_index(av, k) ==> !(Real { bits: #[trigger] prefix_bits(j) }).mul_spec(
                Real { bits: NEARLY_ONE_BITS },
            ).at_most(av),
        prefix_index(av, k) < 10 ==> (Real { bits: prefix_bits(prefix_index(av, k)) }).mul_spec(
            Real { bits: NEARLY_ONE_BITS },
        ).at_most(av),
    decreases 10 - k,
{
    if k < 10 && !(Real { bits: prefix_bits(k) }).mul_spec(
        Real { bits: NEARLY_ONE_BITS },
    ).at_most(av) {
        prefixes_are_the_largest_reached(av, k + 1);
    }
}

/// How far a measured value is off its typical one: not said of a missing typical value or
/// one near zero; else the difference relative to its size, in percent, with the class of the
/// least bound that it keeps to.
pub proof fn deltas_are_relative(m: Real, t: Real)
    ensures
        delta(m, None) is None,
        delta(m, Some(t)) is None <==> t.abs_spec().below(Real { bits: EPSILON_BITS }),
        delta(m, Some(t)) matches Some((pct, class)) ==> {
            let rel = m.sub_spec(t).div_spec(t.abs_spec());
            let small = rel.abs_spec().at_most(Real { bits: SMALL_DELTA_BITS });
            let large = rel.abs_spec().at_most(Real { bits: LARGE_DELTA_BITS });
            &&& pct == rel.mul_spec(Real { bits: HUNDRED_BITS })
            &&& small ==> class == "delta-ok"@
            &&& !small && large ==> class == "delta-warn"@
            &&& !small && !large ==> class == "delta-bad"@
        },
{
}

} // verus!
