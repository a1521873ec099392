//! What the printed summary says and where: lines of text on a front page, and
//! one page per corner that is no Monte Carlo draw.
//!
//! Vertical positions count half millimetres from the lower edge.

use crate::corner::CornerKind;
use crate::double::Real;
use crate::harness::RunOutcome;
use crate::limits;
use crate::limits::{McSummaryStyle, Spec, SpecBundle, SpecCheck};
use crate::measure::MeasurementValue;
use crate::numfmt;
use crate::sim_report;
use crate::sim_report::SummaryRow;
use crate::single::Single;
use crate::text;
use vstd::prelude::*;
use vstd::string::*;

verus! {

/// One line of text on a page.
#[derive(Debug)]
pub struct PageLine {
    pub text: String,
    pub size: u32,
    pub y: u32,
    pub bold: bool,
}

/// What a line says, and where.
#[verifier::ext_equal]
pub struct LineModel {
    pub text: Seq<char>,
    pub size: int,
    pub y: int,
    pub bold: bool,
}

impl PageLine {
    pub open spec fn model(self) -> LineModel {
        LineModel { text: self.text@, size: self.size as int, y: self.y as int, bold: self.bold }
    }
}

pub open spec fn line_models(s: Seq<PageLine>) -> Seq<LineModel> {
    s.map_values(|l: PageLine| l.model())
}

fn put(lines: &mut Vec<PageLine>, text: String, size: u32, y: u32, bold: bool)
    ensures
        line_models(final(lines)@) == line_models(old(lines)@).push(
            LineModel { text: text@, size: size as int, y: y as int, bold },
        ),
{
    let ghost before = lines@;
    lines.push(PageLine { text, size, y, bold });
    assert(line_models(lines@) =~= line_models(before).push(lines@.last().model()));
}

/// The headline figures.
pub open spec fn pdf_stats_text(rows: Seq<SummaryRow>, outcomes: Seq<RunOutcome>) -> Seq<char> {
    text::dec(outcomes.len()) + " corners ("@
        + text::dec((outcomes.len() - sim_report::mc_count(outcomes, outcomes.len() as int)) as nat)
        + " typical/etc, "@ + text::dec(sim_report::mc_count(outcomes, outcomes.len() as int))
        + " MC)    "@ + text::dec(rows.len()) + " specs"@
}

fn pdf_stats(rows: &Vec<SummaryRow>, outcomes: &[RunOutcome]) -> (res: String)
    ensures
        res@ == pdf_stats_text(rows@, outcomes@),
{
    let draws: usize = sim_report::count_mc(outcomes);
    let mut s = text::usize_to_string(outcomes.len());
    s.append(" corners (");
    s.append(text::usize_to_string(outcomes.len() - draws).as_str());
    s.append(" typical/etc, ");
    s.append(text::usize_to_string(draws).as_str());
    s.append(" MC)    ");
    s.append(text::usize_to_string(rows.len()).as_str());
    s.append(" specs");
    s
}

/// Column head of a run; nothing for a Monte Carlo draw.
pub open spec fn label_column(o: RunOutcome) -> Seq<char> {
    if sim_report::is_mc(o) {
        ""@
    } else {
        " "@ + text::right_aligned(o.corner.label@, 12)
    }
}

fn label_column_str(o: &RunOutcome) -> (res: String)
    ensures
        res@ == label_column(*o),
{
    if o.corner.kind == CornerKind::Mc {
        return "".to_owned();
    }
    let mut s = " ".to_owned();
    s.append(text::align_right(o.corner.label.as_str(), 12).as_str());
    s
}

/// Outcome of a spec in a run; nothing for a Monte Carlo draw.
pub open spec fn check_column(o: RunOutcome, name: Seq<char>, unit: Seq<char>) -> Seq<char> {
    if sim_report::is_mc(o) {
        ""@
    } else {
        let c = sim_report::named_check(o.spec_checks@, name);
        " "@ + text::right_aligned(text::cut(sim_report::cell_text(c, unit), 11), 11)
            + sim_report::cell_mark(c)
    }
}

fn check_column_str(o: &RunOutcome, name: &str, unit: &str) -> (res: String)
    ensures
        res@ == check_column(*o, name@, unit@),
{
    if o.corner.kind == CornerKind::Mc {
        return "".to_owned();
    }
    let c = sim_report::find_check(&o.spec_checks, name);
    let shown = sim_report::check_cell(c, unit).0;
    let mut s = " ".to_owned();
    s.append(text::align_right(text::cut_to(shown.as_str(), 11).as_str(), 11).as_str());
    s.append(sim_report::check_mark(c));
    s
}

/// Column heads of the first `n` runs.
pub open spec fn label_columns_text(outcomes: Seq<RunOutcome>, n: int) -> Seq<char>
    decreases n,
{
    if n <= 0 {
        Seq::empty()
    } else {
        label_columns_text(outcomes, n - 1) + label_column(outcomes[n - 1])
    }
}

fn label_columns(outcomes: &[RunOutcome]) -> (res: String)
    ensures
        res@ == label_columns_text(outcomes@, outcomes@.len() as int),
{
    let mut s = String::new();
    let mut i: usize = 0;
    while i < outcomes.len()
        invariant
            i <= outcomes.len(),
            s@ == label_columns_text(outcomes@, i as int),
        decreases outcomes.len() - i,
    {
        s.append(label_column_str(&outcomes[i]).as_str());
        i = i + 1;
    }
    s
}

/// Outcomes of a spec in the first `n` runs.
pub open spec fn check_columns_text(outcomes: Seq<RunOutcome>, name: Seq<char>, unit: Seq<char>, n: int) -> Seq<char>
    decreases n,
{
    if n <= 0 {
        Seq::empty()
    } else {
        check_columns_text(outcomes, name, unit, n - 1) + check_column(outcomes[n - 1], name, unit)
    }
}

fn check_columns(outcomes: &[RunOutcome], name: &str, unit: &str) -> (res: String)
    ensures
        res@ == check_columns_text(outcomes@, name@, unit@, outcomes@.len() as int),
{
    let mut s = String::new();
    let mut i: usize = 0;
    while i < outcomes.len()
        invariant
            i <= outcomes.len(),
            s@ == check_columns_text(outcomes@, name@, unit@, i as int),
        decreases outcomes.len() - i,
    {
        s.append(check_column_str(&outcomes[i], name, unit).as_str());
        i = i + 1;
    }
    s
}

/// Head of the table of corners.
pub open spec fn table_head_text(outcomes: Seq<RunOutcome>) -> Seq<char> {
    text::left_aligned("spec"@, 12) + " "@ + text::left_aligned("unit"@, 6) + " "@
        + text::left_aligned("min"@, 10) + " "@ + text::left_aligned("typ"@, 10) + " "@
        + text::left_aligned("max"@, 10) + label_columns_text(outcomes, outcomes.len() as int)
}

fn table_head(outcomes: &[RunOutcome]) -> (res: String)
    ensures
        res@ == table_head_text(outcomes@),
{
    let mut s = text::align_left("spec", 12);
    s.append(" ");
    s.append(text::align_left("unit", 6).as_str());
    s.append(" ");
    s.append(text::align_left("min", 10).as_str());
    s.append(" ");
    s.append(text::align_left("typ", 10).as_str());
    s.append(" ");
    s.append(text::align_left("max", 10).as_str());
    s.append(label_columns(outcomes).as_str());
    s
}

/// One line of the table of corners.
pub open spec fn table_line_text(row: SummaryRow, outcomes: Seq<RunOutcome>, specs: Seq<Spec>) -> Seq<char> {
    text::left_aligned(row.spec_name@, 12) + " "@
        + text::left_aligned(sim_report::unit_text(row.unit), 6) + " "@
        + text::left_aligned(text::cut(sim_report::value_or_dash(sim_report::min_of(limits::find_spec(specs, row.spec_name@)), sim_report::unit_text(row.unit)), 10), 10)
        + " "@
        + text::left_aligned(text::cut(sim_report::value_or_dash(sim_report::typ_of(limits::find_spec(specs, row.spec_name@)), sim_report::unit_text(row.unit)), 10), 10)
        + " "@
        + text::left_aligned(text::cut(sim_report::value_or_dash(sim_report::max_of(limits::find_spec(specs, row.spec_name@)), sim_report::unit_text(row.unit)), 10), 10)
        + check_columns_text(outcomes, row.spec_name@, sim_report::unit_text(row.unit), outcomes.len() as int)
}

fn table_line(row: &SummaryRow, outcomes: &[RunOutcome], specs: &SpecBundle) -> (res: String)
    ensures
        res@ == table_line_text(*row, outcomes@, specs.specs@),
{
    let sp = specs.find(row.spec_name.as_str());
    let unit = sim_report::unit_str(&row.unit);
    let mut s = text::align_left(row.spec_name.as_str(), 12);
    s.append(" ");
    s.append(text::align_left(unit, 6).as_str());
    s.append(" ");
    s.append(text::align_left(text::cut_to(sim_report::fmt_or_dash(sim_report::limit_min(sp), unit).as_str(), 10).as_str(), 10).as_str());
    s.append(" ");
    s.append(text::align_left(text::cut_to(sim_report::fmt_or_dash(sim_report::limit_typ(sp), unit).as_str(), 10).as_str(), 10).as_str());
    s.append(" ");
    s.append(text::align_left(text::cut_to(sim_report::fmt_or_dash(sim_report::limit_max(sp), unit).as_str(), 10).as_str(), 10).as_str());
    s.append(check_columns(outcomes, row.spec_name.as_str(), unit).as_str());
    s
}

/// The lines of the table of corners from the `i`-th row on, the next of them at
/// `y`: the table ends where it comes below 30 mm.
pub open spec fn table_lines(
    rows: Seq<SummaryRow>,
    outcomes: Seq<RunOutcome>,
    specs: Seq<Spec>,
    i: int,
    y: int,
) -> Seq<LineModel>
    decreases rows.len() - i,
{
    if i < 0 || i >= rows.len() {
        Seq::empty()
    } else {
        let line = LineModel {
            text: table_line_text(rows[i], outcomes, specs),
            size: 8,
            y,
            bold: false,
        };
        if y - 9 < 60 {
            seq![line]
        } else {
            seq![line] + table_lines(rows, outcomes, specs, i + 1, y - 9)
        }
    }
}

/// Where a table of `n` rows that starts at `y` ends.
pub open spec fn table_end(n: int, y: int) -> int
    decreases n,
{
    if n <= 0 {
        y
    } else if y - 9 < 60 {
        y - 9
    } else {
        table_end(n - 1, y - 9)
    }
}

fn put_table(
    lines: &mut Vec<PageLine>,
    rows: &Vec<SummaryRow>,
    outcomes: &[RunOutcome],
    specs: &SpecBundle,
    start: u32,
) -> (y: u32)
    requires
        60 <= start <= 600,
    ensures
        y == table_end(rows@.len() as int, start as int),
        line_models(final(lines)@) == line_models(old(lines)@) + table_lines(
            rows@,
            outcomes@,
            specs.specs@,
            0,
            start as int,
        ),
        51 <= y <= 600,
{
    let ghost before = line_models(lines@);
    let ghost all = table_lines(rows@, outcomes@, specs.specs@, 0, start as int);
    let mut y: u32 = start;
    let mut i: usize = 0;
    assert(before + all =~= line_models(lines@) + all);
    while i < rows.len()
        invariant
            i <= rows.len(),
            60 <= y <= 600,
            before == line_models(old(lines)@),
            all == table_lines(rows@, outcomes@, specs.specs@, 0, start as int),
            table_end(rows@.len() as int, start as int) == table_end(rows@.len() - i, y as int),
            before + all == line_models(lines@) + table_lines(
                rows@,
                outcomes@,
                specs.specs@,
                i as int,
                y as int,
            ),
        decreases rows.len() - i,
    {
        let ghost so_far = line_models(lines@);
        let t = table_line(&rows[i], outcomes, specs);
        put(lines, t, 8, y, false);
        proof {
            let rest = table_lines(rows@, outcomes@, specs.specs@, i + 1, y - 9);
            let line = line_models(lines@).last();
            assert(so_far + (seq![line] + rest) =~= so_far.push(line) + rest);
            assert(so_far + seq![line] =~= so_far.push(line));
        }
        y = y - 9;
        if y < 60 {
            return y;
        }
        i = i + 1;
    }
    assert(line_models(lines@) + Seq::<LineModel>::empty() =~= line_models(lines@));
    y
}

/// Column heads of the low and high representative in plain letters.
pub open spec fn plain_heads(style: McSummaryStyle) -> (Seq<char>, Seq<char>) {
    match style {
        McSummaryStyle::ThreeStd => ("u-3s"@, "u+3s"@),
        McSummaryStyle::MinMax => ("min"@, "max"@),
    }
}

fn plain_head_strs(style: McSummaryStyle) -> (res: (&'static str, &'static str))
    ensures
        (res.0@, res.1@) == plain_heads(style),
{
    match style {
        McSummaryStyle::ThreeStd => ("u-3s", "u+3s"),
        McSummaryStyle::MinMax => ("min", "max"),
    }
}

/// Head of the Monte Carlo table.
pub open spec fn mc_head_text(style: McSummaryStyle) -> Seq<char> {
    text::left_aligned("spec"@, 12) + " "@ + text::left_aligned("unit"@, 6) + " "@
        + text::right_aligned(plain_heads(style).0, 12) + " "@ + text::right_aligned("mean"@, 12)
        + " "@ + text::right_aligned(plain_heads(style).1, 12) + " "@
        + text::right_aligned("sigma"@, 10) + " "@ + text::right_aligned("gate"@, 8)
}

fn mc_head(style: McSummaryStyle) -> (res: String)
    ensures
        res@ == mc_head_text(style),
{
    let (low, high): (&str, &str) = plain_head_strs(style);
    let mut s = text::align_left("spec", 12);
    s.append(" ");
    s.append(text::align_left("unit", 6).as_str());
    s.append(" ");
    s.append(text::align_right(low, 12).as_str());
    s.append(" ");
    s.append(text::align_right("mean", 12).as_str());
    s.append(" ");
    s.append(text::align_right(high, 12).as_str());
    s.append(" ");
    s.append(text::align_right("sigma", 10).as_str());
    s.append(" ");
    s.append(text::align_right("gate", 8).as_str());
    s
}

/// Gate of a Monte Carlo row in plain letters; a dash without a spec.
pub open spec fn plain_gate(sp: Option<Spec>, vs: Seq<Real>, style: McSummaryStyle) -> Seq<char> {
    match sp {
        Some(x) => match x.mc_outcome(vs, style) {
            SpecCheck::Pass { .. } => "pass"@,
            SpecCheck::Fail { .. } => "FAIL"@,
            SpecCheck::Skipped => "-"@,
        },
        None => "-"@,
    }
}

fn plain_gate_str(sp: Option<&Spec>, vs: &Vec<Real>, style: McSummaryStyle) -> (res: &'static str)
    ensures
        match sp {
            Some(x) => res@ == plain_gate(Some(*x), vs@, style),
            None => res@ == plain_gate(None, vs@, style),
        },
{
    match sp {
        Some(x) => match x.check_mc(vs, style) {
            SpecCheck::Pass { .. } => "pass",
            SpecCheck::Fail { .. } => "FAIL",
            SpecCheck::Skipped => "-",
        },
        None => "-",
    }
}

/// One line of the Monte Carlo table.
#[verifier::opaque]
pub open spec fn mc_line_text(row: SummaryRow, vs: Seq<Real>, specs: Seq<Spec>, style: McSummaryStyle) -> Seq<char> {
    text::left_aligned(row.spec_name@, 12) + " "@
        + text::left_aligned(sim_report::unit_text(row.unit), 6) + " "@
        + text::right_aligned(text::cut(sim_report::value_text(sim_report::mc_span(style, vs).0, sim_report::unit_text(row.unit)), 12), 12)
        + " "@
        + text::right_aligned(text::cut(sim_report::value_text(limits::mean(vs), sim_report::unit_text(row.unit)), 12), 12)
        + " "@
        + text::right_aligned(text::cut(sim_report::value_text(sim_report::mc_span(style, vs).1, sim_report::unit_text(row.unit)), 12), 12)
        + " "@
        + text::right_aligned(text::cut(sim_report::value_text(limits::deviation(vs, limits::mean(vs)), sim_report::unit_text(row.unit)), 10), 10)
        + " "@
        + text::right_aligned(plain_gate(limits::find_spec(specs, row.spec_name@), vs, style), 8)
}

fn mc_line(row: &SummaryRow, vs: &Vec<Real>, specs: &SpecBundle, style: McSummaryStyle) -> (res: String)
    ensures
        res@ == mc_line_text(*row, vs@, specs.specs@, style),
{
    proof {
        reveal(mc_line_text);
    }
    let unit = sim_report::unit_str(&row.unit);
    let mean = limits::mean_of(vs);
    let (lo, hi): (Real, Real) = sim_report::span_of(style, vs);
    let gate = plain_gate_str(specs.find(row.spec_name.as_str()), vs, style);
    let mut s = text::align_left(row.spec_name.as_str(), 12);
    s.append(" ");
    s.append(text::align_left(unit, 6).as_str());
    s.append(" ");
    s.append(text::align_right(text::cut_to(sim_report::fmt_value(lo, unit).as_str(), 12).as_str(), 12).as_str());
    s.append(" ");
    s.append(text::align_right(text::cut_to(sim_report::fmt_value(mean, unit).as_str(), 12).as_str(), 12).as_str());
    s.append(" ");
    s.append(text::align_right(text::cut_to(sim_report::fmt_value(hi, unit).as_str(), 12).as_str(), 12).as_str());
    s.append(" ");
    s.append(text::align_right(text::cut_to(sim_report::fmt_value(limits::deviation_of(vs, mean), unit).as_str(), 10).as_str(), 10).as_str());
    s.append(" ");
    s.append(text::align_right(gate, 8).as_str());
    s
}

/// The lines of the Monte Carlo table from the `i`-th row on, the next of them at
/// `y`: rows without draws are left out, and the table ends where it comes below
/// 25 mm.
pub open spec fn mc_lines(
    rows: Seq<SummaryRow>,
    outcomes: Seq<RunOutcome>,
    specs: Seq<Spec>,
    style: McSummaryStyle,
    i: int,
    y: int,
) -> Seq<LineModel>
    decreases rows.len() - i,
{
    if i < 0 || i >= rows.len() {
        Seq::empty()
    } else {
        let vs = sim_report::all_draws(outcomes, rows[i].spec_name@);
        if vs.len() == 0 {
            mc_lines(rows, outcomes, specs, style, i + 1, y)
        } else {
            let line = LineModel {
                text: mc_line_text(rows[i], vs, specs, style),
                size: 8,
                y,
                bold: false,
            };
            if y - 9 < 50 {
                seq![line]
            } else {
                seq![line] + mc_lines(rows, outcomes, specs, style, i + 1, y - 9)
            }
        }
    }
}

#[verifier::rlimit(30)]
fn put_mc_table(
    lines: &mut Vec<PageLine>,
    rows: &Vec<SummaryRow>,
    outcomes: &[RunOutcome],
    specs: &SpecBundle,
    style: McSummaryStyle,
    start: u32,
)
    requires
        50 <= start <= 600,
    ensures
        line_models(final(lines)@) == line_models(old(lines)@) + mc_lines(
            rows@,
            outcomes@,
            specs.specs@,
            style,
            0,
            start as int,
        ),
{
    let ghost before = line_models(lines@);
    let ghost all = mc_lines(rows@, outcomes@, specs.specs@, style, 0, start as int);
    let mut y: u32 = start;
    let mut i: usize = 0;
    assert(before + all =~= line_models(lines@) + all);
    while i < rows.len()
        invariant
            i <= rows.len(),
            50 <= y <= 600,
            before == line_models(old(lines)@),
            all == mc_lines(rows@, outcomes@, specs.specs@, style, 0, start as int),
            before + all == line_models(lines@) + mc_lines(
                rows@,
                outcomes@,
                specs.specs@,
                style,
                i as int,
                y as int,
            ),
        decreases rows.len() - i,
    {
        let vs = sim_report::mc_values(outcomes, rows[i].spec_name.as_str());
        if vs.len() > 0 {
            let ghost so_far = line_models(lines@);
            let t = mc_line(&rows[i], &vs, specs, style);
            put(lines, t, 8, y, false);
            proof {
                let rest = mc_lines(rows@, outcomes@, specs.specs@, style, i + 1, y - 9);
                let line = line_models(lines@).last();
                assert(so_far + (seq![line] + rest) =~= so_far.push(line) + rest);
                assert(so_far + seq![line] =~= so_far.push(line));
            }
            y = y - 9;
            if y < 50 {
                return;
            }
        }
        i = i + 1;
    }
    assert(line_models(lines@) + Seq::<LineModel>::empty() =~= line_models(lines@));
}

/// Title of the document and of its front page.
pub open spec fn pdf_title_text(tb: Seq<char>) -> Seq<char> {
    tb + " – simulation summary"@
}

/// Title of the document and of its front page.
pub fn pdf_title(tb: &str) -> (res: String)
    ensures
        res@ == pdf_title_text(tb@),
{
    let mut s = (tb).to_owned();
    s.append(" – simulation summary");
    s
}

/// Headline of the Monte Carlo table.
pub open spec fn mc_heading_text(outcomes: Seq<RunOutcome>, style: McSummaryStyle) -> Seq<char> {
    "Monte Carlo ("@ + text::dec(sim_report::mc_count(outcomes, outcomes.len() as int))
        + " draws, summary="@ + style.tag() + ")"@
}

fn mc_heading(outcomes: &[RunOutcome], style: McSummaryStyle) -> (res: String)
    ensures
        res@ == mc_heading_text(outcomes@, style),
{
    let mut s = "Monte Carlo (".to_owned();
    s.append(text::usize_to_string(sim_report::count_mc(outcomes)).as_str());
    s.append(" draws, summary=");
    s.append(style.as_str());
    s.append(")");
    s
}

/// The Monte Carlo part of the front page below `y`; nothing without draws or
/// where there is no room.
pub open spec fn mc_part(
    rows: Seq<SummaryRow>,
    outcomes: Seq<RunOutcome>,
    specs: Seq<Spec>,
    style: McSummaryStyle,
    y: int,
) -> Seq<LineModel> {
    if sim_report::mc_count(outcomes, outcomes.len() as int) > 0 && y > 100 {
        Seq::empty().push(
            LineModel { text: mc_heading_text(outcomes, style), size: 12, y: y - 8, bold: true },
        ).push(LineModel { text: mc_head_text(style), size: 8, y: y - 20, bold: true }) + mc_lines(
            rows,
            outcomes,
            specs,
            style,
            0,
            y - 30,
        )
    } else {
        Seq::empty()
    }
}

/// The lines above the tables.
pub open spec fn heading_lines(
    tb: Seq<char>,
    rows: Seq<SummaryRow>,
    outcomes: Seq<RunOutcome>,
) -> Seq<LineModel> {
    Seq::empty().push(LineModel { text: pdf_title_text(tb), size: 18, y: 530, bold: true }).push(
        LineModel { text: pdf_stats_text(rows, outcomes), size: 10, y: 514, bold: false },
    ).push(
        LineModel {
            text: if sim_report::all_pass(rows) {
                "ALL CORNERS PASS"@
            } else {
                "SPEC FAILURES PRESENT"@
            },
            size: 12,
            y: 502,
            bold: true,
        },
    )
}

/// The lines of the front page.
pub open spec fn front_page_lines(
    tb: Seq<char>,
    rows: Seq<SummaryRow>,
    outcomes: Seq<RunOutcome>,
    specs: Seq<Spec>,
    style: McSummaryStyle,
) -> Seq<LineModel> {
    let head = heading_lines(tb, rows, outcomes);
    if outcomes.len() == 0 {
        head.push(LineModel { text: "no corners ran"@, size: 11, y: 484, bold: false })
    } else {
        head.push(LineModel { text: "Per-corner"@, size: 12, y: 484, bold: true }).push(
            LineModel { text: table_head_text(outcomes), size: 8, y: 472, bold: true },
        ) + table_lines(rows, outcomes, specs, 0, 462) + mc_part(
            rows,
            outcomes,
            specs,
            style,
            table_end(rows.len() as int, 462),
        )
    }
}

/// Lays out the front page: headline figures, the table of corners and the Monte
/// Carlo table, as far as they fit.
pub fn front_page(
    tb: &str,
    rows: &Vec<SummaryRow>,
    outcomes: &[RunOutcome],
    specs: &SpecBundle,
    style: McSummaryStyle,
) -> (res: Vec<PageLine>)
    ensures
        line_models(res@) == front_page_lines(tb@, rows@, outcomes@, specs.specs@, style),
{
    let mut lines: Vec<PageLine> = Vec::new();
    assert(line_models(lines@) =~= Seq::empty());
    put(&mut lines, pdf_title(tb), 18, 530, true);
    put(&mut lines, pdf_stats(rows, outcomes), 10, 514, false);
    let banner = if sim_report::none_fails(rows) {
        "ALL CORNERS PASS"
    } else {
        "SPEC FAILURES PRESENT"
    };
    put(&mut lines, banner.to_owned(), 12, 502, true);
    if outcomes.len() == 0 {
        put(&mut lines, "no corners ran".to_owned(), 11, 484, false);
        return lines;
    }
    put(&mut lines, "Per-corner".to_owned(), 12, 484, true);
    put(&mut lines, table_head(outcomes), 8, 472, true);
    let y: u32 = put_table(&mut lines, rows, outcomes, specs, 462);
    let ghost upper = line_models(lines@);
    if sim_report::count_mc(outcomes) > 0 && y > 100 {
        put(&mut lines, mc_heading(outcomes, style), 12, y - 8, true);
        put(&mut lines, mc_head(style), 8, y - 20, true);
        put_mc_table(&mut lines, rows, outcomes, specs, style, y - 30);
        assert(line_models(lines@) =~= upper + mc_part(
            rows@,
            outcomes@,
            specs.specs@,
            style,
            y as int,
        ));
    } else {
        assert(upper + Seq::<LineModel>::empty() =~= upper);
    }
    lines
}

/// Every line of the front page lies above the lower margin.
pub proof fn tables_stay_on_the_page(
    rows: Seq<SummaryRow>,
    outcomes: Seq<RunOutcome>,
    specs: Seq<Spec>,
    i: int,
    y: int,
    k: int,
)
    requires
        y >= 60,
        0 <= k < table_lines(rows, outcomes, specs, i, y).len(),
    ensures
        60 <= table_lines(rows, outcomes, specs, i, y)[k].y <= y,
    decreases rows.len() - i,
{
    if 0 <= i < rows.len() && y - 9 >= 60 && k > 0 {
        tables_stay_on_the_page(rows, outcomes, specs, i + 1, y - 9, k - 1);
    }
}

// ── one page per corner ────────────────────────────────────────────

/// The texts on the page of one corner.
#[derive(Debug)]
pub struct CornerPage {
    pub layer: String,
    pub picture: String,
    pub title: String,
    pub subtitle: String,
    pub measures: Vec<String>,
}

/// Name of the layer of a corner's page.
pub open spec fn page_layer_text(o: RunOutcome) -> Seq<char> {
    o.corner.label@ + "_layer"@
}

fn page_layer(o: &RunOutcome) -> (res: String)
    ensures
        res@ == page_layer_text(*o),
{
    let mut s = o.corner.label.clone();
    s.append("_layer");
    s
}

/// File name of the picture of a corner's waveform.
pub open spec fn page_picture_text(tb: Seq<char>, o: RunOutcome, multi_view: bool) -> Seq<char> {
    sim_report::stem(tb, o.corner, multi_view) + ".png"@
}

fn page_picture(tb: &str, o: &RunOutcome, multi_view: bool) -> (res: String)
    ensures
        res@ == page_picture_text(tb@, *o, multi_view),
{
    let mut s = sim_report::corner_stem(tb, &o.corner, multi_view);
    s.append(".png");
    s
}

/// Title of a corner's page.
pub open spec fn page_title_text(tb: Seq<char>, o: RunOutcome) -> Seq<char> {
    tb + " – "@ + o.corner.label@
}

fn page_title(tb: &str, o: &RunOutcome) -> (res: String)
    ensures
        res@ == page_title_text(tb@, *o),
{
    let mut s = (tb).to_owned();
    s.append(" – ");
    s.append(o.corner.label.as_str());
    s
}

/// Conditions of a corner.
pub open spec fn page_subtitle_text(o: RunOutcome) -> Seq<char> {
    "kind="@ + o.corner.kind.variant() + "  vdd="@ + numfmt::shortest(o.corner.vdd) + " V  temp="@
        + numfmt::shortest(o.corner.temp_c) + " °C  lib="@ + o.corner.lib_section@
}

fn page_subtitle(o: &RunOutcome) -> (res: String)
    ensures
        res@ == page_subtitle_text(*o),
{
    let mut s = "kind=".to_owned();
    s.append(o.corner.kind.variant_name());
    s.append("  vdd=");
    s.append(numfmt::to_shortest(o.corner.vdd).as_str());
    s.append(" V  temp=");
    s.append(numfmt::to_shortest(o.corner.temp_c).as_str());
    s.append(" °C  lib=");
    s.append(o.corner.lib_section.as_str());
    s
}

/// One measured value on a corner's page.
pub open spec fn page_measure(name: Seq<char>, v: MeasurementValue, sp: Option<Spec>) -> Seq<char> {
    "  "@ + name + " = "@ + (match v {
        MeasurementValue::Number(x) => sim_report::value_text(x, sim_report::spec_unit(sp)),
        MeasurementValue::Failed => "failed"@,
    })
}

fn page_measure_str(name: &str, v: MeasurementValue, specs: &SpecBundle) -> (res: String)
    ensures
        res@ == page_measure(name@, v, limits::find_spec(specs.specs@, name@)),
{
    let unit = sim_report::spec_unit_str(specs.find(name));
    let shown = match v {
        MeasurementValue::Number(x) => sim_report::fmt_value(x, unit),
        MeasurementValue::Failed => "failed".to_owned(),
    };
    let mut s = "  ".to_owned();
    s.append(name);
    s.append(" = ");
    s.append(shown.as_str());
    s
}

/// The measured values on a corner's page, in ascending order of their names.
pub open spec fn page_measures(
    listing: Seq<(String, MeasurementValue)>,
    specs: Seq<Spec>,
) -> Seq<Seq<char>> {
    Seq::new(
        listing.len(),
        |i: int|
            page_measure(listing[i].0@, listing[i].1, limits::find_spec(specs, listing[i].0@)),
    )
}

/// Puts together the texts on the page of one corner; none for a Monte Carlo draw.
/// `multi_view` says whether the batch has both views.
pub fn corner_page(tb: &str, o: &RunOutcome, specs: &SpecBundle, multi_view: bool) -> (res: Option<
    CornerPage,
>)
    ensures
        res is None <==> sim_report::is_mc(*o),
        res matches Some(p) ==> p.layer@ == page_layer_text(*o) && p.picture@ == page_picture_text(
            tb@,
            *o,
            multi_view,
        ) && p.title@ == page_title_text(tb@, *o) && p.subtitle@ == page_subtitle_text(*o)
            && text::texts(p.measures@) == page_measures(
            o.measures.values.listing(),
            specs.specs@,
        ),
{
    if o.corner.kind == CornerKind::Mc {
        return None;
    }
    let ghost listing = o.measures.values.listing();
    let mut measures: Vec<String> = Vec::new();
    let mut i: usize = 0;
    while i < o.measures.values.len()
        invariant
            i <= listing.len(),
            listing == o.measures.values.listing(),
            text::texts(measures@) =~= page_measures(listing, specs.specs@).take(i as int),
        decreases listing.len() - i,
    {
        let name = o.measures.values.name_at(i).as_str();
        let ghost before = measures@;
        measures.push(page_measure_str(name, o.measures.values.value_at(i), specs));
        assert(text::texts(measures@) =~= text::texts(before).push(measures@.last()@));
        i = i + 1;
    }
    assert(text::texts(measures@) =~= page_measures(listing, specs.specs@));
    Some(
        CornerPage {
            layer: page_layer(o),
            picture: page_picture(tb, o, multi_view),
            title: page_title(tb, o),
            subtitle: page_subtitle(o),
            measures,
        },
    )
}

// ── pictures ───────────────────────────────────────────────────────

/// Width of a picture on a page, in millimetres: 180.
pub const PICTURE_WIDTH_BITS: u32 = 0x4334_0000;

/// Height of the line above a picture: 258 mm.
pub const HEAD_BITS: u32 = 0x4381_0000;

/// From that line to the upper edge of a picture: 4 mm.
pub const PICTURE_GAP_BITS: u32 = 0x4080_0000;

/// From that line to the first line below a picture, besides the picture: 12 mm.
pub const LINE_GAP_BITS: u32 = 0x4140_0000;

/// From line to line: 4.5 mm.
pub const LINE_STEP_BITS: u32 = 0x4090_0000;

/// The lowest height of a line: 15 mm.
pub const FOOT_BITS: u32 = 0x4170_0000;

/// Millimetres to the inch: 25.4.
pub const INCH_BITS: u32 = 0x41cb_3333;

/// Dots to the inch: 300.
pub const DPI_BITS: u32 = 0x4396_0000;

/// Where a picture goes on the page of a corner, and where the lines below it go.
#[derive(Debug)]
pub struct PicturePlan {
    /// Height of its lower edge, in millimetres.
    pub y: Single,
    pub scale_x: Single,
    pub scale_y: Single,
    /// Heights of the lines, in millimetres.
    pub lines: Vec<Single>,
}

/// Height of a picture of given extents on a page, in millimetres.
pub open spec fn picture_height(w: u32, h: u32) -> Single {
    (Single { bits: PICTURE_WIDTH_BITS }).mul_spec(Single::of_nat(h as nat)).div_spec(
        Single::of_nat(w as nat),
    )
}

/// Extent of a picture that is not scaled, in millimetres.
pub open spec fn plain_extent(n: u32) -> Single {
    Single::of_nat(n as nat).mul_spec(Single { bits: INCH_BITS }).div_spec(
        Single { bits: DPI_BITS },
    )
}

fn plain_extent_of(n: u32) -> (res: Single)
    ensures
        res == plain_extent(n),
{
    Single::from_u64(n as u64).mul(Single { bits: INCH_BITS }).div(Single { bits: DPI_BITS })
}

/// Height of the line below one at `y`.
pub open spec fn line_below(y: Single) -> Single {
    y.sub_spec(Single { bits: LINE_STEP_BITS })
}

/// Heights of at most `n` lines of which the first is at `y`. There is always one; no
/// other is below the foot of the page.
pub open spec fn line_heights(y: Single, n: nat) -> Seq<Single>
    decreases n,
{
    if n == 0 {
        Seq::empty()
    } else if line_below(y).below(Single { bits: FOOT_BITS }) {
        seq![y]
    } else {
        seq![y] + line_heights(line_below(y), (n - 1) as nat)
    }
}

/// Whether a plan is that for a picture of given extents, with at most `n` lines below it.
pub open spec fn is_plan(plan: PicturePlan, w: u32, h: u32, n: nat) -> bool {
    let below_head = (Single { bits: HEAD_BITS }).sub_spec(picture_height(w, h));
    &&& plan.y == below_head.sub_spec(Single { bits: PICTURE_GAP_BITS })
    &&& plan.scale_x == (Single { bits: PICTURE_WIDTH_BITS }).div_spec(plain_extent(w))
    &&& plan.scale_y == picture_height(w, h).div_spec(plain_extent(h))
    &&& plan.lines@ == line_heights(below_head.sub_spec(Single { bits: LINE_GAP_BITS }), n)
}

/// Places a picture of given extents on the page of a corner, with at most `n` lines
/// below it.
pub fn place_picture(w: u32, h: u32, n: usize) -> (res: PicturePlan)
    ensures
        is_plan(res, w, h, n as nat),
{
    let width = Single { bits: PICTURE_WIDTH_BITS };
    let height = width.mul(Single::from_u64(h as u64)).div(Single::from_u64(w as u64));
    let below_head = (Single { bits: HEAD_BITS }).sub(height);
    let mut lines: Vec<Single> = Vec::new();
    let mut y = below_head.sub(Single { bits: LINE_GAP_BITS });
    let ghost all = line_heights(y, n as nat);
    let mut left: usize = n;
    assert(lines@ + line_heights(y, left as nat) =~= all);
    while left > 0
        invariant
            lines@ + line_heights(y, left as nat) == all,
        decreases left,
    {
        let next = y.sub(Single { bits: LINE_STEP_BITS });
        let ghost before = lines@;
        lines.push(y);
        if next.lt(Single { bits: FOOT_BITS }) {
            left = 0;
            assert(lines@ + line_heights(next, 0) =~= before + seq![y]);
        } else {
            left = left - 1;
            assert(lines@ + line_heights(next, left as nat) =~= before + (seq![y] + line_heights(
                next,
                left as nat,
            )));
        }
        y = next;
    }
    assert(lines@ =~= all);
    PicturePlan {
        y: below_head.sub(Single { bits: PICTURE_GAP_BITS }),
        scale_x: width.div(plain_extent_of(w)),
        scale_y: height.div(plain_extent_of(h)),
        lines,
    }
}

/// Width, height and pixels of an encoded picture, row by row, with a byte each for red,
/// green and blue; none where it cannot be decoded.
pub uninterp spec fn decoded_rgb(bytes: Seq<u8>) -> Option<(u32, u32, Seq<u8>)>;

/// `image::load_from_memory`, with `DynamicImage::to_rgb8`: decodes a picture whose format
/// the first bytes tell. How it is decoded is left unsaid.
#[verifier::external_body]
fn decode_rgb(bytes: &Vec<u8>) -> (res: Option<(u32, u32, Vec<u8>)>)
    ensures
        match res {
            Some(p) => decoded_rgb(bytes@) == Some((p.0, p.1, p.2@)),
            None => decoded_rgb(bytes@) is None,
        },
        res matches Some(p) ==> p.2@.len() == 3 * p.0 * p.1,
{
    match image::load_from_memory(bytes) {
        Ok(img) => {
            let rgb = img.to_rgb8();
            Some((rgb.width(), rgb.height(), rgb.into_raw()))
        },
        Err(_) => None,
    }
}

/// The picture of a corner: its pixels, and where it goes on the page.
#[derive(Debug)]
pub struct PagePicture {
    pub width: u32,
    pub height: u32,
    /// A byte each for red, green and blue.
    pub pixels: Vec<u8>,
    pub plan: PicturePlan,
}

/// Decodes the picture of a corner and places it on its page, above the measures. A corner
/// whose picture cannot be decoded has no page.
pub fn page_picture_of(bytes: &Vec<u8>, page: &CornerPage) -> (res: Option<PagePicture>)
    ensures
        match decoded_rgb(bytes@) {
            None => res is None,
            Some((w, h, pixels)) => res matches Some(p) && p.width == w && p.height == h
                && p.pixels@ == pixels && is_plan(p.plan, w, h, page.measures@.len()),
        },
        res matches Some(p) ==> p.pixels@.len() == 3 * p.width * p.height,
{
    match decode_rgb(bytes) {
        None => None,
        Some((width, height, pixels)) => {
            let plan = place_picture(width, height, page.measures.len());
            Some(PagePicture { width, height, pixels, plan })
        },
    }
}

/// No line below a picture but the first is below the foot of the page.
pub proof fn lines_stay_above_the_foot(y: Single, n: nat, k: int)
    requires
        0 < k < line_heights(y, n).len(),
    ensures
        !line_heights(y, n)[k].below(Single { bits: FOOT_BITS }),
        line_heights(y, n)[k] == line_below(line_heights(y, n)[k - 1]),
    decreases n,
{
    reveal_with_fuel(line_heights, 2);
    let rest = line_heights(line_below(y), (n - 1) as nat);
    assert(line_heights(y, n)[k] == rest[k - 1]);
    if k > 1 {
        lines_stay_above_the_foot(line_below(y), (n - 1) as nat, k - 1);
        assert(line_heights(y, n)[k - 1] == rest[k - 2]);
    }
}

} // verus!
