//! The report on an optimization run: a Markdown page with its pictures and its
//! trace as a table.

use crate::charts;
use crate::charts::{ChartSpec, Marks};
use crate::double::Real;
use crate::numfmt;
use crate::paths;
use crate::text;
use crate::trace;
use crate::trace::{Trace, TraceRow};
use vstd::prelude::*;
use vstd::string::*;

verus! {

/// 1e-3.
pub const SMALL_BITS: u64 = 0x3f50_624d_d2f1_a9fc;

/// 1e5.
pub const LARGE_BITS: u64 = 0x40f8_6a00_0000_0000;

/// 100.
pub const HUNDRED_BITS: u64 = 0x4059_0000_0000_0000;

/// What kind of design a run is about; a tag in the head of the report.
#[derive(Debug)]
pub enum Domain {
    Electrical,
    Photonic,
    Rf,
    Quantum,
    Neuromorphic,
    Layout,
    Other(String),
}

impl Domain {
    pub open spec fn name(self) -> Seq<char> {
        match self {
            Domain::Electrical => "Electrical"@,
            Domain::Photonic => "Photonic"@,
            Domain::Rf => "RF"@,
            Domain::Quantum => "Quantum"@,
            Domain::Neuromorphic => "Neuromorphic"@,
            Domain::Layout => "Layout"@,
            Domain::Other(s) => s@,
        }
    }

    pub fn label(&self) -> (res: &str)
        ensures
            res@ == self.name(),
    {
        match self {
            Domain::Electrical => "Electrical",
            Domain::Photonic => "Photonic",
            Domain::Rf => "RF",
            Domain::Quantum => "Quantum",
            Domain::Neuromorphic => "Neuromorphic",
            Domain::Layout => "Layout",
            Domain::Other(s) => s.as_str(),
        }
    }
}

/// A published result that a run is held against.
#[derive(Debug)]
pub struct Reference {
    pub citation: String,
    pub formula: String,
    pub predicted: String,
    pub simulated: String,
    pub passed: bool,
}

/// A picture of the device.
#[derive(Debug)]
pub enum FloorplanSource {
    Absent,
    Svg { svg: String, caption: String },
}

/// A section of the caller's own.
#[derive(Debug)]
pub struct Panel {
    pub heading: String,
    pub body: PanelBody,
}

/// What such a section shows.
#[derive(Debug)]
pub enum PanelBody {
    Markdown(String),
    Svg { file_slug: String, body: String },
}

/// The words of a report.
#[derive(Debug)]
pub struct ReportMeta {
    pub title: String,
    pub circuit: String,
    pub domain: Domain,
    pub intro_md: String,
    pub objective_md: String,
    pub notes_md: String,
    pub references: Vec<Reference>,
}

impl ReportMeta {
    pub fn new(title: &str, circuit: &str, domain: Domain) -> (res: Self)
        ensures
            res.title@ == title@,
            res.circuit@ == circuit@,
            res.domain == domain,
            res.intro_md@.len() == 0,
            res.objective_md@.len() == 0,
            res.notes_md@.len() == 0,
            res.references@.len() == 0,
    {
        ReportMeta {
            title: title.to_owned(),
            circuit: circuit.to_owned(),
            domain,
            intro_md: String::new(),
            objective_md: String::new(),
            notes_md: String::new(),
            references: Vec::new(),
        }
    }

    pub fn with_intro(self, md: &str) -> (res: Self)
        ensures
            res == (ReportMeta { intro_md: res.intro_md, ..self }),
            res.intro_md@ == md@,
    {
        let mut m = self;
        m.intro_md = md.to_owned();
        m
    }

    pub fn with_objective(self, md: &str) -> (res: Self)
        ensures
            res == (ReportMeta { objective_md: res.objective_md, ..self }),
            res.objective_md@ == md@,
    {
        let mut m = self;
        m.objective_md = md.to_owned();
        m
    }

    pub fn with_notes(self, md: &str) -> (res: Self)
        ensures
            res == (ReportMeta { notes_md: res.notes_md, ..self }),
            res.notes_md@ == md@,
    {
        let mut m = self;
        m.notes_md = md.to_owned();
        m
    }

    pub fn with_references(self, refs: Vec<Reference>) -> (res: Self)
        ensures
            res == (ReportMeta { references: refs, ..self }),
    {
        let mut m = self;
        m.references = refs;
        m
    }
}

/// A report to write.
#[derive(Debug)]
pub struct Report<'a> {
    pub trace: &'a Trace,
    pub meta: &'a ReportMeta,
    pub charts: &'a [ChartSpec],
    pub floorplan: FloorplanSource,
    pub extra_panels: Vec<Panel>,
}

/// A file to write, and where a raster copy of it goes.
#[derive(Debug)]
pub struct Asset {
    pub path: String,
    pub content: String,
    pub raster: Option<String>,
}

#[verifier::ext_equal]
pub struct AssetModel {
    pub path: Seq<char>,
    pub content: Seq<char>,
    pub raster: Option<Seq<char>>,
}

impl Asset {
    pub open spec fn model(self) -> AssetModel {
        AssetModel {
            path: self.path@,
            content: self.content@,
            raster: paths::opt_text(self.raster),
        }
    }
}

pub open spec fn asset_models(s: Seq<Asset>) -> Seq<AssetModel> {
    s.map_values(|a: Asset| a.model())
}

fn put(assets: &mut Vec<Asset>, a: Asset)
    ensures
        asset_models(final(assets)@) == asset_models(old(assets)@).push(a.model()),
{
    let ghost before = assets@;
    assets.push(a);
    assert(asset_models(assets@) =~= asset_models(before).push(a.model()));
}

// ── numbers and tables ─────────────────────────────────────────────

/// A number in the report: scientific where it is very small or very large, with
/// fewer digits where it is large.
pub open spec fn smart(v: Real) -> Seq<char> {
    if v.magnitude() == 0 {
        "0"@
    } else if !v.finite() {
        numfmt::shortest(v)
    } else if v.abs_spec().below(Real { bits: SMALL_BITS }) || (Real { bits: LARGE_BITS }).at_most(
        v.abs_spec(),
    ) {
        numfmt::scientific(v, 4)
    } else if (Real { bits: HUNDRED_BITS }).at_most(v.abs_spec()) {
        numfmt::fixed(v, 3, false)
    } else {
        numfmt::fixed(v, 6, false)
    }
}

/// Renders a number for the report.
pub fn format_smart(v: Real) -> (res: String)
    ensures
        res@ == smart(v),
{
    if v.abs().to_bits() == 0 {
        "0".to_owned()
    } else if !v.is_finite() {
        numfmt::to_shortest(v)
    } else if v.abs().lt(Real { bits: SMALL_BITS }) || (Real { bits: LARGE_BITS }).le(v.abs()) {
        numfmt::to_scientific(v, 4)
    } else if (Real { bits: HUNDRED_BITS }).le(v.abs()) {
        numfmt::to_fixed(v, 3, false)
    } else {
        numfmt::to_fixed(v, 6, false)
    }
}

/// How one series came out.
pub open spec fn outcome_row_text(name: Seq<char>, v0: Real, v1: Real) -> Seq<char> {
    "| `"@ + name + "` | "@ + smart(v0) + " | "@ + smart(v1) + " | "@ + smart(v1.sub_spec(v0))
        + " |\n"@
}

fn outcome_row(name: &str, v0: Real, v1: Real) -> (res: String)
    ensures
        res@ == outcome_row_text(name@, v0, v1),
{
    let mut s = "| `".to_owned();
    s.append(name);
    s.append("` | ");
    s.append(format_smart(v0).as_str());
    s.append(" | ");
    s.append(format_smart(v1).as_str());
    s.append(" | ");
    s.append(format_smart(v1.sub(v0)).as_str());
    s.append(" |\n");
    s
}

/// How the first `n` series came out, from the first row to the last.
pub open spec fn outcome_rows_text(first: TraceRow, last: TraceRow, names: Seq<Seq<char>>, n: int) -> Seq<char>
    decreases n,
{
    if n <= 0 {
        Seq::empty()
    } else {
        outcome_rows_text(first, last, names, n - 1) + outcome_row_text(names[n - 1], trace::value_in(first.values@, names[n - 1]), trace::value_in(last.values@, names[n - 1]))
    }
}

fn outcome_rows(first: &TraceRow, last: &TraceRow, names: &Vec<String>) -> (res: String)
    ensures
        res@ == outcome_rows_text(*first, *last, text::texts(names@), names@.len() as int),
{
    let mut s = String::new();
    let mut i: usize = 0;
    while i < names.len()
        invariant
            i <= names.len(),
            s@ == outcome_rows_text(*first, *last, text::texts(names@), i as int),
        decreases names.len() - i,
    {
        assert(text::texts(names@)[i as int] == names@[i as int]@);
        let name: &str = names[i].as_str();
        s.append(outcome_row(name, first.get(name), last.get(name)).as_str());
        i = i + 1;
    }
    s
}

/// How every series came out.
pub open spec fn outcome(t: Trace) -> Seq<char> {
    if t.rows@.len() == 0 {
        "_(no rows logged)_\n"@
    } else {
        "| Series | Initial | Final | Δ |\n| --- | ---: | ---: | ---: |\n"@ + outcome_rows_text(
            t.rows@[0],
            t.rows@.last(),
            text::texts(t.series_order@),
            t.series_order@.len() as int,
        )
    }
}

/// Renders how every series came out.
pub fn render_outcome(t: &Trace) -> (res: String)
    ensures
        res@ == outcome(*t),
{
    if t.rows.len() == 0 {
        return "_(no rows logged)_\n".to_owned();
    }
    let mut s = "| Series | Initial | Final | Δ |\n| --- | ---: | ---: | ---: |\n".to_owned();
    let last: usize = t.rows.len() - 1;
    s.append(outcome_rows(&t.rows[0], &t.rows[last], &t.series_order).as_str());
    s
}

/// The first `n` names as heads of columns.
pub open spec fn head_cells_text(names: Seq<Seq<char>>, n: int) -> Seq<char>
    decreases n,
{
    if n <= 0 {
        Seq::empty()
    } else {
        head_cells_text(names, n - 1) + (" `"@ + names[n - 1] + "` |"@)
    }
}

fn head_cells(names: &Vec<String>) -> (res: String)
    ensures
        res@ == head_cells_text(text::texts(names@), names@.len() as int),
{
    let mut s = String::new();
    let mut i: usize = 0;
    while i < names.len()
        invariant
            i <= names.len(),
            s@ == head_cells_text(text::texts(names@), i as int),
        decreases names.len() - i,
    {
        assert(text::texts(names@)[i as int] == names@[i as int]@);
        s.append(head_cell(names[i].as_str()).as_str());
        i = i + 1;
    }
    s
}

fn head_cell(name: &str) -> (res: String)
    ensures
        res@ == " `"@ + name@ + "` |"@,
{
    let mut s = " `".to_owned();
    s.append(name);
    s.append("` |");
    s
}

/// The rules of the first `n` columns.
pub open spec fn rule_cells_text(n: int) -> Seq<char>
    decreases n,
{
    if n <= 0 {
        Seq::empty()
    } else {
        rule_cells_text(n - 1) + " ---: |"@
    }
}

fn rule_cells(k: usize) -> (res: String)
    ensures
        res@ == rule_cells_text(k as int),
{
    let mut s = String::new();
    let mut i: usize = 0;
    while i < k
        invariant
            i <= k,
            s@ == rule_cells_text(i as int),
        decreases k - i,
    {
        s.append(" ---: |");
        i = i + 1;
    }
    s
}

fn smart_cell(v: Real) -> (res: String)
    ensures
        res@ == " "@ + smart(v) + " |"@,
{
    let mut s = " ".to_owned();
    s.append(format_smart(v).as_str());
    s.append(" |");
    s
}

/// What a row holds under the first `n` names.
pub open spec fn smart_cells_text(row: TraceRow, names: Seq<Seq<char>>, n: int) -> Seq<char>
    decreases n,
{
    if n <= 0 {
        Seq::empty()
    } else {
        smart_cells_text(row, names, n - 1) + (" "@ + smart(trace::value_in(row.values@, names[n - 1])) + " |"@)
    }
}

fn smart_cells(row: &TraceRow, names: &Vec<String>) -> (res: String)
    ensures
        res@ == smart_cells_text(*row, text::texts(names@), names@.len() as int),
{
    let mut s = String::new();
    let mut i: usize = 0;
    while i < names.len()
        invariant
            i <= names.len(),
            s@ == smart_cells_text(*row, text::texts(names@), i as int),
        decreases names.len() - i,
    {
        assert(text::texts(names@)[i as int] == names@[i as int]@);
        s.append(smart_cell(row.get(names[i].as_str())).as_str());
        i = i + 1;
    }
    s
}

/// One row of the table.
pub open spec fn table_row_text(row: TraceRow, names: Seq<Seq<char>>) -> Seq<char> {
    "| "@ + text::dec(row.step as nat) + " |"@ + smart_cells_text(row, names, names.len() as int)
        + "\n"@
}

fn table_row(row: &TraceRow, names: &Vec<String>) -> (res: String)
    ensures
        res@ == table_row_text(*row, text::texts(names@)),
{
    assert(text::texts(names@).len() == names@.len());
    let mut s = "| ".to_owned();
    s.append(text::u32_to_string(row.step).as_str());
    s.append(" |");
    s.append(smart_cells(row, names).as_str());
    s.append("\n");
    s
}

/// The first `n` rows of the table.
pub open spec fn table_rows_text(rows: Seq<TraceRow>, names: Seq<Seq<char>>, n: int) -> Seq<char>
    decreases n,
{
    if n <= 0 {
        Seq::empty()
    } else {
        table_rows_text(rows, names, n - 1) + table_row_text(rows[n - 1], names)
    }
}

fn table_rows(rows: &Vec<TraceRow>, names: &Vec<String>) -> (res: String)
    ensures
        res@ == table_rows_text(rows@, text::texts(names@), rows@.len() as int),
{
    let mut s = String::new();
    let mut i: usize = 0;
    while i < rows.len()
        invariant
            i <= rows.len(),
            s@ == table_rows_text(rows@, text::texts(names@), i as int),
        decreases rows.len() - i,
    {
        s.append(table_row(&rows[i], names).as_str());
        i = i + 1;
    }
    s
}

/// The trace as a Markdown table.
pub open spec fn trace_table(t: Trace) -> Seq<char> {
    let names = text::texts(t.series_order@);
    if t.rows@.len() == 0 {
        "_(empty)_\n"@
    } else {
        "| step |"@ + head_cells_text(names, names.len() as int) + "\n| ---: |"@ + rule_cells_text(
            names.len() as int,
        ) + "\n"@ + table_rows_text(t.rows@, names, t.rows@.len() as int)
    }
}

/// Renders the trace as a Markdown table.
pub fn render_trace_table(t: &Trace) -> (res: String)
    ensures
        res@ == trace_table(*t),
{
    if t.rows.len() == 0 {
        return "_(empty)_\n".to_owned();
    }
    assert(text::texts(t.series_order@).len() == t.series_order@.len());
    let mut s = "| step |".to_owned();
    s.append(head_cells(&t.series_order).as_str());
    s.append("\n| ---: |");
    s.append(rule_cells(t.series_order.len()).as_str());
    s.append("\n");
    s.append(table_rows(&t.rows, &t.series_order).as_str());
    s
}

/// One published result.
pub open spec fn reference_row_text(r: Reference) -> Seq<char> {
    "| "@ + r.citation@ + " | "@ + r.formula@ + " | "@ + r.predicted@ + " | "@ + r.simulated@
        + " | "@ + (if r.passed { "✓"@ } else { "✗"@ }) + " |\n"@
}

fn reference_row(r: &Reference) -> (res: String)
    ensures
        res@ == reference_row_text(*r),
{
    let mut s = "| ".to_owned();
    s.append(r.citation.as_str());
    s.append(" | ");
    s.append(r.formula.as_str());
    s.append(" | ");
    s.append(r.predicted.as_str());
    s.append(" | ");
    s.append(r.simulated.as_str());
    s.append(" | ");
    s.append(if r.passed { "✓" } else { "✗" });
    s.append(" |\n");
    s
}

/// The first `n` published results.
pub open spec fn reference_rows_text(refs: Seq<Reference>, n: int) -> Seq<char>
    decreases n,
{
    if n <= 0 {
        Seq::empty()
    } else {
        reference_rows_text(refs, n - 1) + reference_row_text(refs[n - 1])
    }
}

fn reference_rows(refs: &Vec<Reference>) -> (res: String)
    ensures
        res@ == reference_rows_text(refs@, refs@.len() as int),
{
    let mut s = String::new();
    let mut i: usize = 0;
    while i < refs.len()
        invariant
            i <= refs.len(),
            s@ == reference_rows_text(refs@, i as int),
        decreases refs.len() - i,
    {
        s.append(reference_row(&refs[i]).as_str());
        i = i + 1;
    }
    s
}

/// The table of published results.
pub open spec fn reference_table_text(refs: Seq<Reference>) -> Seq<char> {
    "| Reference | Formula | Predicted | Simulated | Pass |\n| --- | --- | ---: | ---: | :---: |\n"@
        + reference_rows_text(refs, refs.len() as int)
}

/// Renders the table of published results.
pub fn render_reference_table(refs: &Vec<Reference>) -> (res: String)
    ensures
        res@ == reference_table_text(refs@),
{
    let mut s = "| Reference | Formula | Predicted | Simulated | Pass |\n| --- | --- | ---: | ---: | :---: |\n".to_owned();
    s.append(reference_rows(refs).as_str());
    s
}

// ── sections ───────────────────────────────────────────────────────

/// A text that ends in an empty line.
pub open spec fn with_blank_line(s: Seq<char>) -> Seq<char> {
    if text::ends_with(s, "\n\n"@) {
        s
    } else if text::ends_with(s, "\n"@) {
        s + "\n"@
    } else {
        s + "\n"@ + "\n"@
    }
}

fn ensure_blankline(md: &mut String)
    ensures
        final(md)@ == with_blank_line(old(md)@),
{
    if !text::has_suffix(md.as_str(), "\n\n") {
        if !text::has_suffix(md.as_str(), "\n") {
            md.append("\n");
        }
        md.append("\n");
    }
}

/// Making a text end in an empty line makes it end in one, and changes nothing
/// the next time.
pub proof fn blank_line_is_there_once(s: Seq<char>)
    ensures
        text::ends_with(with_blank_line(s), "\n\n"@),
        with_blank_line(with_blank_line(s)) == with_blank_line(s),
        text::starts_with(with_blank_line(s), s),
{
    reveal_strlit("\n\n");
    reveal_strlit("\n");
    let r = with_blank_line(s);
    if text::ends_with(s, "\n\n"@) {
    } else if text::ends_with(s, "\n"@) {
        assert(s.subrange(s.len() - 1, s.len() as int) =~= "\n"@);
        assert(s[s.len() - 1] == s.subrange(s.len() - 1, s.len() as int)[0]);
        assert(r.subrange(r.len() - 2, r.len() as int) =~= "\n\n"@);
    } else {
        assert(r.subrange(r.len() - 2, r.len() as int) =~= "\n\n"@);
    }
    assert(r.subrange(0, s.len() as int) =~= s);
}

/// The page so far with a section of prose; unchanged where there is no prose.
pub open spec fn with_prose(md: Seq<char>, heading: Seq<char>, prose: Seq<char>) -> Seq<char> {
    if prose.len() == 0 {
        md
    } else {
        with_blank_line(md + heading + prose)
    }
}

fn add_prose(md: &mut String, heading: &str, prose: &str)
    ensures
        final(md)@ == with_prose(old(md)@, heading@, prose@),
{
    if !prose.is_empty() {
        md.append(heading);
        md.append(prose);
        ensure_blankline(md);
    }
}

/// Title and head of the report.
pub open spec fn report_head_text(meta: ReportMeta, t: Trace) -> Seq<char> {
    "# "@ + meta.title@ + "\n\n**Circuit:** "@ + meta.circuit@ + "  \n**Domain:** "@
        + meta.domain.name() + "  \n**Steps:** "@ + text::dec(last_step(t.rows@)) + " ("@
        + text::dec(t.rows@.len()) + " rows logged)\n\n"@
}

fn report_head(meta: &ReportMeta, t: &Trace) -> (res: String)
    ensures
        res@ == report_head_text(*meta, *t),
{
    let steps: u32 = if t.rows.len() == 0 {
        0
    } else {
        t.rows[t.rows.len() - 1].step
    };
    let mut s = "# ".to_owned();
    s.append(meta.title.as_str());
    s.append("\n\n**Circuit:** ");
    s.append(meta.circuit.as_str());
    s.append("  \n**Domain:** ");
    s.append(meta.domain.label());
    s.append("  \n**Steps:** ");
    s.append(text::u32_to_string(steps).as_str());
    s.append(" (");
    s.append(text::usize_to_string(t.rows.len()).as_str());
    s.append(" rows logged)\n\n");
    s
}

/// The step of the last row; zero without rows.
pub open spec fn last_step(rows: Seq<TraceRow>) -> nat {
    if rows.len() == 0 {
        0
    } else {
        rows.last().step as nat
    }
}

/// The section of the floorplan.
pub open spec fn floorplan_md_text(caption: Seq<char>, run: Seq<char>) -> Seq<char> {
    "## Floorplan\n\n!["@ + caption + "](assets/"@ + run + "/floorplan.svg)\n\n"@ + caption
        + "\n\n"@
}

fn floorplan_md(caption: &str, run: &str) -> (res: String)
    ensures
        res@ == floorplan_md_text(caption@, run@),
{
    let mut s = "## Floorplan\n\n![".to_owned();
    s.append(caption);
    s.append("](assets/");
    s.append(run);
    s.append("/floorplan.svg)\n\n");
    s.append(caption);
    s.append("\n\n");
    s
}

/// The section of the floorplan; nothing without one.
pub open spec fn floorplan_section(f: FloorplanSource, run: Seq<char>) -> Seq<char> {
    match f {
        FloorplanSource::Absent => ""@,
        FloorplanSource::Svg { svg, caption } => floorplan_md_text(caption@, run),
    }
}

fn floorplan_section_str(f: &FloorplanSource, run: &str) -> (res: String)
    ensures
        res@ == floorplan_section(*f, run@),
{
    match f {
        FloorplanSource::Absent => "".to_owned(),
        FloorplanSource::Svg { svg, caption } => floorplan_md(caption.as_str(), run),
    }
}

/// The section of one chart.
pub open spec fn chart_md_text(c: ChartSpec, run: Seq<char>) -> Seq<char> {
    "### "@ + c.title@ + "\n\n!["@ + c.title@ + "](assets/"@ + run + "/"@ + c.file_slug@
        + ".svg)\n\n"@
}

fn chart_md(c: &ChartSpec, run: &str) -> (res: String)
    ensures
        res@ == chart_md_text(*c, run@),
{
    let mut s = "### ".to_owned();
    s.append(c.title.as_str());
    s.append("\n\n![");
    s.append(c.title.as_str());
    s.append("](assets/");
    s.append(run);
    s.append("/");
    s.append(c.file_slug.as_str());
    s.append(".svg)\n\n");
    s
}

/// The sections of the first `n` charts.
pub open spec fn chart_mds_text(cs: Seq<ChartSpec>, run: Seq<char>, n: int) -> Seq<char>
    decreases n,
{
    if n <= 0 {
        Seq::empty()
    } else {
        chart_mds_text(cs, run, n - 1) + chart_md_text(cs[n - 1], run)
    }
}

fn chart_mds(cs: &[ChartSpec], run: &str) -> (res: String)
    ensures
        res@ == chart_mds_text(cs@, run@, cs@.len() as int),
{
    let mut s = String::new();
    let mut i: usize = 0;
    while i < cs.len()
        invariant
            i <= cs.len(),
            s@ == chart_mds_text(cs@, run@, i as int),
        decreases cs.len() - i,
    {
        s.append(chart_md(&cs[i], run).as_str());
        i = i + 1;
    }
    s
}

/// The charts; nothing without any.
pub open spec fn chart_section(cs: Seq<ChartSpec>, run: Seq<char>) -> Seq<char> {
    if cs.len() == 0 {
        ""@
    } else {
        "## Charts\n\n"@ + chart_mds_text(cs, run, cs.len() as int)
    }
}

fn chart_section_str(cs: &[ChartSpec], run: &str) -> (res: String)
    ensures
        res@ == chart_section(cs@, run@),
{
    if cs.len() == 0 {
        return "".to_owned();
    }
    let mut s = "## Charts\n\n".to_owned();
    s.append(chart_mds(cs, run).as_str());
    s
}

/// A picture in a section.
pub open spec fn panel_picture_text(heading: Seq<char>, slug: Seq<char>, run: Seq<char>) -> Seq<char> {
    "!["@ + heading + "](assets/"@ + run + "/"@ + slug + ".svg)\n\n"@
}

fn panel_picture(heading: &str, slug: &str, run: &str) -> (res: String)
    ensures
        res@ == panel_picture_text(heading@, slug@, run@),
{
    let mut s = "![".to_owned();
    s.append(heading);
    s.append("](assets/");
    s.append(run);
    s.append("/");
    s.append(slug);
    s.append(".svg)\n\n");
    s
}

/// What a section of the caller's own shows.
pub open spec fn panel_body(p: Panel, run: Seq<char>) -> Seq<char> {
    match p.body {
        PanelBody::Markdown(md) => md@ + (if text::ends_with(md@, "\n"@) {
            ""@
        } else {
            "\n"@
        }) + "\n"@,
        PanelBody::Svg { file_slug, body } => panel_picture_text(p.heading@, file_slug@, run),
    }
}

fn panel_body_str(p: &Panel, run: &str) -> (res: String)
    ensures
        res@ == panel_body(*p, run@),
{
    match &p.body {
        PanelBody::Markdown(md) => {
            let mut s = md.clone();
            s.append(
                if text::has_suffix(md.as_str(), "\n") {
                    ""
                } else {
                    "\n"
                },
            );
            s.append("\n");
            s
        },
        PanelBody::Svg { file_slug, body } => panel_picture(
            p.heading.as_str(),
            file_slug.as_str(),
            run,
        ),
    }
}

/// A section of the caller's own.
pub open spec fn panel_text(p: Panel, run: Seq<char>) -> Seq<char> {
    "## "@ + p.heading@ + "\n\n"@ + panel_body(p, run)
}

fn panel(p: &Panel, run: &str) -> (res: String)
    ensures
        res@ == panel_text(*p, run@),
{
    let mut s = "## ".to_owned();
    s.append(p.heading.as_str());
    s.append("\n\n");
    s.append(panel_body_str(p, run).as_str());
    s
}

/// The first `n` sections of the caller's own.
pub open spec fn panels_text(ps: Seq<Panel>, run: Seq<char>, n: int) -> Seq<char>
    decreases n,
{
    if n <= 0 {
        Seq::empty()
    } else {
        panels_text(ps, run, n - 1) + panel_text(ps[n - 1], run)
    }
}

fn panels(ps: &Vec<Panel>, run: &str) -> (res: String)
    ensures
        res@ == panels_text(ps@, run@, ps@.len() as int),
{
    let mut s = String::new();
    let mut i: usize = 0;
    while i < ps.len()
        invariant
            i <= ps.len(),
            s@ == panels_text(ps@, run@, i as int),
        decreases ps.len() - i,
    {
        s.append(panel(&ps[i], run).as_str());
        i = i + 1;
    }
    s
}

/// The published results; nothing without any.
pub open spec fn reference_section(refs: Seq<Reference>) -> Seq<char> {
    if refs.len() == 0 {
        ""@
    } else {
        "## Validation against published references\n\n"@ + reference_table_text(refs) + "\n"@
    }
}

fn reference_section_str(refs: &Vec<Reference>) -> (res: String)
    ensures
        res@ == reference_section(refs@),
{
    if refs.len() == 0 {
        return "".to_owned();
    }
    let mut s = "## Validation against published references\n\n".to_owned();
    s.append(render_reference_table(refs).as_str());
    s.append("\n");
    s
}

/// Where the whole trace is.
pub open spec fn csv_note_text(run: Seq<char>) -> Seq<char> {
    "\n_Full trace as CSV: [`"@ + run + ".csv`]("@ + run + ".csv)._\n"@
}

fn csv_note(run: &str) -> (res: String)
    ensures
        res@ == csv_note_text(run@),
{
    let mut s = "\n_Full trace as CSV: [`".to_owned();
    s.append(run);
    s.append(".csv`](");
    s.append(run);
    s.append(".csv)._\n");
    s
}

// ── the report ─────────────────────────────────────────────────────

/// The page.
#[verifier::opaque]
pub open spec fn report_markdown(
    t: Trace,
    meta: ReportMeta,
    charts: Seq<ChartSpec>,
    floorplan: FloorplanSource,
    panels: Seq<Panel>,
    run: Seq<char>,
) -> Seq<char> {
    with_prose(
        with_prose(
            with_prose(report_head_text(meta, t), "## Background\n\n"@, meta.intro_md@),
            "## Objective\n\n"@,
            meta.objective_md@,
        ),
        "## Notes\n\n"@,
        meta.notes_md@,
    ) + floorplan_section(floorplan, run) + "## Optimization outcome\n\n"@ + outcome(t) + "\n"@
        + chart_section(charts, run) + panels_text(panels, run, panels.len() as int)
        + reference_section(meta.references@) + "## Step-by-step trace\n\n"@ + trace_table(t)
        + csv_note_text(run)
}

/// A picture among the assets.
pub open spec fn picture(assets_dir: Seq<char>, slug: Seq<char>, svg: Seq<char>) -> AssetModel {
    AssetModel {
        path: paths::joined(assets_dir, slug + ".svg"@),
        content: svg,
        raster: Some(paths::joined(assets_dir, slug + ".png"@)),
    }
}

fn put_picture(assets: &mut Vec<Asset>, assets_dir: &str, slug: &str, svg: &str)
    ensures
        asset_models(final(assets)@) == asset_models(old(assets)@).push(
            picture(assets_dir@, slug@, svg@),
        ),
{
    let mut name = slug.to_owned();
    name.append(".svg");
    let mut raster = slug.to_owned();
    raster.append(".png");
    put(
        assets,
        Asset {
            path: paths::join(assets_dir, name.as_str()),
            content: svg.to_owned(),
            raster: Some(paths::join(assets_dir, raster.as_str())),
        },
    );
}

/// The pictures of the charts of a trace, each drawn over its marks.
pub open spec fn chart_pictures(
    specs: Seq<ChartSpec>,
    t: Trace,
    marks: Seq<Marks>,
    assets_dir: Seq<char>,
) -> Seq<AssetModel> {
    Seq::new(
        specs.len(),
        |i: int|
            picture(
                assets_dir,
                specs[i].file_slug@,
                charts::chart_svg(specs[i], t, marks[i]),
            ),
    )
}

/// The pictures of the first `n` sections of the caller's own.
pub open spec fn panel_pictures(panels: Seq<Panel>, assets_dir: Seq<char>, n: int) -> Seq<
    AssetModel,
>
    decreases n,
{
    if n <= 0 {
        Seq::empty()
    } else {
        let before = panel_pictures(panels, assets_dir, n - 1);
        match panels[n - 1].body {
            PanelBody::Markdown(_) => before,
            PanelBody::Svg { file_slug, body } => before.push(
                picture(assets_dir, file_slug@, body@),
            ),
        }
    }
}

/// The picture of the floorplan; none without one.
pub open spec fn floorplan_pictures(f: FloorplanSource, assets_dir: Seq<char>) -> Seq<AssetModel> {
    match f {
        FloorplanSource::Absent => Seq::empty(),
        FloorplanSource::Svg { svg, caption } => seq![picture(assets_dir, "floorplan"@, svg@)],
    }
}

impl<'a> Report<'a> {
    /// Where the pictures of a run go.
    pub open spec fn assets_dir(out_dir: Seq<char>, run: Seq<char>) -> Seq<char> {
        paths::joined(paths::joined(out_dir, "assets"@), run)
    }

    /// The files of the report: the pictures, the trace as a table, and the page.
    pub open spec fn files(
        self,
        out_dir: Seq<char>,
        run: Seq<char>,
        marks: Seq<Marks>,
    ) -> Seq<AssetModel> {
        let dir = Report::assets_dir(out_dir, run);
        (floorplan_pictures(self.floorplan, dir) + chart_pictures(
            self.charts@,
            *self.trace,
            marks,
            dir,
        ) + panel_pictures(self.extra_panels@, dir, self.extra_panels@.len() as int)).push(
            AssetModel {
                path: paths::joined(out_dir, run + ".csv"@),
                content: self.trace.csv(),
                raster: None,
            },
        ).push(
            AssetModel {
                path: paths::joined(out_dir, run + ".md"@),
                content: report_markdown(
                    *self.trace,
                    *self.meta,
                    self.charts@,
                    self.floorplan,
                    self.extra_panels@,
                    run,
                ),
                raster: None,
            },
        )
    }

    fn markdown(&self, run: &str) -> (res: String)
        ensures
            res@ == report_markdown(
                *self.trace,
                *self.meta,
                self.charts@,
                self.floorplan,
                self.extra_panels@,
                run@,
            ),
    {
        proof {
            reveal(report_markdown);
        }
        let mut md = report_head(self.meta, self.trace);
        add_prose(&mut md, "## Background\n\n", self.meta.intro_md.as_str());
        add_prose(&mut md, "## Objective\n\n", self.meta.objective_md.as_str());
        add_prose(&mut md, "## Notes\n\n", self.meta.notes_md.as_str());
        md.append(floorplan_section_str(&self.floorplan, run).as_str());
        md.append("## Optimization outcome\n\n");
        md.append(render_outcome(self.trace).as_str());
        md.append("\n");
        md.append(chart_section_str(self.charts, run).as_str());
        md.append(panels(&self.extra_panels, run).as_str());
        md.append(reference_section_str(&self.meta.references).as_str());
        md.append("## Step-by-step trace\n\n");
        md.append(render_trace_table(self.trace).as_str());
        md.append(csv_note(run).as_str());
        md
    }

    /// Whether every chart can be drawn over its marks.
    pub open spec fn has_marks(self, marks: Seq<Marks>) -> bool {
        &&& marks.len() == self.charts@.len()
        &&& forall|i: int|
            0 <= i < marks.len() ==> charts::marks_serve(
                #[trigger] marks[i],
                self.charts@[i],
                *self.trace,
            )
    }

    fn put_pictures(&self, dir: &str, marks: &Vec<Marks>) -> (assets: Vec<Asset>)
        requires
            self.has_marks(marks@),
        ensures
            asset_models(assets@) == floorplan_pictures(self.floorplan, dir@) + chart_pictures(
                self.charts@,
                *self.trace,
                marks@,
                dir@,
            ) + panel_pictures(self.extra_panels@, dir@, self.extra_panels@.len() as int),
    {
        let mut assets: Vec<Asset> = Vec::new();
        match &self.floorplan {
            FloorplanSource::Absent => {},
            FloorplanSource::Svg { svg, caption } => {
                put_picture(&mut assets, dir, "floorplan", svg.as_str());
            },
        }
        let ghost plan = floorplan_pictures(self.floorplan, dir@);
        let ghost all = chart_pictures(self.charts@, *self.trace, marks@, dir@);
        assert(asset_models(assets@) =~= plan + all.take(0));
        let mut i: usize = 0;
        while i < self.charts.len()
            invariant
                i <= self.charts@.len(),
                self.has_marks(marks@),
                all == chart_pictures(self.charts@, *self.trace, marks@, dir@),
                asset_models(assets@) == plan + all.take(i as int),
            decreases self.charts@.len() - i,
        {
            assert(charts::marks_serve(marks@[i as int], self.charts@[i as int], *self.trace));
            let svg = charts::draw_chart(&self.charts[i], self.trace, &marks[i]);
            put_picture(&mut assets, dir, self.charts[i].file_slug.as_str(), svg.as_str());
            i = i + 1;
            assert((plan + all.take(i - 1)).push(all[i - 1]) =~= plan + all.take(i as int));
        }
        assert(all.take(self.charts@.len() as int) =~= all);
        let ghost drawn = asset_models(assets@);
        assert(drawn + panel_pictures(self.extra_panels@, dir@, 0) =~= drawn);
        let mut k: usize = 0;
        while k < self.extra_panels.len()
            invariant
                k <= self.extra_panels@.len(),
                asset_models(assets@) == drawn + panel_pictures(
                    self.extra_panels@,
                    dir@,
                    k as int,
                ),
            decreases self.extra_panels@.len() - k,
        {
            let ghost before = panel_pictures(self.extra_panels@, dir@, k as int);
            match &self.extra_panels[k].body {
                PanelBody::Markdown(_) => {},
                PanelBody::Svg { file_slug, body } => {
                    put_picture(&mut assets, dir, file_slug.as_str(), body.as_str());
                    assert(drawn + before.push(asset_models(assets@).last()) =~= (drawn
                        + before).push(asset_models(assets@).last()));
                },
            }
            k = k + 1;
        }
        assets
    }

    /// Whether marks are those of the charts, by the decimal logarithm and the powers of ten.
    pub open spec fn are_chart_marks<
        L: Fn(Real) -> Real,
        P: Fn(Real) -> Real,
        Q: Fn(i32) -> Real,
    >(self, marks: Seq<Marks>, log10: L, power: P, decade: Q) -> bool {
        &&& marks.len() == self.charts@.len()
        &&& forall|i: int|
            0 <= i < marks.len() ==> charts::are_marks(
                #[trigger] marks[i],
                self.charts@[i],
                *self.trace,
                log10,
                power,
                decade,
            )
    }

    /// Lists the files of the report, in the order of writing. The logarithm and the powers
    /// of ten by which the marks of the charts are found are the caller's.
    pub fn write<L: Fn(Real) -> Real, P: Fn(Real) -> Real, Q: Fn(i32) -> Real>(
        &self,
        out_dir: &str,
        run_name: &str,
        log10: &L,
        power: &P,
        decade: &Q,
    ) -> (res: Vec<Asset>)
        requires
            charts::answers(*log10),
            charts::answers(*power),
            forall|e: i32| #[trigger] call_requires(*decade, (e,)),
        ensures
            exists|marks: Seq<Marks>| #[trigger]
                self.are_chart_marks(marks, *log10, *power, *decade) && asset_models(res@)
                    == self.files(out_dir@, run_name@, marks),
    {
        let mut marks: Vec<Marks> = Vec::new();
        let mut i: usize = 0;
        while i < self.charts.len()
            invariant
                i <= self.charts@.len(),
                marks@.len() == i,
                charts::answers(*log10),
                charts::answers(*power),
                forall|e: i32| #[trigger] call_requires(*decade, (e,)),
                forall|k: int|
                    0 <= k < i ==> charts::are_marks(
                        #[trigger] marks@[k],
                        self.charts@[k],
                        *self.trace,
                        *log10,
                        *power,
                        *decade,
                    ) && charts::marks_serve(marks@[k], self.charts@[k], *self.trace),
            decreases self.charts@.len() - i,
        {
            marks.push(charts::marks_of(&self.charts[i], self.trace, log10, power, decade));
            i = i + 1;
        }
        assert(self.are_chart_marks(marks@, *log10, *power, *decade));
        self.write_over(out_dir, run_name, &marks)
    }

    /// The same, given the marks over which each chart is drawn.
    pub fn write_over(&self, out_dir: &str, run_name: &str, marks: &Vec<Marks>) -> (res: Vec<
        Asset,
    >)
        requires
            self.has_marks(marks@),
        ensures
            asset_models(res@) == self.files(out_dir@, run_name@, marks@),
    {
        let dir = paths::join(paths::join(out_dir, "assets").as_str(), run_name);
        let mut assets = self.put_pictures(dir.as_str(), marks);
        let mut csv_name = run_name.to_owned();
        csv_name.append(".csv");
        put(
            &mut assets,
            Asset {
                path: paths::join(out_dir, csv_name.as_str()),
                content: self.trace.to_csv(),
                raster: None,
            },
        );
        let mut md_name = run_name.to_owned();
        md_name.append(".md");
        put(
            &mut assets,
            Asset {
                path: paths::join(out_dir, md_name.as_str()),
                content: self.markdown(run_name),
                raster: None,
            },
        );
        assets
    }
}

} // verus!
