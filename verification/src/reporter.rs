//! Everything that is written down about a batch of runs.

use crate::corner;
use crate::harness::RunOutcome;
use crate::limits::{McSummaryStyle, Spec, SpecBundle};
use crate::paths;
use crate::sim_csv;
use crate::sim_report;
use crate::sim_report::SummaryRow;
use vstd::prelude::*;
use vstd::string::*;

verus! {

/// Puts a batch of runs on paper.
#[derive(Debug)]
pub struct Reporter<'a> {
    pub testbench_name: &'a str,
    pub specs: &'a SpecBundle,
    pub outcomes: &'a [RunOutcome],
    pub output_dir: String,
    /// How Monte Carlo draws are summarized and held against the specs.
    pub mc_style: McSummaryStyle,
}

/// A file to write, in the order of writing.
#[derive(Debug)]
pub enum Document {
    Text { path: String, content: String },
    /// The plot of the waveform that the `run`-th run left.
    Plot { path: String, run: usize, title: String },
    /// The printed summary.
    Pdf { path: String },
}

#[verifier::ext_equal]
pub enum DocumentModel {
    Text { path: Seq<char>, content: Seq<char> },
    Plot { path: Seq<char>, run: int, title: Seq<char> },
    Pdf { path: Seq<char> },
}

impl Document {
    pub open spec fn model(self) -> DocumentModel {
        match self {
            Document::Text { path, content } => DocumentModel::Text {
                path: path@,
                content: content@,
            },
            Document::Plot { path, run, title } => DocumentModel::Plot {
                path: path@,
                run: run as int,
                title: title@,
            },
            Document::Pdf { path } => DocumentModel::Pdf { path: path@ },
        }
    }
}

pub open spec fn document_models(s: Seq<Document>) -> Seq<DocumentModel> {
    s.map_values(|d: Document| d.model())
}

fn put(docs: &mut Vec<Document>, d: Document)
    ensures
        document_models(final(docs)@) == document_models(old(docs)@).push(d.model()),
{
    let ghost before = docs@;
    docs.push(d);
    assert(document_models(docs@) =~= document_models(before).push(d.model()));
}

/// What a plot's title says of a run, behind the testbench's name.
pub open spec fn run_title(tb: Seq<char>, c: corner::Corner, multi_view: bool) -> Seq<char> {
    if multi_view {
        tb + " – "@ + c.view.tag() + "_"@ + c.label@
    } else {
        tb + " – "@ + c.label@
    }
}

fn run_title_str(tb: &str, c: &corner::Corner, multi_view: bool) -> (res: String)
    ensures
        res@ == run_title(tb@, *c, multi_view),
{
    let mut s = tb.to_owned();
    s.append(" – ");
    if multi_view {
        s.append(c.view.as_str());
        s.append("_");
    }
    s.append(c.label.as_str());
    s
}

/// A path in a directory, for a file of the given stem and ending.
pub open spec fn file_in(dir: Seq<char>, stem: Seq<char>, ending: Seq<char>) -> Seq<char> {
    paths::joined(dir, stem + ending)
}

fn file_path(dir: &str, stem: &str, ending: &str) -> (res: String)
    ensures
        res@ == file_in(dir@, stem@, ending@),
{
    let mut name = stem.to_owned();
    name.append(ending);
    paths::join(dir, name.as_str())
}

/// The files of one run: its page, the plot of its waveform if it left one, its
/// deck and its log.
pub open spec fn run_documents(
    tb: Seq<char>,
    outcomes: Seq<RunOutcome>,
    specs: Seq<Spec>,
    dir: Seq<char>,
    i: int,
) -> Seq<DocumentModel> {
    let o = outcomes[i];
    let both = sim_report::has_both_views(outcomes);
    let stem = sim_report::stem(tb, o.corner, both);
    let page = Seq::empty().push(
        DocumentModel::Text {
            path: file_in(dir, stem, ".html"@),
            content: sim_report::corner_html_text(tb, o, specs, both),
        },
    );
    let pages = if o.has_waveform {
        page.push(
            DocumentModel::Plot {
                path: file_in(dir, stem, ".png"@),
                run: i,
                title: run_title(tb, o.corner, both),
            },
        )
    } else {
        page
    };
    pages.push(
        DocumentModel::Text { path: file_in(dir, stem, ".deck.spice"@), content: o.deck@ },
    ).push(DocumentModel::Text { path: file_in(dir, stem, ".log"@), content: o.stdout@ })
}

/// The files of the first `n` runs.
pub open spec fn all_run_documents(
    tb: Seq<char>,
    outcomes: Seq<RunOutcome>,
    specs: Seq<Spec>,
    dir: Seq<char>,
    n: int,
) -> Seq<DocumentModel>
    decreases n,
{
    if n <= 0 {
        Seq::empty()
    } else {
        all_run_documents(tb, outcomes, specs, dir, n - 1) + run_documents(
            tb,
            outcomes,
            specs,
            dir,
            n - 1,
        )
    }
}

/// The tables as documents.
pub open spec fn table_documents(files: Seq<(Seq<char>, Seq<char>)>) -> Seq<DocumentModel> {
    files.map_values(
        |f: (Seq<char>, Seq<char>)| DocumentModel::Text { path: f.0, content: f.1 },
    )
}

impl<'a> Reporter<'a> {
    pub fn new(
        testbench_name: &'a str,
        specs: &'a SpecBundle,
        outcomes: &'a [RunOutcome],
        output_dir: &str,
    ) -> (res: Self)
        ensures
            res.testbench_name == testbench_name,
            res.specs == specs,
            res.outcomes == outcomes,
            res.output_dir@ == output_dir@,
            res.mc_style == McSummaryStyle::ThreeStd,
    {
        Reporter {
            testbench_name,
            specs,
            outcomes,
            output_dir: output_dir.to_owned(),
            mc_style: McSummaryStyle::ThreeStd,
        }
    }

    /// Summarizes Monte Carlo draws in another way.
    pub fn mc_style(self, style: McSummaryStyle) -> (res: Self)
        ensures
            res == (Reporter { mc_style: style, ..self }),
    {
        Reporter { mc_style: style, ..self }
    }

    /// One row per spec, in the order of the specs, with its outcome in every run.
    pub fn rows(&self) -> (res: Vec<SummaryRow>)
        ensures
            res@.len() == self.specs.specs@.len(),
            forall|i: int|
                0 <= i < res@.len() ==> sim_report::is_row_of(
                    #[trigger] res@[i],
                    self.specs.specs@[i],
                    self.outcomes@,
                ),
    {
        let mut rows: Vec<SummaryRow> = Vec::new();
        let mut i: usize = 0;
        while i < self.specs.specs.len()
            invariant
                i <= self.specs.specs@.len(),
                rows@.len() == i,
                forall|k: int|
                    0 <= k < i ==> sim_report::is_row_of(
                        #[trigger] rows@[k],
                        self.specs.specs@[k],
                        self.outcomes@,
                    ),
            decreases self.specs.specs@.len() - i,
        {
            rows.push(sim_report::row_for(&self.specs.specs[i], self.outcomes));
            i = i + 1;
        }
        rows
    }

    /// The files behind those of the runs: the summaries and the tables.
    pub open spec fn summary_documents(self, rows: Seq<SummaryRow>) -> Seq<DocumentModel> {
        let tb = self.testbench_name@;
        let dir = self.output_dir@;
        Seq::empty().push(
            DocumentModel::Text {
                path: paths::joined(dir, "README.md"@),
                content: sim_report::summary_markdown(
                    tb,
                    rows,
                    self.outcomes@,
                    self.specs.specs@,
                    self.mc_style,
                ),
            },
        ).push(
            DocumentModel::Text {
                path: file_in(dir, tb, "_summary.html"@),
                content: sim_report::summary_html(
                    tb,
                    rows,
                    self.outcomes@,
                    self.specs.specs@,
                    self.mc_style,
                ),
            },
        ).push(DocumentModel::Pdf { path: file_in(dir, tb, "_summary.pdf"@) }) + table_documents(
            sim_csv::csv_files(tb, self.outcomes@, dir, 6),
        )
    }

    fn put_runs(&self) -> (docs: Vec<Document>)
        requires
            forall|i: int|
                0 <= i < self.outcomes@.len() ==> sim_report::key_shows(
                    (#[trigger] self.outcomes@[i]).sha@,
                    12,
                ),
        ensures
            document_models(docs@) == all_run_documents(
                self.testbench_name@,
                self.outcomes@,
                self.specs.specs@,
                self.output_dir@,
                self.outcomes@.len() as int,
            ),
    {
        let tb = self.testbench_name;
        let dir = self.output_dir.as_str();
        let both: bool = sim_report::both_views(self.outcomes);
        let mut docs: Vec<Document> = Vec::new();
        assert(document_models(docs@) =~= Seq::empty());
        let mut i: usize = 0;
        while i < self.outcomes.len()
            invariant
                i <= self.outcomes@.len(),
                tb@ == self.testbench_name@,
                dir@ == self.output_dir@,
                both == sim_report::has_both_views(self.outcomes@),
                forall|i: int|
                    0 <= i < self.outcomes@.len() ==> sim_report::key_shows(
                        (#[trigger] self.outcomes@[i]).sha@,
                        12,
                    ),
                document_models(docs@) == all_run_documents(
                    self.testbench_name@,
                    self.outcomes@,
                    self.specs.specs@,
                    self.output_dir@,
                    i as int,
                ),
            decreases self.outcomes@.len() - i,
        {
            let o: &RunOutcome = &self.outcomes[i];
            let ghost before = document_models(docs@);
            let stem = sim_report::corner_stem(tb, &o.corner, both);
            let path = file_path(dir, stem.as_str(), ".html");
            let content = sim_report::render_corner_html(tb, o, self.specs, both);
            put(&mut docs, Document::Text { path, content });
            if o.has_waveform {
                let path = file_path(dir, stem.as_str(), ".png");
                let title = run_title_str(tb, &o.corner, both);
                put(&mut docs, Document::Plot { path, run: i, title });
            }
            let path = file_path(dir, stem.as_str(), ".deck.spice");
            put(&mut docs, Document::Text { path, content: o.deck.clone() });
            let path = file_path(dir, stem.as_str(), ".log");
            put(&mut docs, Document::Text { path, content: o.stdout.clone() });
            assert(document_models(docs@) =~= before + run_documents(
                self.testbench_name@,
                self.outcomes@,
                self.specs.specs@,
                self.output_dir@,
                i as int,
            ));
            i = i + 1;
        }
        docs
    }

    /// Everything to write, in the order of writing: the files of each run, the
    /// summaries in Markdown, HTML and print, and the tables.
    pub fn write_all(&self) -> (res: Vec<Document>)
        requires
            forall|i: int|
                0 <= i < self.outcomes@.len() ==> sim_report::key_shows(
                    (#[trigger] self.outcomes@[i]).sha@,
                    8,
                ) && sim_report::key_shows(self.outcomes@[i].sha@, 12),
        ensures
            exists|rows: Seq<SummaryRow>|
                rows.len() == self.specs.specs@.len() && (forall|i: int|
                    0 <= i < rows.len() ==> sim_report::is_row_of(
                        #[trigger] rows[i],
                        self.specs.specs@[i],
                        self.outcomes@,
                    )) && document_models(res@) == all_run_documents(
                    self.testbench_name@,
                    self.outcomes@,
                    self.specs.specs@,
                    self.output_dir@,
                    self.outcomes@.len() as int,
                ) + #[trigger] self.summary_documents(rows),
    {
        let tb = self.testbench_name;
        let dir = self.output_dir.as_str();
        let mut docs = self.put_runs();
        let ghost runs = document_models(docs@);
        let rows = self.rows();
        let path = paths::join(dir, "README.md");
        let content = sim_report::render_summary_markdown(
            tb,
            &rows,
            self.outcomes,
            self.specs,
            self.mc_style,
        );
        put(&mut docs, Document::Text { path, content });
        let path = file_path(dir, tb, "_summary.html");
        let content = sim_report::render_summary_html(
            tb,
            &rows,
            self.outcomes,
            self.specs,
            self.mc_style,
        );
        put(&mut docs, Document::Text { path, content });
        put(&mut docs, Document::Pdf { path: file_path(dir, tb, "_summary.pdf") });
        let files = sim_csv::render_csv_per_bucket(tb, self.outcomes, dir);
        let ghost upper = document_models(docs@);
        let ghost tables = table_documents(sim_csv::file_models(files@));
        let mut k: usize = 0;
        assert(upper + tables.take(0) =~= upper);
        while k < files.len()
            invariant
                k <= files.len(),
                tables == table_documents(sim_csv::file_models(files@)),
                document_models(docs@) == upper + tables.take(k as int),
            decreases files.len() - k,
        {
            let path = files[k].path.clone();
            let content = files[k].content.clone();
            assert(tables[k as int] == DocumentModel::Text { path: path@, content: content@ });
            put(&mut docs, Document::Text { path, content });
            assert(upper + tables.take(k + 1) =~= (upper + tables.take(k as int)).push(
                tables[k as int],
            ));
            k = k + 1;
        }
        proof {
            assert(tables.take(k as int) =~= tables);
            assert(document_models(docs@) =~= runs + self.summary_documents(rows@));
        }
        docs
    }
}

/// Where a crate keeps its documents.
pub fn docs_dir_for_crate(manifest_dir: &str) -> (res: String)
    ensures
        res@ == paths::joined(manifest_dir@, "docs"@),
{
    paths::join(manifest_dir, "docs")
}

/// The links of the HTML summary lead to files that are written: under the stem that it
/// gives a run, there is the page of the run and, if it left a waveform, its picture.
pub proof fn summary_links_lead_to_files(
    tb: Seq<char>,
    outcomes: Seq<RunOutcome>,
    specs: Seq<Spec>,
    dir: Seq<char>,
    i: int,
)
    requires
        0 <= i < outcomes.len(),
    ensures
        ({
            let o = outcomes[i];
            let both = sim_report::has_both_views(outcomes);
            let stem = sim_report::stem(tb, o.corner, both);
            let docs = all_run_documents(tb, outcomes, specs, dir, outcomes.len() as int);
            &&& docs.contains(
                DocumentModel::Text {
                    path: file_in(dir, stem, ".html"@),
                    content: sim_report::corner_html_text(tb, o, specs, both),
                },
            )
            &&& o.has_waveform ==> docs.contains(
                DocumentModel::Plot {
                    path: file_in(dir, stem, ".png"@),
                    run: i,
                    title: run_title(tb, o.corner, both),
                },
            )
        }),
{
    lemma_has_document(tb, outcomes, specs, dir, i, 0, outcomes.len() as int);
    if outcomes[i].has_waveform {
        lemma_has_document(tb, outcomes, specs, dir, i, 1, outcomes.len() as int);
    }
}

proof fn lemma_has_document(
    tb: Seq<char>,
    outcomes: Seq<RunOutcome>,
    specs: Seq<Spec>,
    dir: Seq<char>,
    i: int,
    k: int,
    n: int,
)
    requires
        0 <= i < n,
        0 <= k < run_documents(tb, outcomes, specs, dir, i).len(),
    ensures
        all_run_documents(tb, outcomes, specs, dir, n).contains(
            run_documents(tb, outcomes, specs, dir, i)[k],
        ),
    decreases n,
{
    let before = all_run_documents(tb, outcomes, specs, dir, n - 1);
    let all = all_run_documents(tb, outcomes, specs, dir, n);
    let d = run_documents(tb, outcomes, specs, dir, i)[k];
    if i == n - 1 {
        assert(all[before.len() + k] == d);
    } else {
        lemma_has_document(tb, outcomes, specs, dir, i, k, n - 1);
        let j = choose|j: int| 0 <= j < before.len() && before[j] == d;
        assert(all[j] == d);
    }
}

} // verus!
