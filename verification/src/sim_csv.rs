//! Comma-separated tables of measured values, one per view and kind of corner.

use crate::corner;
use crate::corner::CornerKind;
use crate::harness::RunOutcome;
use crate::measure::MeasurementValue;
use crate::numfmt;
use crate::ordmap;
use crate::paths;
use crate::text;
use crate::verify::VerifierResult;
use vstd::prelude::*;
use vstd::string::*;

verus! {

/// The runs behind references.
pub open spec fn plain(s: Seq<&RunOutcome>) -> Seq<RunOutcome> {
    s.map_values(|o: &RunOutcome| *o)
}

// ── columns ────────────────────────────────────────────────────────

/// An ascending list of names with `name` in its place.
pub open spec fn with_name(s: Seq<Seq<char>>, name: Seq<char>) -> Seq<Seq<char>>
    decreases s.len(),
{
    if s.len() == 0 {
        seq![name]
    } else if s[0] == name {
        s
    } else if ordmap::name_lt(name, s[0]) {
        seq![name] + s
    } else {
        seq![s[0]] + with_name(s.skip(1), name)
    }
}

/// The names of the first `n` entries of a listing, put in their places.
pub open spec fn with_entries(
    s: Seq<Seq<char>>,
    listing: Seq<(String, MeasurementValue)>,
    n: int,
) -> Seq<Seq<char>>
    decreases n,
{
    if n <= 0 {
        s
    } else {
        with_name(with_entries(s, listing, n - 1), listing[n - 1].0@)
    }
}

/// All names measured in the first `n` runs, ascending.
pub open spec fn columns(outcomes: Seq<RunOutcome>, n: int) -> Seq<Seq<char>>
    decreases n,
{
    if n <= 0 {
        Seq::empty()
    } else {
        let listing = outcomes[n - 1].measures.values.listing();
        with_entries(columns(outcomes, n - 1), listing, listing.len() as int)
    }
}

/// Whether names are listed in ascending order, each once.
pub open spec fn names_ascend(s: Seq<Seq<char>>) -> bool {
    forall|i: int, j: int|
        #![trigger s[i], s[j]]
        0 <= i < j < s.len() ==> ordmap::name_lt(s[i], s[j])
}

proof fn lemma_with_name(s: Seq<Seq<char>>, name: Seq<char>)
    requires
        names_ascend(s),
    ensures
        names_ascend(with_name(s, name)),
        with_name(s, name).contains(name),
        forall|x: Seq<char>|
            #![trigger with_name(s, name).contains(x)]
            with_name(s, name).contains(x) <==> s.contains(x) || x == name,
    decreases s.len(),
{
    let r = with_name(s, name);
    if s.len() == 0 {
        assert(r[0] == name);
    } else if s[0] == name {
    } else if ordmap::name_lt(name, s[0]) {
        assert(r[0] == name);
        assert forall|x: Seq<char>| #![trigger r.contains(x)] r.contains(x) <==> s.contains(x) || x
            == name by {
            if s.contains(x) {
                let i = choose|i: int| 0 <= i < s.len() && s[i] == x;
                assert(r[i + 1] == x);
            }
        }
        assert forall|i: int, j: int| 0 <= i < j < r.len() implies ordmap::name_lt(
            #[trigger] r[i],
            #[trigger] r[j],
        ) by {
            if i == 0 && j > 1 {
                assert(r[j] == s[j - 1]);
                ordmap::name_order_is_transitive(name, s[0], s[j - 1]);
            } else if i > 0 {
                assert(r[i] == s[i - 1] && r[j] == s[j - 1]);
            }
        }
    } else {
        let t = s.skip(1);
        assert forall|i: int, j: int| 0 <= i < j < t.len() implies ordmap::name_lt(
            #[trigger] t[i],
            #[trigger] t[j],
        ) by {
            assert(t[i] == s[i + 1] && t[j] == s[j + 1]);
        }
        lemma_with_name(t, name);
        let u = with_name(t, name);
        ordmap::names_are_totally_ordered(name, s[0]);
        assert forall|x: Seq<char>| #![trigger r.contains(x)] r.contains(x) <==> s.contains(x) || x
            == name by {
            if r.contains(x) {
                let i = choose|i: int| 0 <= i < r.len() && r[i] == x;
                if i > 0 {
                    assert(u[i - 1] == x);
                    assert(u.contains(x));
                    if t.contains(x) {
                        let k = choose|k: int| 0 <= k < t.len() && t[k] == x;
                        assert(s[k + 1] == x);
                    }
                } else {
                    assert(s[0] == x);
                }
            }
            if s.contains(x) {
                let i = choose|i: int| 0 <= i < s.len() && s[i] == x;
                if i == 0 {
                    assert(r[0] == x);
                } else {
                    assert(t[i - 1] == x);
                    assert(u.contains(x));
                    let k = choose|k: int| 0 <= k < u.len() && u[k] == x;
                    assert(r[k + 1] == x);
                }
            }
            if x == name {
                assert(u.contains(x));
                let k = choose|k: int| 0 <= k < u.len() && u[k] == x;
                assert(r[k + 1] == x);
            }
        }
        assert(r.contains(name));
        assert forall|i: int, j: int| 0 <= i < j < r.len() implies ordmap::name_lt(
            #[trigger] r[i],
            #[trigger] r[j],
        ) by {
            assert(r[j] == u[j - 1]);
            assert(u.contains(u[j - 1]));
            if i > 0 {
                assert(r[i] == u[i - 1]);
            } else if u[j - 1] != name {
                assert(t.contains(u[j - 1]));
                let k = choose|k: int| 0 <= k < t.len() && t[k] == u[j - 1];
                assert(s[k + 1] == u[j - 1]);
            }
        }
    }
}

proof fn lemma_with_entries(s: Seq<Seq<char>>, listing: Seq<(String, MeasurementValue)>, n: int)
    requires
        names_ascend(s),
        0 <= n <= listing.len(),
    ensures
        names_ascend(with_entries(s, listing, n)),
        forall|x: Seq<char>|
            #![trigger with_entries(s, listing, n).contains(x)]
            with_entries(s, listing, n).contains(x) <==> s.contains(x) || exists|k: int|
                0 <= k < n && (#[trigger] listing[k]).0@ == x,
    decreases n,
{
    if n > 0 {
        lemma_with_entries(s, listing, n - 1);
        let before = with_entries(s, listing, n - 1);
        lemma_with_name(before, listing[n - 1].0@);
        let r = with_entries(s, listing, n);
        assert forall|x: Seq<char>| #![trigger r.contains(x)] r.contains(x) <==> s.contains(x)
            || exists|k: int| 0 <= k < n && (#[trigger] listing[k]).0@ == x by {
            assert(r.contains(x) <==> before.contains(x) || x == listing[n - 1].0@);
            if exists|k: int| 0 <= k < n - 1 && (#[trigger] listing[k]).0@ == x {
                let k = choose|k: int| 0 <= k < n - 1 && (#[trigger] listing[k]).0@ == x;
                assert(0 <= k < n && listing[k].0@ == x);
            }
        }
    }
}

/// Whether the run measured something under the name `x`.
pub open spec fn measures_name(o: RunOutcome, x: Seq<char>) -> bool {
    exists|k: int|
        0 <= k < o.measures.values.listing().len() && (#[trigger] o.measures.values.listing()[k]).0@
            == x
}

/// The columns are in ascending order, each name once, and hold a name exactly
/// when some run measured it.
pub proof fn columns_are_the_measured_names(outcomes: Seq<RunOutcome>, n: int)
    requires
        0 <= n <= outcomes.len(),
    ensures
        names_ascend(columns(outcomes, n)),
        forall|x: Seq<char>|
            #![trigger columns(outcomes, n).contains(x)]
            columns(outcomes, n).contains(x) <==> exists|i: int|
                0 <= i < n && measures_name(#[trigger] outcomes[i], x),
    decreases n,
{
    let r = columns(outcomes, n);
    if n > 0 {
        columns_are_the_measured_names(outcomes, n - 1);
        let before = columns(outcomes, n - 1);
        let listing = outcomes[n - 1].measures.values.listing();
        lemma_with_entries(before, listing, listing.len() as int);
        assert forall|x: Seq<char>| #![trigger r.contains(x)] r.contains(x) <==> exists|i: int|
            0 <= i < n && measures_name(#[trigger] outcomes[i], x) by {
            assert(r.contains(x) <==> before.contains(x) || measures_name(outcomes[n - 1], x));
            if before.contains(x) {
                let i = choose|i: int| 0 <= i < n - 1 && measures_name(#[trigger] outcomes[i], x);
                assert(0 <= i < n && measures_name(outcomes[i], x));
            }
        }
    }
}

fn place_name(names: &mut Vec<String>, name: &str)
    ensures
        text::texts(final(names)@) == with_name(text::texts(old(names)@), name@),
{
    let ghost all = text::texts(names@);
    let mut i: usize = 0;
    assert(all.skip(0) =~= all);
    assert(all.take(0) + with_name(all.skip(0), name@) =~= with_name(all, name@));
    while i < names.len()
        invariant
            i <= names.len(),
            names@ == old(names)@,
            all == text::texts(names@),
            with_name(all, name@) == all.take(i as int) + with_name(all.skip(i as int), name@),
        decreases names.len() - i,
    {
        assert(all.skip(i as int)[0] == all[i as int]);
        assert(all[i as int] == names@[i as int]@);
        if text::same(names[i].as_str(), name) {
            assert(with_name(all, name@) =~= all);
            return;
        }
        if ordmap::comes_before(name, names[i].as_str()) {
            names.insert(i, name.to_owned());
            assert(text::texts(names@) =~= with_name(all, name@));
            return;
        }
        assert(all.skip(i as int).skip(1) =~= all.skip(i + 1));
        assert(all.take(i as int) + (seq![all[i as int]] + with_name(all.skip(i + 1), name@))
            =~= all.take(i + 1) + with_name(all.skip(i + 1), name@));
        i = i + 1;
    }
    names.push(name.to_owned());
    assert(text::texts(names@) =~= with_name(all, name@));
}

fn column_names(outcomes: &[&RunOutcome]) -> (res: Vec<String>)
    ensures
        text::texts(res@) == columns(plain(outcomes@), outcomes@.len() as int),
{
    let mut names: Vec<String> = Vec::new();
    let mut i: usize = 0;
    assert(text::texts(names@) =~= Seq::empty());
    while i < outcomes.len()
        invariant
            i <= outcomes.len(),
            text::texts(names@) == columns(plain(outcomes@), i as int),
        decreases outcomes.len() - i,
    {
        let o: &RunOutcome = outcomes[i];
        let ghost before = text::texts(names@);
        let mut k: usize = 0;
        while k < o.measures.values.len()
            invariant
                k <= o.measures.values.listing().len(),
                text::texts(names@) == with_entries(before, o.measures.values.listing(), k as int),
            decreases o.measures.values.listing().len() - k,
        {
            place_name(&mut names, o.measures.values.name_at(k).as_str());
            k = k + 1;
        }
        i = i + 1;
    }
    names
}

// ── one table ──────────────────────────────────────────────────────

/// The column heads, each behind a comma.
pub open spec fn header_cells_text(cols: Seq<Seq<char>>, n: int) -> Seq<char>
    decreases n,
{
    if n <= 0 {
        Seq::empty()
    } else {
        header_cells_text(cols, n - 1) + ","@ + cols[n - 1]
    }
}

fn header_cells(cols: &Vec<String>) -> (res: String)
    ensures
        res@ == header_cells_text(text::texts(cols@), cols@.len() as int),
{
    let mut s = String::new();
    let mut i: usize = 0;
    while i < cols.len()
        invariant
            i <= cols.len(),
            s@ == header_cells_text(text::texts(cols@), i as int),
        decreases cols.len() - i,
    {
        s.append(",");
        s.append(cols[i].as_str());
        assert(text::texts(cols@)[i as int] == cols@[i as int]@);
        i = i + 1;
    }
    s
}

/// What a run measured under a name; empty where that is no number.
pub open spec fn number_cell(o: RunOutcome, name: Seq<char>) -> Seq<char> {
    if o.measures.values@.contains_key(name) {
        match o.measures.values@[name] {
            MeasurementValue::Number(v) => numfmt::shortest(v),
            MeasurementValue::Failed => ""@,
        }
    } else {
        ""@
    }
}

fn number_cell_str(o: &RunOutcome, name: &str) -> (res: String)
    ensures
        res@ == number_cell(*o, name@),
{
    match o.measures.get(name) {
        Some(MeasurementValue::Number(v)) => numfmt::to_shortest(v),
        _ => "".to_owned(),
    }
}

/// What a run measured in the first `n` columns, each behind a comma.
pub open spec fn number_cells_text(o: RunOutcome, cols: Seq<Seq<char>>, n: int) -> Seq<char>
    decreases n,
{
    if n <= 0 {
        Seq::empty()
    } else {
        number_cells_text(o, cols, n - 1) + ","@ + number_cell(o, cols[n - 1])
    }
}

fn number_cells(o: &RunOutcome, cols: &Vec<String>) -> (res: String)
    ensures
        res@ == number_cells_text(*o, text::texts(cols@), cols@.len() as int),
{
    let mut s = String::new();
    let mut i: usize = 0;
    while i < cols.len()
        invariant
            i <= cols.len(),
            s@ == number_cells_text(*o, text::texts(cols@), i as int),
        decreases cols.len() - i,
    {
        s.append(",");
        s.append(number_cell_str(o, cols[i].as_str()).as_str());
        assert(text::texts(cols@)[i as int] == cols@[i as int]@);
        i = i + 1;
    }
    s
}

/// Violations a verifier counted; a dash where it did not run.
pub open spec fn verifier_cell(r: Option<VerifierResult>) -> Seq<char> {
    match r {
        Some(v) => text::dec(v.count as nat),
        None => "-"@,
    }
}

fn verifier_cell_str(r: &Option<VerifierResult>) -> (res: String)
    ensures
        res@ == verifier_cell(*r),
{
    match r {
        Some(v) => text::usize_to_string(v.count),
        None => "-".to_owned(),
    }
}

/// The row of the `i`-th run.
pub open spec fn csv_row_text(o: RunOutcome, cols: Seq<Seq<char>>, i: nat) -> Seq<char> {
    text::dec(i) + number_cells_text(o, cols, cols.len() as int) + ","@
        + verifier_cell(o.verify.drc) + ","@ + verifier_cell(o.verify.lvs) + ","@
        + verifier_cell(o.verify.em) + ","@ + o.corner.label@ + ","@ + o.corner.view.tag() + ","@
        + numfmt::shortest(o.ran_at) + ","@ + (if o.passed() { "True"@ } else { "False"@ })
        + "\n"@
}

fn csv_row(o: &RunOutcome, cols: &Vec<String>, i: usize) -> (res: String)
    ensures
        res@ == csv_row_text(*o, text::texts(cols@), i as nat),
{
    assert(text::texts(cols@).len() == cols@.len());
    let mut s = text::usize_to_string(i);
    s.append(number_cells(o, cols).as_str());
    s.append(",");
    s.append(verifier_cell_str(&o.verify.drc).as_str());
    s.append(",");
    s.append(verifier_cell_str(&o.verify.lvs).as_str());
    s.append(",");
    s.append(verifier_cell_str(&o.verify.em).as_str());
    s.append(",");
    s.append(o.corner.label.as_str());
    s.append(",");
    s.append(o.corner.view.as_str());
    s.append(",");
    s.append(numfmt::to_shortest(o.ran_at).as_str());
    s.append(",");
    s.append(if o.ok() { "True" } else { "False" });
    s.append("\n");
    s
}

/// The rows of the first `n` runs.
pub open spec fn csv_rows_text(outcomes: Seq<RunOutcome>, cols: Seq<Seq<char>>, n: int) -> Seq<char>
    decreases n,
{
    if n <= 0 {
        Seq::empty()
    } else {
        csv_rows_text(outcomes, cols, n - 1) + csv_row_text(outcomes[n - 1], cols, (n - 1) as nat)
    }
}

fn csv_rows(outcomes: &[&RunOutcome], cols: &Vec<String>) -> (res: String)
    ensures
        res@ == csv_rows_text(plain(outcomes@), text::texts(cols@), outcomes@.len() as int),
{
    let mut s = String::new();
    let mut i: usize = 0;
    while i < outcomes.len()
        invariant
            i <= outcomes.len(),
            s@ == csv_rows_text(plain(outcomes@), text::texts(cols@), i as int),
        decreases outcomes.len() - i,
    {
        s.append(csv_row(outcomes[i], cols, i).as_str());
        i = i + 1;
    }
    s
}

/// The table of some runs: an index, every measured name in ascending order,
/// the verifiers' counts, and label, view, time and outcome.
pub open spec fn csv(outcomes: Seq<RunOutcome>) -> Seq<char> {
    let cols = columns(outcomes, outcomes.len() as int);
    header_cells_text(cols, cols.len() as int) + ",drc,lvs,em,name,type,time,OK\n"@ + csv_rows_text(
        outcomes,
        cols,
        outcomes.len() as int,
    )
}

/// Renders the table of some runs.
pub fn render_one_csv(outcomes: &[&RunOutcome]) -> (res: String)
    ensures
        res@ == csv(plain(outcomes@)),
{
    let cols = column_names(outcomes);
    assert(plain(outcomes@).len() == outcomes@.len());
    assert(text::texts(cols@).len() == cols@.len());
    let mut s = header_cells(&cols);
    s.append(",drc,lvs,em,name,type,time,OK\n");
    s.append(csv_rows(outcomes, &cols).as_str());
    s
}

// ── one table per view and kind ────────────────────────────────────

/// View and kind of the `k`-th table, in ascending order of their names.
pub open spec fn bucket(k: int) -> (corner::View, CornerKind) {
    let view = if k < 3 {
        corner::View::Layout
    } else {
        corner::View::Schematic
    };
    let kind = if k % 3 == 0 {
        CornerKind::Etc
    } else if k % 3 == 1 {
        CornerKind::Mc
    } else {
        CornerKind::Typical
    };
    (view, kind)
}

fn bucket_at(k: usize) -> (res: (corner::View, CornerKind))
    ensures
        res == bucket(k as int),
{
    let view = if k < 3 {
        corner::View::Layout
    } else {
        corner::View::Schematic
    };
    let kind = if k % 3 == 0 {
        CornerKind::Etc
    } else if k % 3 == 1 {
        CornerKind::Mc
    } else {
        CornerKind::Typical
    };
    (view, kind)
}

/// Whether a run belongs in the table of a view and a kind.
pub open spec fn belongs(o: RunOutcome, b: (corner::View, CornerKind)) -> bool {
    o.corner.view == b.0 && o.corner.kind == b.1
}

/// Those of the first `n` runs that belong in the table of a view and a kind.
pub open spec fn members(
    outcomes: Seq<RunOutcome>,
    b: (corner::View, CornerKind),
    n: int,
) -> Seq<RunOutcome>
    decreases n,
{
    if n <= 0 {
        Seq::empty()
    } else if belongs(outcomes[n - 1], b) {
        members(outcomes, b, n - 1).push(outcomes[n - 1])
    } else {
        members(outcomes, b, n - 1)
    }
}

fn members_of<'a>(outcomes: &'a [RunOutcome], b: (corner::View, CornerKind)) -> (res: Vec<
    &'a RunOutcome,
>)
    ensures
        plain(res@) == members(outcomes@, b, outcomes@.len() as int),
{
    let mut out: Vec<&RunOutcome> = Vec::new();
    let mut i: usize = 0;
    assert(plain(out@) =~= Seq::empty());
    while i < outcomes.len()
        invariant
            i <= outcomes.len(),
            plain(out@) == members(outcomes@, b, i as int),
        decreases outcomes.len() - i,
    {
        if outcomes[i].corner.view == b.0 && outcomes[i].corner.kind == b.1 {
            let ghost before = out@;
            out.push(&outcomes[i]);
            assert(plain(out@) =~= plain(before).push(outcomes@[i as int]));
        }
        i = i + 1;
    }
    out
}

/// File name of the table of a view and a kind.
pub open spec fn csv_name_text(tb: Seq<char>, b: (corner::View, CornerKind)) -> Seq<char> {
    tb + "_"@ + b.0.tag() + "_"@ + b.1.tag() + ".csv"@
}

fn csv_name(tb: &str, b: (corner::View, CornerKind)) -> (res: String)
    ensures
        res@ == csv_name_text(tb@, b),
{
    let mut s = (tb).to_owned();
    s.append("_");
    s.append(b.0.as_str());
    s.append("_");
    s.append(b.1.as_str());
    s.append(".csv");
    s
}

/// A file to write.
#[derive(Debug)]
pub struct CsvFile {
    pub path: String,
    pub content: String,
}

/// Path and content of the tables with at least one run, among the first `k`.
pub open spec fn csv_files(
    tb: Seq<char>,
    outcomes: Seq<RunOutcome>,
    dir: Seq<char>,
    k: int,
) -> Seq<(Seq<char>, Seq<char>)>
    decreases k,
{
    if k <= 0 {
        Seq::empty()
    } else {
        let before = csv_files(tb, outcomes, dir, k - 1);
        let m = members(outcomes, bucket(k - 1), outcomes.len() as int);
        if m.len() == 0 {
            before
        } else {
            before.push((paths::joined(dir, csv_name_text(tb, bucket(k - 1))), csv(m)))
        }
    }
}

/// Path and content of each file.
pub open spec fn file_models(s: Seq<CsvFile>) -> Seq<(Seq<char>, Seq<char>)> {
    s.map_values(|f: CsvFile| (f.path@, f.content@))
}

/// Renders one table per view and kind that some run has.
pub fn render_csv_per_bucket(tb: &str, outcomes: &[RunOutcome], output_dir: &str) -> (res: Vec<
    CsvFile,
>)
    ensures
        file_models(res@) == csv_files(tb@, outcomes@, output_dir@, 6),
{
    let mut out: Vec<CsvFile> = Vec::new();
    let mut k: usize = 0;
    assert(file_models(out@) =~= Seq::empty());
    while k < 6
        invariant
            k <= 6,
            file_models(out@) == csv_files(tb@, outcomes@, output_dir@, k as int),
        decreases 6 - k,
    {
        let b = bucket_at(k);
        let m = members_of(outcomes, b);
        let ghost before = out@;
        if m.len() > 0 {
            let path = paths::join(output_dir, csv_name(tb, b).as_str());
            let content = render_one_csv(m.as_slice());
            out.push(CsvFile { path, content });
            assert(file_models(out@) =~= file_models(before).push(
                (out@.last().path@, out@.last().content@),
            ));
        }
        k = k + 1;
    }
    out
}

/// Every run belongs in exactly one of the tables.
pub proof fn every_run_has_one_table(o: RunOutcome)
    ensures
        exists|k: int| 0 <= k < 6 && belongs(o, #[trigger] bucket(k)),
        forall|j: int, k: int|
            #![trigger bucket(j), bucket(k)]
            0 <= j < 6 && 0 <= k < 6 && belongs(o, bucket(j)) && belongs(o, bucket(k)) ==> j == k,
{
    let a: int = match o.corner.view {
        corner::View::Layout => 0,
        corner::View::Schematic => 3,
    };
    let b: int = match o.corner.kind {
        CornerKind::Etc => 0,
        CornerKind::Mc => 1,
        CornerKind::Typical => 2,
    };
    assert(belongs(o, bucket(a + b)));
}

/// The table of a view and a kind has the runs of that view and kind, in their order.
pub proof fn tables_have_the_runs_of_their_corner(
    outcomes: Seq<RunOutcome>,
    view: corner::View,
    kind: CornerKind,
    n: int,
)
    requires
        0 <= n <= outcomes.len(),
    ensures
        members(outcomes, (view, kind), n) == outcomes.take(n).filter(
            |o: RunOutcome| o.corner.view == view && o.corner.kind == kind,
        ),
    decreases n,
{
    reveal(Seq::filter);
    if n > 0 {
        tables_have_the_runs_of_their_corner(outcomes, view, kind, n - 1);
        assert(outcomes.take(n).drop_last() =~= outcomes.take(n - 1));
        assert(outcomes.take(n).last() == outcomes[n - 1]);
    }
}

} // verus!
