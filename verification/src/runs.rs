//! Running every program that writes a report: which ones to run, what to show of them,
//! and the summary of all.

use crate::double::Real;
use crate::liberty;
use crate::manifest;
use crate::manifest::{BinModel, BinTarget};
use crate::numfmt;
use crate::ordmap;
use crate::paths;
use crate::text;
use vstd::prelude::*;
use vstd::string::*;

verus! {

// ── arguments ──────────────────────────────────────────────────────

/// What was asked for on the command line.
#[derive(Debug)]
pub struct Args {
    /// Part of the names of programs to run. An empty one keeps all.
    pub filter: Option<String>,
    pub excludes: Vec<String>,
    pub release: bool,
    pub dry_run: bool,
    pub list_only: bool,
    pub all: bool,
    pub workspace_root: Option<String>,
}

#[verifier::ext_equal]
pub struct ArgsModel {
    pub filter: Option<Seq<char>>,
    pub excludes: Seq<Seq<char>>,
    pub release: bool,
    pub dry_run: bool,
    pub list_only: bool,
    pub all: bool,
    pub workspace_root: Option<Seq<char>>,
}

impl Args {
    pub open spec fn model(self) -> ArgsModel {
        ArgsModel {
            filter: paths::opt_text(self.filter),
            excludes: text::texts(self.excludes@),
            release: self.release,
            dry_run: self.dry_run,
            list_only: self.list_only,
            all: self.all,
            workspace_root: paths::opt_text(self.workspace_root),
        }
    }
}

/// What comes of reading the command line.
#[derive(Debug)]
pub enum Parsed {
    Run(Args),
    Help,
    Unknown(String),
}

#[verifier::ext_equal]
pub enum ParsedModel {
    Run(ArgsModel),
    Help,
    Unknown(Seq<char>),
}

impl Parsed {
    pub open spec fn model(self) -> ParsedModel {
        match self {
            Parsed::Run(a) => ParsedModel::Run(a.model()),
            Parsed::Help => ParsedModel::Help,
            Parsed::Unknown(s) => ParsedModel::Unknown(s@),
        }
    }
}

/// Nothing asked for.
pub open spec fn no_args() -> ArgsModel {
    ArgsModel {
        filter: None,
        excludes: Seq::empty(),
        release: false,
        dry_run: false,
        list_only: false,
        all: false,
        workspace_root: None,
    }
}

/// What the arguments from the `i`-th on add to what was asked for before. The first one
/// that asks for help, or that is not known, ends the reading.
pub open spec fn parsed_from(argv: Seq<Seq<char>>, i: int, a: ArgsModel) -> ParsedModel
    decreases argv.len() + 1 - i,
{
    if i < 0 || i >= argv.len() {
        ParsedModel::Run(a)
    } else if argv[i] == "--filter"@ {
        parsed_from(
            argv,
            i + 2,
            ArgsModel {
                filter: Some(
                    if i + 1 < argv.len() {
                        argv[i + 1]
                    } else {
                        Seq::empty()
                    },
                ),
                ..a
            },
        )
    } else if argv[i] == "--exclude"@ {
        parsed_from(
            argv,
            i + 2,
            if i + 1 < argv.len() {
                ArgsModel { excludes: a.excludes.push(argv[i + 1]), ..a }
            } else {
                a
            },
        )
    } else if argv[i] == "--release"@ {
        parsed_from(argv, i + 1, ArgsModel { release: true, ..a })
    } else if argv[i] == "--dry-run"@ {
        parsed_from(argv, i + 1, ArgsModel { dry_run: true, ..a })
    } else if argv[i] == "--list"@ {
        parsed_from(argv, i + 1, ArgsModel { list_only: true, ..a })
    } else if argv[i] == "--all"@ {
        parsed_from(argv, i + 1, ArgsModel { all: true, ..a })
    } else if argv[i] == "--workspace-root"@ {
        parsed_from(
            argv,
            i + 2,
            ArgsModel {
                workspace_root: if i + 1 < argv.len() {
                    Some(argv[i + 1])
                } else {
                    None
                },
                ..a
            },
        )
    } else if argv[i] == "--help"@ || argv[i] == "-h"@ {
        ParsedModel::Help
    } else {
        ParsedModel::Unknown(argv[i])
    }
}

impl Args {
    /// Reads the arguments behind the name of the program.
    pub fn parse(argv: &Vec<String>) -> (res: Parsed)
        ensures
            res.model() == parsed_from(text::texts(argv@), 0, no_args()),
    {
        let ghost all = text::texts(argv@);
        let n: usize = argv.len();
        let mut a = Args {
            filter: None,
            excludes: Vec::new(),
            release: false,
            dry_run: false,
            list_only: false,
            all: false,
            workspace_root: None,
        };
        assert(a.model() =~= no_args());
        let mut i: usize = 0;
        while i < n
            invariant
                i <= n,
                n == argv@.len(),
                all == text::texts(argv@),
                parsed_from(all, 0, no_args()) == parsed_from(all, i as int, a.model()),
            decreases n - i,
        {
            assert(all[i as int] == argv@[i as int]@);
            let arg: &str = argv[i].as_str();
            let more: bool = i + 1 < n;
            let ghost before = a.model();
            if more {
                assert(all[i + 1] == argv@[i + 1]@);
            } else {
                assert(parsed_from(all, i + 2, before) == ParsedModel::Run(before));
            }
            if text::same(arg, "--filter") {
                let f: String = if more {
                    argv[i + 1].clone()
                } else {
                    String::new()
                };
                assert(!more ==> f@ =~= Seq::empty());
                a.filter = Some(f);
                assert(a.model() =~= (ArgsModel { filter: Some(f@), ..before }));
                if !more {
                    assert(parsed_from(all, i + 2, a.model()) == ParsedModel::Run(a.model()));
                    return Parsed::Run(a);
                }
                i = i + 2;
            } else if text::same(arg, "--exclude") {
                if !more {
                    return Parsed::Run(a);
                }
                let ghost ex = a.excludes@;
                a.excludes.push(argv[i + 1].clone());
                assert(text::texts(a.excludes@) =~= text::texts(ex).push(all[i + 1]));
                i = i + 2;
            } else if text::same(arg, "--release") {
                a.release = true;
                i = i + 1;
            } else if text::same(arg, "--dry-run") {
                a.dry_run = true;
                i = i + 1;
            } else if text::same(arg, "--list") {
                a.list_only = true;
                i = i + 1;
            } else if text::same(arg, "--all") {
                a.all = true;
                i = i + 1;
            } else if text::same(arg, "--workspace-root") {
                if !more {
                    a.workspace_root = None;
                    assert(a.model() =~= (ArgsModel { workspace_root: None, ..before }));
                    assert(parsed_from(all, i + 2, a.model()) == ParsedModel::Run(a.model()));
                    return Parsed::Run(a);
                }
                a.workspace_root = Some(argv[i + 1].clone());
                i = i + 2;
            } else if text::same(arg, "--help") || text::same(arg, "-h") {
                return Parsed::Help;
            } else {
                return Parsed::Unknown(argv[i].clone());
            }
        }
        Parsed::Run(a)
    }
}

// ── which programs ─────────────────────────────────────────────────

/// Parts of the names of programs that write a report.
pub open spec fn report_patterns() -> Seq<Seq<char>> {
    seq![
        "trace"@,
        "characterization"@,
        "_opt"@,
        "_match"@,
        "_demo"@,
        "_ml"@,
        "sizing"@,
    ]
}

/// Whether a name contains one of some parts.
pub open spec fn contains_any(name: Seq<char>, parts: Seq<Seq<char>>) -> bool {
    exists|i: int| 0 <= i < parts.len() && text::contains(name, #[trigger] parts[i])
}

/// Whether a program writes a report.
pub open spec fn writes_report(b: BinModel) -> bool {
    contains_any(b.bin_name, report_patterns())
}

fn patterns() -> (res: Vec<&'static str>)
    ensures
        text::str_texts(res@) == report_patterns(),
{
    let mut v: Vec<&'static str> = Vec::new();
    v.push("trace");
    v.push("characterization");
    v.push("_opt");
    v.push("_match");
    v.push("_demo");
    v.push("_ml");
    v.push("sizing");
    assert(text::str_texts(v@) =~= report_patterns());
    v
}

impl BinTarget {
    /// Whether the name of this program contains one of some parts.
    pub fn matches_any(&self, patterns: &Vec<&str>) -> (res: bool)
        ensures
            res == contains_any(self.bin_name@, text::str_texts(patterns@)),
    {
        let ghost ps = text::str_texts(patterns@);
        let mut i: usize = 0;
        while i < patterns.len()
            invariant
                i <= patterns@.len(),
                ps == text::str_texts(patterns@),
                forall|k: int|
                    0 <= k < i ==> !text::contains(self.bin_name@, #[trigger] ps[k]),
            decreases patterns@.len() - i,
        {
            assert(ps[i as int] == patterns@[i as int]@);
            if text::contains_text(self.bin_name.as_str(), patterns[i]) {
                assert(text::contains(self.bin_name@, ps[i as int]));
                return true;
            }
            i = i + 1;
        }
        false
    }
}

fn is_excluded(name: &str, parts: &Vec<String>) -> (res: bool)
    ensures
        res == contains_any(name@, text::texts(parts@)),
{
    let ghost ps = text::texts(parts@);
    let mut i: usize = 0;
    while i < parts.len()
        invariant
            i <= parts@.len(),
            ps == text::texts(parts@),
            forall|k: int| 0 <= k < i ==> !text::contains(name@, #[trigger] ps[k]),
        decreases parts@.len() - i,
    {
        assert(ps[i as int] == parts@[i as int]@);
        if text::contains_text(name, parts[i].as_str()) {
            assert(text::contains(name@, ps[i as int]));
            return true;
        }
        i = i + 1;
    }
    false
}

/// Whether a program is to be run: all but this one where all are asked for, else those
/// whose names contain what was asked for, else those that write a report; none that is
/// excluded.
pub open spec fn is_wanted(b: BinModel, a: ArgsModel) -> bool {
    &&& !(b.package == "eda-trace"@ && b.bin_name == "run-all-traces"@)
    &&& if a.all {
        true
    } else {
        match a.filter {
            Some(f) => f.len() == 0 || text::contains(b.bin_name, f),
            None => writes_report(b),
        }
    }
    &&& !contains_any(b.bin_name, a.excludes)
}

fn wants(b: &BinTarget, a: &Args) -> (res: bool)
    ensures
        res == is_wanted(b.model(), a.model()),
{
    if text::same(b.package.as_str(), "eda-trace") && text::same(
        b.bin_name.as_str(),
        "run-all-traces",
    ) {
        return false;
    }
    if !a.all {
        let ok: bool = match &a.filter {
            Some(f) => text::chars_of(f.as_str()).len() == 0 || text::contains_text(
                b.bin_name.as_str(),
                f.as_str(),
            ),
            None => b.matches_any(&patterns()),
        };
        if !ok {
            return false;
        }
    }
    !is_excluded(b.bin_name.as_str(), &a.excludes)
}

/// The programs to be run among the first `n`.
pub open spec fn wanted(bins: Seq<BinModel>, a: ArgsModel, n: int) -> Seq<BinModel>
    decreases n,
{
    if n <= 0 {
        Seq::empty()
    } else if is_wanted(bins[n - 1], a) {
        wanted(bins, a, n - 1).push(bins[n - 1])
    } else {
        wanted(bins, a, n - 1)
    }
}

/// Picks the programs to be run.
pub fn select_bins(bins: &Vec<BinTarget>, a: &Args) -> (res: Vec<BinTarget>)
    ensures
        manifest::bin_models(res@) == wanted(
            manifest::bin_models(bins@),
            a.model(),
            bins@.len() as int,
        ),
{
    let ghost all = manifest::bin_models(bins@);
    let mut out: Vec<BinTarget> = Vec::new();
    let mut i: usize = 0;
    while i < bins.len()
        invariant
            i <= bins@.len(),
            all == manifest::bin_models(bins@),
            manifest::bin_models(out@) =~= wanted(all, a.model(), i as int),
        decreases bins@.len() - i,
    {
        let ghost before = out@;
        assert(all[i as int] == bins@[i as int].model());
        if wants(&bins[i], a) {
            out.push(bins[i].duplicate());
            assert(manifest::bin_models(out@) =~= manifest::bin_models(before).push(
                all[i as int],
            ));
        }
        i = i + 1;
    }
    out
}

/// This program never runs itself, and runs nothing that is excluded.
pub proof fn never_runs_itself(bins: Seq<BinModel>, a: ArgsModel, n: int, k: int)
    requires
        0 <= k < wanted(bins, a, n).len(),
    ensures
        wanted(bins, a, n)[k] != (BinModel {
            package: "eda-trace"@,
            bin_name: "run-all-traces"@,
        }),
        !contains_any(wanted(bins, a, n)[k].bin_name, a.excludes),
    decreases n,
{
    if n > 0 {
        if is_wanted(bins[n - 1], a) {
            if k < wanted(bins, a, n - 1).len() {
                never_runs_itself(bins, a, n - 1, k);
            }
        } else {
            never_runs_itself(bins, a, n - 1, k);
        }
    }
}

/// How the programs were picked.
pub open spec fn mode_text(a: ArgsModel) -> Seq<char> {
    if a.all {
        "all"@
    } else {
        match a.filter {
            Some(f) => if f.len() == 0 {
                "no filter"@
            } else {
                "filter "@ + text::debug_text(f)
            },
            None => "auto (report patterns)"@,
        }
    }
}

/// Says how the programs were picked.
pub fn mode_desc(a: &Args) -> (res: String)
    ensures
        res@ == mode_text(a.model()),
{
    if a.all {
        return "all".to_owned();
    }
    match &a.filter {
        Some(f) => {
            if text::chars_of(f.as_str()).len() == 0 {
                "no filter".to_owned()
            } else {
                let mut s = "filter ".to_owned();
                s.append(text::quoted(f.as_str()).as_str());
                s
            }
        },
        None => "auto (report patterns)".to_owned(),
    }
}

// ── colours ────────────────────────────────────────────────────────

/// A text in a colour, where the terminal has any.
pub open spec fn painted(color: bool, code: Seq<char>, s: Seq<char>) -> Seq<char> {
    if color {
        "\x1b["@ + code + "m"@ + s + "\x1b[0m"@
    } else {
        s
    }
}

/// Puts texts in colours, where the terminal has any.
#[derive(Debug, Clone, Copy)]
pub struct Painter {
    pub color: bool,
}

impl Painter {
    /// Whether to use colours: only on a terminal, and not where they are not wanted or
    /// the terminal has none.
    pub fn detect(no_color: bool, term: Option<&str>, terminal: bool) -> (res: Self)
        ensures
            res.color == (terminal && !no_color && !(text::opt_str(term) matches Some(t)
                && t == "dumb"@)),
    {
        let dumb: bool = match term {
            Some(t) => text::same(t, "dumb"),
            None => false,
        };
        Painter { color: terminal && !no_color && !dumb }
    }

    pub fn paint(&self, code: &str, s: &str) -> (res: String)
        ensures
            res@ == painted(self.color, code@, s@),
    {
        if !self.color {
            return s.to_owned();
        }
        let mut r = "\x1b[".to_owned();
        r.append(code);
        r.append("m");
        r.append(s);
        r.append("\x1b[0m");
        r
    }

    pub fn ok(&self, s: &str) -> (res: String)
        ensures
            res@ == painted(self.color, "32"@, s@),
    {
        self.paint("32", s)
    }

    pub fn fail(&self, s: &str) -> (res: String)
        ensures
            res@ == painted(self.color, "31;1"@, s@),
    {
        self.paint("31;1", s)
    }

    pub fn warn(&self, s: &str) -> (res: String)
        ensures
            res@ == painted(self.color, "33"@, s@),
    {
        self.paint("33", s)
    }

    pub fn dim(&self, s: &str) -> (res: String)
        ensures
            res@ == painted(self.color, "2"@, s@),
    {
        self.paint("2", s)
    }

    pub fn bold(&self, s: &str) -> (res: String)
        ensures
            res@ == painted(self.color, "1"@, s@),
    {
        self.paint("1", s)
    }

    pub fn cyan(&self, s: &str) -> (res: String)
        ensures
            res@ == painted(self.color, "36"@, s@),
    {
        self.paint("36", s)
    }
}

// ── listings ───────────────────────────────────────────────────────

/// One program of a listing.
pub open spec fn bin_line_text(color: bool, b: BinModel, tag: bool) -> Seq<char> {
    "    • "@ + b.bin_name
        + (if tag && writes_report(b) { painted(color, "36"@, " [report]"@) } else { ""@ })
        + "\n"@
}

fn bin_line(p: Painter, b: &BinTarget, tag: bool) -> (res: String)
    ensures
        res@ == bin_line_text(p.color, b.model(), tag),
{
    let mut s = "    • ".to_owned();
    s.append(b.bin_name.as_str());
    s.append(tag_of(p, b, tag).as_str());
    s.append("\n");
    s
}

fn tag_of(p: Painter, b: &BinTarget, tag: bool) -> (res: String)
    ensures
        res@ == (if tag && writes_report(b.model()) {
            painted(p.color, "36"@, " [report]"@)
        } else {
            ""@
        }),
{
    if tag && b.matches_any(&patterns()) {
        p.cyan(" [report]")
    } else {
        "".to_owned()
    }
}

/// The programs of one package among the first `n`.
pub open spec fn package_lines_text(
    color: bool,
    bins: Seq<BinModel>,
    package: Seq<char>,
    tag: bool,
    n: int,
) -> Seq<char>
    decreases n,
{
    if n <= 0 {
        Seq::empty()
    } else {
        let before = package_lines_text(color, bins, package, tag, n - 1);
        if bins[n - 1].package == package {
            before + bin_line_text(color, bins[n - 1], tag)
        } else {
            before
        }
    }
}

/// How many of the first `n` programs are of a package.
pub open spec fn package_count(bins: Seq<BinModel>, package: Seq<char>, n: int) -> nat
    decreases n,
{
    if n <= 0 {
        0
    } else {
        package_count(bins, package, n - 1) + if bins[n - 1].package == package {
            1nat
        } else {
            0nat
        }
    }
}

fn package_lines(p: Painter, bins: &Vec<BinTarget>, package: &str, tag: bool) -> (res: (
    String,
    usize,
))
    ensures
        res.0@ == package_lines_text(
            p.color,
            manifest::bin_models(bins@),
            package@,
            tag,
            bins@.len() as int,
        ),
        res.1 == package_count(manifest::bin_models(bins@), package@, bins@.len() as int),
{
    let ghost all = manifest::bin_models(bins@);
    let mut s = String::new();
    let mut c: usize = 0;
    let mut i: usize = 0;
    while i < bins.len()
        invariant
            c <= i <= bins@.len(),
            all == manifest::bin_models(bins@),
            s@ == package_lines_text(p.color, all, package@, tag, i as int),
            c == package_count(all, package@, i as int),
        decreases bins@.len() - i,
    {
        assert(all[i as int] == bins@[i as int].model());
        if text::same(bins[i].package.as_str(), package) {
            s.append(bin_line(p, &bins[i], tag).as_str());
            c = c + 1;
        }
        i = i + 1;
    }
    (s, c)
}

/// The packages of the first `n` programs.
pub open spec fn packages(bins: Seq<BinModel>, n: int) -> Map<Seq<char>, bool>
    decreases n,
{
    if n <= 0 {
        Map::empty()
    } else {
        packages(bins, n - 1).insert(bins[n - 1].package, true)
    }
}

/// Lists the packages of programs, each once, in the order of their names.
pub fn list_packages(bins: &Vec<BinTarget>) -> (res: ordmap::NameMap<bool>)
    ensures
        res@ == packages(manifest::bin_models(bins@), bins@.len() as int),
{
    let ghost all = manifest::bin_models(bins@);
    let mut m: ordmap::NameMap<bool> = ordmap::NameMap::new();
    let mut i: usize = 0;
    while i < bins.len()
        invariant
            i <= bins@.len(),
            all == manifest::bin_models(bins@),
            m@ == packages(all, i as int),
        decreases bins@.len() - i,
    {
        assert(all[i as int] == bins@[i as int].model());
        m.set(bins[i].package.as_str(), true);
        i = i + 1;
    }
    m
}

/// The programs of the first `n` packages of a list.
pub open spec fn groups_text(
    color: bool,
    bins: Seq<BinModel>,
    names: Seq<Seq<char>>,
    tag: bool,
    n: int,
) -> Seq<char>
    decreases n,
{
    if n <= 0 {
        Seq::empty()
    } else {
        groups_text(color, bins, names, tag, n - 1) + "  "@ + painted(color, "1"@, names[n - 1])
            + " "@ + painted(
            color,
            "2"@,
            "("@ + text::dec(package_count(bins, names[n - 1], bins.len() as int)) + " bins)"@,
        ) + "\n"@ + package_lines_text(color, bins, names[n - 1], tag, bins.len() as int)
    }
}

/// The listing of programs, package by package.
pub open spec fn listing_text(
    color: bool,
    bins: Seq<BinModel>,
    names: Seq<Seq<char>>,
    header: Seq<char>,
    tag: bool,
) -> Seq<char> {
    "\n"@ + painted(color, "1"@, header) + " ("@ + text::dec(bins.len()) + " bins, "@ + text::dec(
        names.len(),
    ) + " crates)\n\n"@ + groups_text(color, bins, names, tag, names.len() as int)
}

/// Lists programs by package, in the order of the names of packages, and marks those that
/// write a report where asked for.
pub fn grouped_listing(p: Painter, bins: &Vec<BinTarget>, header: &str, tag: bool) -> (res: String)
    ensures
        exists|m: ordmap::NameMap<bool>|
            #![trigger m.listing()]
            m@ == packages(manifest::bin_models(bins@), bins@.len() as int) && ordmap::ascending(
                m.listing(),
            ) && m@ == ordmap::entries_map(m.listing()) && res@ == listing_text(
                p.color,
                manifest::bin_models(bins@),
                ordmap::entry_names(m.listing()),
                header@,
                tag,
            ),
{
    let ghost all = manifest::bin_models(bins@);
    let m = list_packages(bins);
    let n: usize = m.len();
    let ghost names = ordmap::entry_names(m.listing());
    let mut s = "\n".to_owned();
    s.append(p.bold(header).as_str());
    s.append(" (");
    s.append(text::usize_to_string(bins.len()).as_str());
    s.append(" bins, ");
    s.append(text::usize_to_string(n).as_str());
    s.append(" crates)\n\n");
    let ghost head = s@;
    let mut i: usize = 0;
    assert(head =~= head + groups_text(p.color, all, names, tag, 0));
    while i < n
        invariant
            i <= n,
            n == m.listing().len(),
            all == manifest::bin_models(bins@),
            all.len() == bins@.len(),
            names == ordmap::entry_names(m.listing()),
            s@ == head + groups_text(p.color, all, names, tag, i as int),
        decreases n - i,
    {
        let name: &str = m.name_at(i).as_str();
        assert(names[i as int] == name@);
        let (lines, c): (String, usize) = package_lines(p, bins, name, tag);
        let mut count = "(".to_owned();
        count.append(text::usize_to_string(c).as_str());
        count.append(" bins)");
        let ghost before = s@;
        s.append("  ");
        s.append(p.bold(name).as_str());
        s.append(" ");
        s.append(p.dim(count.as_str()).as_str());
        s.append("\n");
        s.append(lines.as_str());
        assert(s@ =~= head + groups_text(p.color, all, names, tag, i + 1));
        i = i + 1;
    }
    assert(m.listing().len() == names.len());
    s
}

// ── one run ────────────────────────────────────────────────────────

/// The first place from `i` on where a pattern stands; the length where there is none.
pub open spec fn find_from(s: Seq<char>, pat: Seq<char>, i: int) -> int
    decreases s.len() - i,
{
    if i < 0 || i >= s.len() {
        s.len() as int
    } else if text::occurs_at(s, pat, i) {
        i
    } else {
        find_from(s, pat, i + 1)
    }
}

fn find_pattern(v: &Vec<char>, pat: &Vec<char>, from: usize) -> (res: usize)
    requires
        from <= v@.len(),
    ensures
        res == find_from(v@, pat@, from as int),
        from <= res <= v@.len(),
{
    let mut i: usize = from;
    while i < v.len()
        invariant
            from <= i <= v@.len(),
            find_from(v@, pat@, from as int) == find_from(v@, pat@, i as int),
        decreases v@.len() - i,
    {
        if text::matches_at(v, pat, i) {
            return i;
        }
        i = i + 1;
    }
    i
}

/// The path in a line that says what was written: the first word between the first
/// `wrote:` and the next.
pub open spec fn artifact_in(line: Seq<char>) -> Option<Seq<char>> {
    let i = find_from(line, "wrote:"@, 0);
    if i >= line.len() {
        None
    } else {
        let rest = line.skip(i + 6);
        let part = rest.take(find_from(rest, "wrote:"@, 0));
        let a = text::skip_white(part, 0);
        let e = text::word_end(part, a);
        if a < part.len() {
            Some(part.subrange(a, e))
        } else {
            None
        }
    }
}

/// Finds the path in a line that says what was written.
pub fn parse_artifact(line: &str) -> (res: Option<String>)
    ensures
        paths::opt_text(res) == artifact_in(line@),
{
    let v = text::chars_of(line);
    let pat = text::chars_of("wrote:");
    let i: usize = find_pattern(&v, &pat, 0);
    if i >= v.len() {
        return None;
    }
    proof {
        lemma_found(v@, pat@, 0);
        reveal_strlit("wrote:");
    }
    let from: usize = i + 6;
    let rest_text = text::slice_string(&v, from, v.len());
    assert(rest_text@ =~= line@.skip(i + 6));
    let rest = text::chars_of(rest_text.as_str());
    let cut: usize = find_pattern(&rest, &pat, 0);
    let part_text = text::slice_string(&rest, 0, cut);
    assert(part_text@ =~= rest@.take(cut as int));
    let part = text::chars_of(part_text.as_str());
    let a: usize = text::skip_white_from(&part, 0);
    if a >= part.len() {
        return None;
    }
    let e: usize = text::word_end_from(&part, a);
    Some(text::slice_string(&part, a, e))
}

proof fn lemma_found(s: Seq<char>, pat: Seq<char>, i: int)
    requires
        0 <= i <= s.len(),
        find_from(s, pat, i) < s.len(),
    ensures
        text::occurs_at(s, pat, find_from(s, pat, i)),
    decreases s.len() - i,
{
    if i < s.len() && !text::occurs_at(s, pat, i) {
        lemma_found(s, pat, i + 1);
    }
}

/// The first line of an output that says what was written, from the `i`-th on.
pub open spec fn written_line(lines: Seq<Seq<char>>, i: int) -> Option<Seq<char>>
    decreases lines.len() - i,
{
    if i < 0 || i >= lines.len() {
        None
    } else if text::contains(lines[i], "wrote:"@) {
        Some(lines[i])
    } else {
        written_line(lines, i + 1)
    }
}

/// The path of what a program says that it wrote.
pub open spec fn artifact(output: Seq<char>) -> Option<Seq<char>> {
    match written_line(text::lines(output), 0) {
        Some(l) => artifact_in(text::trim(l)),
        None => None,
    }
}

/// Finds what a program says that it wrote.
pub fn find_artifact(output: &str) -> (res: Option<String>)
    ensures
        paths::opt_text(res) == artifact(output@),
{
    let lines = text::split_lines(output);
    let ghost all = text::texts(lines@);
    let mut i: usize = 0;
    while i < lines.len()
        invariant
            i <= lines@.len(),
            all == text::texts(lines@),
            all == text::lines(output@),
            written_line(all, 0) == written_line(all, i as int),
        decreases lines@.len() - i,
    {
        assert(all[i as int] == lines@[i as int]@);
        if text::contains_text(lines[i].as_str(), "wrote:") {
            let t = text::trimmed(lines[i].as_str());
            return parse_artifact(t.as_str());
        }
        i = i + 1;
    }
    None
}

/// The last `n` of some lines.
pub open spec fn last_lines(lines: Seq<Seq<char>>, n: int) -> Seq<Seq<char>> {
    if lines.len() <= n {
        lines
    } else {
        lines.skip(lines.len() - n)
    }
}

/// The last twenty lines of what a program complained of.
pub fn tail_of(output: &str) -> (res: Vec<String>)
    ensures
        text::texts(res@) == last_lines(text::lines(output@), 20),
{
    let lines = text::split_lines(output);
    let ghost all = text::texts(lines@);
    let n: usize = lines.len();
    let from: usize = if n <= 20 {
        0
    } else {
        n - 20
    };
    let mut out: Vec<String> = Vec::new();
    let mut i: usize = from;
    while i < n
        invariant
            from <= i <= n,
            n == lines@.len(),
            all == text::texts(lines@),
            text::texts(out@) =~= all.subrange(from as int, i as int),
        decreases n - i,
    {
        let ghost before = out@;
        out.push(lines[i].clone());
        assert(text::texts(out@) =~= text::texts(before).push(all[i as int]));
        i = i + 1;
    }
    assert(all.subrange(from as int, n as int) =~= last_lines(all, 20));
    out
}

/// A program with its package.
pub open spec fn full_name(b: BinModel) -> Seq<char> {
    b.package + "::"@ + b.bin_name
}

fn full_name_of(b: &BinTarget) -> (res: String)
    ensures
        res@ == full_name(b.model()),
{
    let mut s = b.package.clone();
    s.append("::");
    s.append(b.bin_name.as_str());
    s
}

/// Length of a text in bytes.
pub open spec fn byte_length(s: Seq<char>) -> nat {
    liberty::byte_offset(s, s.len() as int)
}

/// The length of the longest of the names of the first `n` programs, in bytes.
pub open spec fn longest_name(bins: Seq<BinModel>, n: int) -> nat
    decreases n,
{
    if n <= 0 {
        0
    } else {
        let before = longest_name(bins, n - 1);
        let here = byte_length(full_name(bins[n - 1]));
        if here > before {
            here
        } else {
            before
        }
    }
}

/// Measures the longest of the names of programs, in bytes.
pub fn label_width(bins: &Vec<BinTarget>) -> (res: u128)
    ensures
        res == longest_name(manifest::bin_models(bins@), bins@.len() as int),
{
    let ghost all = manifest::bin_models(bins@);
    let mut w: u128 = 0;
    let mut i: usize = 0;
    while i < bins.len()
        invariant
            i <= bins@.len(),
            all == manifest::bin_models(bins@),
            w == longest_name(all, i as int),
        decreases bins@.len() - i,
    {
        assert(all[i as int] == bins@[i as int].model());
        let name = full_name_of(&bins[i]);
        let v = text::chars_of(name.as_str());
        let here: u128 = liberty::offset_of(&v, v.len());
        if here > w {
            w = here;
        }
        i = i + 1;
    }
    w
}

/// What is shown while a program runs: its number among all, and its name in a column.
pub open spec fn run_label_text(i: nat, total: nat, b: BinModel, width: nat) -> Seq<char> {
    "["@ + text::right_aligned(text::dec(i), 2) + "/"@ + text::dec(total) + "] "@
        + text::left_aligned(full_name(b), width)
}

/// What is shown while a program runs: its number among all, and its name in a column.
pub fn run_label(i: usize, total: usize, b: &BinTarget, width: usize) -> (res: String)
    ensures
        res@ == run_label_text(i as nat, total as nat, b.model(), width as nat),
{
    let mut s = "[".to_owned();
    s.append(text::align_right(text::usize_to_string(i).as_str(), 2).as_str());
    s.append("/");
    s.append(text::usize_to_string(total).as_str());
    s.append("] ");
    s.append(text::align_left(full_name_of(b).as_str(), width).as_str());
    s
}

// ── the summary of all runs ────────────────────────────────────────

#[derive(Debug, Clone, Copy, PartialEq, Eq, Structural)]
pub enum RunStatus {
    Passed,
    Failed,
}

/// What came of running a program.
#[derive(Debug)]
pub struct RunResult {
    pub bin: BinTarget,
    pub status: RunStatus,
    pub elapsed_s: Real,
    /// The path that the program said it wrote.
    pub artifact: Option<String>,
    pub stderr_tail: Vec<String>,
}

#[verifier::ext_equal]
pub struct ResultModel {
    pub bin: BinModel,
    pub status: RunStatus,
    pub elapsed_s: Real,
    pub artifact: Option<Seq<char>>,
    pub stderr_tail: Seq<Seq<char>>,
}

impl RunResult {
    pub open spec fn model(self) -> ResultModel {
        ResultModel {
            bin: self.bin.model(),
            status: self.status,
            elapsed_s: self.elapsed_s,
            artifact: paths::opt_text(self.artifact),
            stderr_tail: text::texts(self.stderr_tail@),
        }
    }
}

pub open spec fn result_models(v: Seq<RunResult>) -> Seq<ResultModel> {
    v.map_values(|r: RunResult| r.model())
}

/// How many of the first `n` runs went well.
pub open spec fn ok_count(rs: Seq<ResultModel>, n: int) -> nat
    decreases n,
{
    if n <= 0 {
        0
    } else {
        ok_count(rs, n - 1) + if rs[n - 1].status is Passed {
            1nat
        } else {
            0nat
        }
    }
}

/// Counts the runs that went well, and those that did not.
pub fn count_results(rs: &Vec<RunResult>) -> (res: (usize, usize))
    ensures
        res.0 == ok_count(result_models(rs@), rs@.len() as int),
        res.0 + res.1 == rs@.len(),
{
    let ghost all = result_models(rs@);
    let mut ok: usize = 0;
    let mut i: usize = 0;
    while i < rs.len()
        invariant
            ok <= i <= rs@.len(),
            all == result_models(rs@),
            ok == ok_count(all, i as int),
        decreases rs@.len() - i,
    {
        assert(all[i as int] == rs@[i as int].model());
        if rs[i].status == RunStatus::Passed {
            ok = ok + 1;
        }
        i = i + 1;
    }
    (ok, rs.len() - ok)
}

/// What is shown after all runs.
pub open spec fn closing_line_text(color: bool, ok: nat, fail: nat, total_s: Real) -> Seq<char> {
    "\n"@ + painted(color, "1"@, "∎"@) + " "@ + painted(color, "32"@, text::dec(ok)) + " ok, "@
        + painted(color, if fail > 0 { "31;1"@ } else { "2"@ }, text::dec(fail))
        + " failed across "@ + text::dec(ok + fail) + " bins  "@
        + painted(color, "2"@, "(total "@ + numfmt::fixed(total_s, 1, false) + "s)"@) + "\n"@
}

/// What is shown after all runs.
pub fn closing_line(p: Painter, ok: usize, fail: usize, total_s: Real) -> (res: String)
    requires
        ok + fail <= usize::MAX,
    ensures
        res@ == closing_line_text(p.color, ok as nat, fail as nat, total_s),
{
    let mut s = "\n".to_owned();
    s.append(p.bold("∎").as_str());
    s.append(" ");
    s.append(p.ok(text::usize_to_string(ok).as_str()).as_str());
    s.append(" ok, ");
    s.append(fail_text(p, fail).as_str());
    s.append(" failed across ");
    s.append(text::usize_to_string(ok + fail).as_str());
    s.append(" bins  ");
    s.append(total_text(p, total_s).as_str());
    s.append("\n");
    s
}

fn fail_text(p: Painter, fail: usize) -> (res: String)
    ensures
        res@ == painted(
            p.color,
            if fail > 0 {
                "31;1"@
            } else {
                "2"@
            },
            text::dec(fail as nat),
        ),
{
    if fail > 0 {
        p.fail(text::usize_to_string(fail).as_str())
    } else {
        p.dim(text::usize_to_string(fail).as_str())
    }
}

fn total_text(p: Painter, total_s: Real) -> (res: String)
    ensures
        res@ == painted(
            p.color,
            "2"@,
            "(total "@ + numfmt::fixed(total_s, 1, false) + "s)"@,
        ),
{
    let mut t = "(total ".to_owned();
    t.append(numfmt::to_fixed(total_s, 1, false).as_str());
    t.append("s)");
    p.dim(t.as_str())
}

/// A link to what a program wrote, or a dash.
pub open spec fn link_text(root: Seq<char>, a: Option<Seq<char>>) -> Seq<char> {
    match a {
        Some(path) => {
            let rel = match paths::relative(root, path) {
                Some(r) => r,
                None => path,
            };
            "[`"@ + rel + "`](../../../"@ + rel + ")"@
        },
        None => "—"@,
    }
}

fn link_to(root: &str, a: &Option<String>) -> (res: String)
    ensures
        res@ == link_text(root@, paths::opt_text(*a)),
{
    match a {
        Some(path) => {
            let rel: String = match paths::relative_to(root, path.as_str()) {
                Some(r) => r,
                None => path.clone(),
            };
            let mut s = "[`".to_owned();
            s.append(rel.as_str());
            s.append("`](../../../");
            s.append(rel.as_str());
            s.append(")");
            s
        },
        None => "—".to_owned(),
    }
}

pub open spec fn status_mark(s: RunStatus) -> Seq<char> {
    match s {
        RunStatus::Passed => "✓"@,
        RunStatus::Failed => "✗"@,
    }
}

fn mark_of(s: RunStatus) -> (res: &'static str)
    ensures
        res@ == status_mark(s),
{
    match s {
        RunStatus::Passed => "✓",
        RunStatus::Failed => "✗",
    }
}

/// One run in the table.
pub open spec fn result_line_text(root: Seq<char>, r: ResultModel) -> Seq<char> {
    "| "@ + status_mark(r.status) + " | `"@ + r.bin.package + "` | `"@ + r.bin.bin_name + "` | "@
        + numfmt::fixed(r.elapsed_s, 1, false) + "s | "@ + link_text(root, r.artifact) + " |\n"@
}

fn result_line(root: &str, r: &RunResult) -> (res: String)
    ensures
        res@ == result_line_text(root@, r.model()),
{
    let mut s = "| ".to_owned();
    s.append(mark_of(r.status));
    s.append(" | `");
    s.append(r.bin.package.as_str());
    s.append("` | `");
    s.append(r.bin.bin_name.as_str());
    s.append("` | ");
    s.append(numfmt::to_fixed(r.elapsed_s, 1, false).as_str());
    s.append("s | ");
    s.append(link_to(root, &r.artifact).as_str());
    s.append(" |\n");
    s
}

/// The first `n` runs in the table.
pub open spec fn result_lines_text(root: Seq<char>, rs: Seq<ResultModel>, n: int) -> Seq<char>
    decreases n,
{
    if n <= 0 {
        Seq::empty()
    } else {
        result_lines_text(root, rs, n - 1) + result_line_text(root, rs[n - 1])
    }
}

fn result_lines(root: &str, rs: &Vec<RunResult>) -> (res: String)
    ensures
        res@ == result_lines_text(root@, result_models(rs@), rs@.len() as int),
{
    let mut s = String::new();
    let mut i: usize = 0;
    while i < rs.len()
        invariant
            i <= rs.len(),
            s@ == result_lines_text(root@, result_models(rs@), i as int),
        decreases rs.len() - i,
    {
        assert(result_models(rs@)[i as int] == rs@[i as int].model());
        s.append(result_line(root, &rs[i]).as_str());
        i = i + 1;
    }
    s
}

/// The first `n` of some lines, each with its end.
pub open spec fn tail_lines_text(ls: Seq<Seq<char>>, n: int) -> Seq<char>
    decreases n,
{
    if n <= 0 {
        Seq::empty()
    } else {
        tail_lines_text(ls, n - 1) + (ls[n - 1] + "\n"@)
    }
}

fn tail_lines(ls: &Vec<String>) -> (res: String)
    ensures
        res@ == tail_lines_text(text::texts(ls@), ls@.len() as int),
{
    let mut s = String::new();
    let mut i: usize = 0;
    while i < ls.len()
        invariant
            i <= ls.len(),
            s@ == tail_lines_text(text::texts(ls@), i as int),
        decreases ls.len() - i,
    {
        assert(text::texts(ls@)[i as int] == ls@[i as int]@);
        s.append(with_end(ls[i].as_str()).as_str());
        i = i + 1;
    }
    s
}

fn with_end(line: &str) -> (res: String)
    ensures
        res@ == line@ + "\n"@,
{
    let mut s = line.to_owned();
    s.append("\n");
    s
}

/// What a program that failed complained of.
pub open spec fn failure_text(r: ResultModel) -> Seq<char> {
    "### `"@ + full_name(r.bin) + "`\n\n```\n"@
        + tail_lines_text(r.stderr_tail, r.stderr_tail.len() as int) + "```\n\n"@
}

fn failure(r: &RunResult) -> (res: String)
    ensures
        res@ == failure_text(r.model()),
{
    assert(text::texts(r.stderr_tail@).len() == r.stderr_tail@.len());
    let mut s = "### `".to_owned();
    s.append(full_name_of(&r.bin).as_str());
    s.append("`\n\n```\n");
    s.append(tail_lines(&r.stderr_tail).as_str());
    s.append("```\n\n");
    s
}

/// What those of the first `n` programs that failed complained of.
pub open spec fn failures_text(rs: Seq<ResultModel>, n: int) -> Seq<char>
    decreases n,
{
    if n <= 0 {
        Seq::empty()
    } else if rs[n - 1].status is Failed {
        failures_text(rs, n - 1) + failure_text(rs[n - 1])
    } else {
        failures_text(rs, n - 1)
    }
}

fn failures(rs: &Vec<RunResult>) -> (res: String)
    ensures
        res@ == failures_text(result_models(rs@), rs@.len() as int),
{
    let ghost all = result_models(rs@);
    let mut s = String::new();
    let mut i: usize = 0;
    while i < rs.len()
        invariant
            i <= rs@.len(),
            all == result_models(rs@),
            s@ == failures_text(all, i as int),
        decreases rs@.len() - i,
    {
        assert(all[i as int] == rs@[i as int].model());
        if rs[i].status == RunStatus::Failed {
            s.append(failure(&rs[i]).as_str());
        }
        i = i + 1;
    }
    s
}

/// The head of the summary.
pub open spec fn summary_head_text(mode: Seq<char>, total_s: Real, ok: nat, fail: nat, now_s: nat) -> Seq<char> {
    "# `run-all-traces` — last run summary\n\nMode: `"@ + mode + "`  ·  Total: **"@
        + numfmt::fixed(total_s, 1, false) + "s**  ·  Outcome: **"@ + text::dec(ok) + "** ok, **"@
        + text::dec(fail) + "** failed  ·  Unix time: `"@ + text::dec(now_s)
        + "`\n\n_Regenerated every time `cargo run -p eda-trace --bin run-all-traces` is invoked._\n\n| Status | Crate | Bin | Duration | Artifact |\n| :---: | --- | --- | ---: | --- |\n"@
}

fn summary_head(mode: &str, total_s: Real, ok: usize, fail: usize, now_s: u64) -> (res: String)
    ensures
        res@ == summary_head_text(mode@, total_s, ok as nat, fail as nat, now_s as nat),
{
    let mut s = "# `run-all-traces` — last run summary\n\nMode: `".to_owned();
    s.append(mode);
    s.append("`  ·  Total: **");
    s.append(numfmt::to_fixed(total_s, 1, false).as_str());
    s.append("s**  ·  Outcome: **");
    s.append(text::usize_to_string(ok).as_str());
    s.append("** ok, **");
    s.append(text::usize_to_string(fail).as_str());
    s.append("** failed  ·  Unix time: `");
    s.append(text::u64_to_string(now_s).as_str());
    s.append("`\n\n_Regenerated every time `cargo run -p eda-trace --bin run-all-traces` is invoked._\n\n| Status | Crate | Bin | Duration | Artifact |\n| :---: | --- | --- | ---: | --- |\n");
    s
}

/// The summary of all runs: a table of them, and what those that failed complained of.
pub open spec fn summary(
    root: Seq<char>,
    rs: Seq<ResultModel>,
    total_s: Real,
    mode: Seq<char>,
    now_s: nat,
) -> Seq<char> {
    let ok = ok_count(rs, rs.len() as int);
    let fail = (rs.len() - ok) as nat;
    summary_head_text(mode, total_s, ok, fail, now_s) + result_lines_text(
        root,
        rs,
        rs.len() as int,
    ) + (if fail > 0 {
        "\n## Failures\n\n"@ + failures_text(rs, rs.len() as int)
    } else {
        Seq::empty()
    })
}

/// Writes the summary of all runs.
pub fn summary_markdown(
    root: &str,
    rs: &Vec<RunResult>,
    total_s: Real,
    mode: &str,
    now_s: u64,
) -> (res: String)
    ensures
        res@ == summary(root@, result_models(rs@), total_s, mode@, now_s as nat),
{
    assert(result_models(rs@).len() == rs@.len());
    let (ok, fail): (usize, usize) = count_results(rs);
    let mut md = summary_head(mode, total_s, ok, fail, now_s);
    md.append(result_lines(root, rs).as_str());
    if fail > 0 {
        md.append("\n## Failures\n\n");
        md.append(failures(rs).as_str());
        assert(md@ =~= summary(root@, result_models(rs@), total_s, mode@, now_s as nat));
    }
    md
}

/// Where the summary goes.
pub fn summary_path(root: &str) -> (res: String)
    ensures
        res@ == paths::joined(
            paths::joined(
                paths::joined(paths::joined(root@, "crates"@), "eda-trace"@),
                "docs"@,
            ),
            "run-summary.md"@,
        ),
{
    let a = paths::join(root, "crates");
    let b = paths::join(a.as_str(), "eda-trace");
    let c = paths::join(b.as_str(), "docs");
    paths::join(c.as_str(), "run-summary.md")
}

// ── laws ───────────────────────────────────────────────────────────

/// Whether a program is one that runs the others.
pub open spec fn runs_the_others(b: BinModel) -> bool {
    b.package == "eda-trace"@ && b.bin_name == "run-all-traces"@
}

/// A program is picked exactly where it is asked for and not excluded, and is not the one
/// that runs the others. All are asked for by `--all`, whatever else is; else those whose
/// names contain the filter, if there is one; else those that write a report.
pub proof fn programs_are_picked_as_asked(b: BinModel, a: ArgsModel)
    ensures
        runs_the_others(b) ==> !is_wanted(b, a),
        (exists|i: int| 0 <= i < a.excludes.len() && text::contains(
            b.bin_name,
            #[trigger] a.excludes[i],
        )) ==> !is_wanted(b, a),
        !runs_the_others(b) && (forall|i: int|
            0 <= i < a.excludes.len() ==> !text::contains(b.bin_name, #[trigger] a.excludes[i]))
            ==> {
            &&& a.all ==> is_wanted(b, a)
            &&& !a.all ==> (a.filter matches Some(f) ==> (is_wanted(b, a) <==> f.len() == 0
                || text::contains(b.bin_name, f)))
            &&& !a.all && a.filter is None ==> (is_wanted(b, a) <==> writes_report(b))
        },
{
}

/// The programs that are run are those picked, in the order in which they are listed. `of`
/// says which each one is.
pub proof fn picked_programs_keep_their_order(bins: Seq<BinModel>, a: ArgsModel, n: int) -> (of:
    Seq<int>)
    requires
        0 <= n <= bins.len(),
    ensures
        of.len() == wanted(bins, a, n).len(),
        forall|j: int, k: int| 0 <= j < k < of.len() ==> (#[trigger] of[j]) < (#[trigger] of[k]),
        forall|k: int|
            #![trigger of[k]]
            0 <= k < of.len() ==> 0 <= of[k] < n && wanted(bins, a, n)[k] == bins[of[k]]
                && is_wanted(bins[of[k]], a),
        forall|i: int| 0 <= i < n && is_wanted(#[trigger] bins[i], a) ==> of.contains(i),
    decreases n,
{
    if n == 0 {
        Seq::empty()
    } else {
        let less = picked_programs_keep_their_order(bins, a, n - 1);
        if is_wanted(bins[n - 1], a) {
            let of = less.push(n - 1);
            assert forall|i: int| 0 <= i < n && is_wanted(#[trigger] bins[i], a) implies of.contains(
            i) by {
                if i < n - 1 {
                    let k = choose|k: int| 0 <= k < less.len() && less[k] == i;
                    assert(of[k] == i);
                } else {
                    assert(of[of.len() - 1] == i);
                }
            }
            assert forall|k: int| #![trigger of[k]] 0 <= k < of.len() implies 0 <= of[k] < n
                && wanted(bins, a, n)[k] == bins[of[k]] && is_wanted(bins[of[k]], a) by {
                if k < less.len() {
                    assert(of[k] == less[k]);
                }
            }
            of
        } else {
            less
        }
    }
}

/// The column of names is as wide as the longest of them.
pub proof fn longest_name_is_longest(bins: Seq<BinModel>, n: int)
    requires
        0 <= n <= bins.len(),
    ensures
        forall|i: int|
            0 <= i < n ==> byte_length(full_name(#[trigger] bins[i])) <= longest_name(bins, n),
        n > 0 ==> exists|i: int|
            0 <= i < n && byte_length(full_name(#[trigger] bins[i])) == longest_name(bins, n),
    decreases n,
{
    if n > 0 {
        longest_name_is_longest(bins, n - 1);
        if longest_name(bins, n) == byte_length(full_name(bins[n - 1])) {
            assert(byte_length(full_name(bins[n - 1])) == longest_name(bins, n));
        } else {
            let i = choose|i: int|
                0 <= i < n - 1 && byte_length(full_name(#[trigger] bins[i])) == longest_name(
                    bins,
                    n - 1,
                );
            assert(byte_length(full_name(bins[i])) == longest_name(bins, n));
        }
    }
}

/// The first place of a pattern from a place on is one where it stands, with none between.
pub proof fn patterns_are_found_first(s: Seq<char>, pat: Seq<char>, i: int)
    requires
        0 <= i <= s.len(),
    ensures
        i <= find_from(s, pat, i) <= s.len(),
        find_from(s, pat, i) < s.len() ==> text::occurs_at(s, pat, find_from(s, pat, i)),
        forall|j: int| i <= j < find_from(s, pat, i) ==> !#[trigger] text::occurs_at(s, pat, j),
    decreases s.len() - i,
{
    if i < s.len() && !text::occurs_at(s, pat, i) {
        patterns_are_found_first(s, pat, i + 1);
    }
}

/// What was written is read off the first line that says so, and from no other.
pub proof fn first_written_line_counts(lines: Seq<Seq<char>>, i: int)
    requires
        0 <= i <= lines.len(),
    ensures
        match written_line(lines, i) {
            None => forall|j: int|
                i <= j < lines.len() ==> !text::contains(#[trigger] lines[j], "wrote:"@),
            Some(l) => exists|k: int|
                i <= k < lines.len() && #[trigger] lines[k] == l && text::contains(l, "wrote:"@) && (
                forall|j: int| i <= j < k ==> !text::contains(#[trigger] lines[j], "wrote:"@)),
        },
    decreases lines.len() - i,
{
    if i < lines.len() {
        if text::contains(lines[i], "wrote:"@) {
            assert(lines[i] == lines[i]);
        } else {
            first_written_line_counts(lines, i + 1);
        }
    }
}

} // verus!
