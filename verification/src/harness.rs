//! The simulation harness: decks, what to read back from a run, and what a
//! run comes to.

use crate::cache::{Cache, CacheError, CacheMode};
use crate::corner::{Corner, CornerSet};
use crate::double::Real;
use crate::limits::{Spec, SpecBundle, SpecCheck};
use crate::measure::{MeasureLog, Measurement, MeasurementValue};
use crate::numfmt;
use crate::ordmap;
use crate::ordmap::NameMap;
use crate::paths;
use crate::spice::Netlist;
use crate::text;
use crate::verify::VerifyReport;
use vstd::prelude::*;
use vstd::string::*;

verus! {

/// One analysis directive.
#[derive(Debug)]
pub enum Analysis {
    /// Operating point.
    Op,
    /// Transient analysis.
    Tran { t_step: Real, t_stop: Real, uic: bool },
    /// Frequency sweep, so many points per decade.
    AcDec { points_per_decade: usize, f_start: Real, f_stop: Real },
    /// Sweep of a source.
    DcSweep { source: String, start: Real, stop: Real, step: Real },
}

impl Analysis {
    /// Whether the run leaves a waveform behind.
    pub open spec fn has_waveform(self) -> bool {
        self is Tran || self is AcDec
    }

    pub fn leaves_waveform(&self) -> (res: bool)
        ensures
            res == self.has_waveform(),
    {
        match self {
            Analysis::Tran { .. } => true,
            Analysis::AcDec { .. } => true,
            _ => false,
        }
    }
}

/// A testbench: builds the deck of a corner, names the measurements and the
/// analysis.
pub trait Testbench {
    /// Stable name, used as a prefix of file names.
    fn name(&self) -> &str;

    /// The elements, sources and libraries of one corner.
    fn build_netlist(&self, corner: &Corner) -> Netlist;

    /// What to read back from a run.
    fn measurements(&self) -> Vec<Measurement>;

    /// Which analysis to run.
    fn analysis(&self) -> Analysis;

    /// Signals to plot although their names look internal.
    fn plot_signals(&self) -> Vec<String> {
        Vec::new()
    }

    /// Measurements computed from the results of others.
    fn derive(&self, _measures: &MeasureLog) -> Vec<(String, Real)> {
        Vec::new()
    }

    /// Layout verification of this corner.
    fn verify(&self, _corner: &Corner, _measures: &MeasureLog) -> VerifyReport {
        VerifyReport::empty()
    }
}

// ── the deck ───────────────────────────────────────────────────────

pub open spec fn sci10(r: Real) -> Seq<char> {
    numfmt::scientific(r, 10)
}

/// The directive that starts the analysis.
pub open spec fn analysis_line(a: Analysis) -> Seq<char> {
    match a {
        Analysis::Op => "op\n"@,
        Analysis::Tran { t_step, t_stop, uic } => "tran "@ + sci10(t_step) + " "@ + sci10(t_stop)
            + (if uic {
            " uic"@
        } else {
            ""@
        }) + "\n"@,
        Analysis::AcDec { points_per_decade, f_start, f_stop } => "ac dec "@ + text::dec(
            points_per_decade as nat,
        ) + " "@ + sci10(f_start) + " "@ + sci10(f_stop) + "\n"@,
        Analysis::DcSweep { source, start, stop, step } => "dc "@ + source@ + " "@ + sci10(start)
            + " "@ + sci10(stop) + " "@ + sci10(step) + "\n"@,
    }
}

/// The lines that have one measurement taken and printed.
pub open spec fn measurement_lines(a: Analysis, m: Measurement) -> Seq<char> {
    (match a {
        Analysis::Op => "let "@ + m.name@ + " = "@ + m.body@,
        Analysis::Tran { .. } => m.meas_line("tran"@),
        Analysis::AcDec { .. } => m.meas_line("ac"@),
        Analysis::DcSweep { .. } => m.meas_line("dc"@),
    }) + "\nprint "@ + m.name@ + "\n"@
}

/// The lines that have the measurements taken and printed, in order.
pub open spec fn all_measurement_lines(a: Analysis, ms: Seq<Measurement>) -> Seq<char>
    decreases ms.len(),
{
    if ms.len() == 0 {
        Seq::empty()
    } else {
        all_measurement_lines(a, ms.drop_last()) + measurement_lines(a, ms.last())
    }
}

/// The line that fixes the random numbers of a Monte Carlo run.
pub open spec fn seed_line(seed: Option<u64>) -> Seq<char> {
    match seed {
        Some(n) => "set rndseed="@ + text::dec(n as nat) + "\n"@,
        None => ""@,
    }
}

/// The whole deck: the netlist, and a control block with the analysis and the
/// measurements.
pub open spec fn deck_text(
    nl: Netlist,
    corner: Corner,
    a: Analysis,
    ms: Seq<Measurement>,
) -> Seq<char> {
    nl.deck_text() + ".options temp="@ + numfmt::shortest(corner.temp_c)
        + "\n.control\nset ngbehavior=hsa\n"@ + seed_line(corner.seed) + analysis_line(a)
        + all_measurement_lines(a, ms) + ".endc\n.end\n"@
}

fn analysis_string(a: &Analysis) -> (res: String)
    ensures
        res@ == analysis_line(*a),
{
    match a {
        Analysis::Op => "op\n".to_owned(),
        Analysis::Tran { t_step, t_stop, uic } => {
            let mut s = "tran ".to_owned();
            s.append(numfmt::to_scientific(*t_step, 10).as_str());
            s.append(" ");
            s.append(numfmt::to_scientific(*t_stop, 10).as_str());
            s.append(
                if *uic {
                    " uic"
                } else {
                    ""
                },
            );
            s.append("\n");
            s
        },
        Analysis::AcDec { points_per_decade, f_start, f_stop } => {
            let mut s = "ac dec ".to_owned();
            s.append(text::usize_to_string(*points_per_decade).as_str());
            s.append(" ");
            s.append(numfmt::to_scientific(*f_start, 10).as_str());
            s.append(" ");
            s.append(numfmt::to_scientific(*f_stop, 10).as_str());
            s.append("\n");
            s
        },
        Analysis::DcSweep { source, start, stop, step } => {
            let mut s = "dc ".to_owned();
            s.append(source.as_str());
            s.append(" ");
            s.append(numfmt::to_scientific(*start, 10).as_str());
            s.append(" ");
            s.append(numfmt::to_scientific(*stop, 10).as_str());
            s.append(" ");
            s.append(numfmt::to_scientific(*step, 10).as_str());
            s.append("\n");
            s
        },
    }
}

fn measurement_string(a: &Analysis, m: &Measurement) -> (res: String)
    ensures
        res@ == measurement_lines(*a, *m),
{
    let mut s = match a {
        Analysis::Op => {
            let mut t = "let ".to_owned();
            t.append(m.name.as_str());
            t.append(" = ");
            t.append(m.body.as_str());
            t
        },
        Analysis::Tran { .. } => m.to_meas_line("tran"),
        Analysis::AcDec { .. } => m.to_meas_line("ac"),
        Analysis::DcSweep { .. } => m.to_meas_line("dc"),
    };
    s.append("\nprint ");
    s.append(m.name.as_str());
    s.append("\n");
    s
}

fn all_measurements_string(a: &Analysis, ms: &Vec<Measurement>) -> (res: String)
    ensures
        res@ == all_measurement_lines(*a, ms@),
{
    let mut s = String::new();
    let mut i: usize = 0;
    assert(ms@.take(0) =~= Seq::empty());
    while i < ms.len()
        invariant
            i <= ms.len(),
            s@ == all_measurement_lines(*a, ms@.take(i as int)),
        decreases ms.len() - i,
    {
        s.append(measurement_string(a, &ms[i]).as_str());
        i = i + 1;
        assert(ms@.take(i as int).drop_last() =~= ms@.take(i - 1));
    }
    assert(ms@.take(ms@.len() as int) =~= ms@);
    s
}

/// Builds the whole deck of a run.
pub fn build_deck(
    nl: &Netlist,
    corner: &Corner,
    analysis: &Analysis,
    measurements: &Vec<Measurement>,
) -> (res: String)
    ensures
        res@ == deck_text(*nl, *corner, *analysis, measurements@),
{
    let mut s = nl.deck();
    s.append(".options temp=");
    s.append(numfmt::to_shortest(corner.temp_c).as_str());
    s.append("\n.control\nset ngbehavior=hsa\n");
    let seed = match corner.seed {
        Some(n) => {
            let mut t = "set rndseed=".to_owned();
            t.append(text::u64_to_string(n).as_str());
            t.append("\n");
            t
        },
        None => "".to_owned(),
    };
    s.append(seed.as_str());
    s.append(analysis_string(analysis).as_str());
    s.append(all_measurements_string(analysis, measurements).as_str());
    s.append(".endc\n.end\n");
    s
}

/// The deck with a directive that writes the waveform, where the analysis
/// leaves one.
pub open spec fn with_write(deck: Seq<char>, a: Analysis, raw_path: Seq<char>) -> Seq<char> {
    if a.has_waveform() {
        text::replaced(deck, ".endc"@, "write "@ + raw_path + " all\n.endc"@)
    } else {
        deck
    }
}

/// Has the waveform written to `raw_path`, where the analysis leaves one.
pub fn inject_write(deck: &str, analysis: &Analysis, raw_path: &str) -> (res: String)
    ensures
        res@ == with_write(deck@, *analysis, raw_path@),
{
    if analysis.leaves_waveform() {
        let mut to = "write ".to_owned();
        to.append(raw_path);
        to.append(" all\n.endc");
        proof {
            reveal_strlit(".endc");
        }
        text::replace_all(deck, ".endc", to.as_str())
    } else {
        deck.to_owned()
    }
}

// ── libraries that a deck refers to ────────────────────────────────

/// `s` without the quotes around it.
pub open spec fn quotes_front(s: Seq<char>, i: int) -> int
    decreases s.len() - i,
{
    if 0 <= i < s.len() && (s[i] == '"' || s[i] == '\'') {
        quotes_front(s, i + 1)
    } else {
        i
    }
}

/// `s` without the quotes behind it.
pub open spec fn quotes_back(s: Seq<char>) -> Seq<char>
    decreases s.len(),
{
    if s.len() > 0 && (s.last() == '"' || s.last() == '\'') {
        quotes_back(s.drop_last())
    } else {
        s
    }
}

/// `s` without the quotes around it.
pub open spec fn unquoted(s: Seq<char>) -> Seq<char> {
    quotes_back(s.skip(quotes_front(s, 0)))
}

/// The first word behind the directive, if there is one.
pub open spec fn first_word(s: Seq<char>) -> Option<Seq<char>> {
    let a = text::skip_white(s, 0);
    if a >= s.len() {
        None
    } else {
        Some(s.subrange(a, text::word_end(s, a)))
    }
}

/// The path that a preamble line refers to by the directive `prefix`.
pub open spec fn path_behind(line: Seq<char>, prefix: Seq<char>) -> Option<Seq<char>> {
    let t = text::trim_front(line);
    if text::starts_with(t, prefix) {
        match first_word(t.skip(prefix.len() as int)) {
            Some(w) => Some(unquoted(w)),
            None => None,
        }
    } else {
        None
    }
}

/// `s` and the path, if there is one.
pub open spec fn push_opt(s: Seq<Seq<char>>, p: Option<Seq<char>>) -> Seq<Seq<char>> {
    match p {
        Some(x) => s.push(x),
        None => s,
    }
}

/// The directives that refer to another file.
pub open spec fn lib_directives() -> Seq<Seq<char>> {
    seq![".lib"@, ".LIB"@, ".include"@, ".INCLUDE"@]
}

/// The paths that the preamble lines refer to, in order.
pub open spec fn lib_paths(lines: Seq<Seq<char>>) -> Seq<Seq<char>>
    decreases lines.len(),
{
    if lines.len() == 0 {
        Seq::empty()
    } else {
        let l = lines.last();
        let d = lib_directives();
        push_opt(
            push_opt(
                push_opt(
                    push_opt(lib_paths(lines.drop_last()), path_behind(l, d[0])),
                    path_behind(l, d[1]),
                ),
                path_behind(l, d[2]),
            ),
            path_behind(l, d[3]),
        )
    }
}

fn unquote(s: &str) -> (res: String)
    ensures
        res@ == unquoted(s@),
{
    let v = text::chars_of(s);
    let mut a: usize = 0;
    while a < v.len() && (v[a] == '"' || v[a] == '\'')
        invariant
            a <= v.len(),
            quotes_front(v@, 0) == quotes_front(v@, a as int),
        decreases v.len() - a,
    {
        a = a + 1;
    }
    let mut b: usize = v.len();
    let ghost front = v@.skip(a as int);
    assert(v@.subrange(a as int, b as int) =~= front);
    while b > a && (v[b - 1] == '"' || v[b - 1] == '\'')
        invariant
            a <= b <= v.len(),
            quotes_back(front) == quotes_back(v@.subrange(a as int, b as int)),
        decreases b,
    {
        assert(v@.subrange(a as int, b as int).drop_last() =~= v@.subrange(a as int, b - 1));
        b = b - 1;
    }
    text::slice_string(&v, a, b)
}

fn find_path(line: &str, prefix: &str) -> (res: Option<String>)
    ensures
        paths::opt_text(res) == path_behind(line@, prefix@),
{
    let t = text::trimmed_front(line);
    if !text::has_prefix(t.as_str(), prefix) {
        return None;
    }
    let v = text::chars_of(t.as_str());
    let p = text::chars_of(prefix);
    let rest = text::slice_string(&v, p.len(), v.len());
    assert(rest@ =~= t@.skip(prefix@.len() as int));
    let r = text::chars_of(rest.as_str());
    let a: usize = text::skip_white_from(&r, 0);
    if a >= r.len() {
        return None;
    }
    let e: usize = text::word_end_from(&r, a);
    let w = text::slice_string(&r, a, e);
    Some(unquote(w.as_str()))
}

fn push_path(out: &mut Vec<String>, p: Option<String>)
    ensures
        text::texts(final(out)@) == push_opt(text::texts(old(out)@), paths::opt_text(p)),
{
    match p {
        Some(x) => {
            let ghost before = out@;
            out.push(x);
            assert(text::texts(out@) =~= text::texts(before).push(x@));
        },
        None => {},
    }
}

/// The files that the preamble of a netlist refers to.
pub fn collect_lib_paths(nl: &Netlist) -> (res: Vec<String>)
    ensures
        text::texts(res@) == lib_paths(text::texts(nl.preamble@)),
{
    let mut out: Vec<String> = Vec::new();
    let ghost lines = text::texts(nl.preamble@);
    let mut i: usize = 0;
    assert(text::texts(out@) =~= Seq::empty());
    assert(lines.take(0) =~= Seq::empty());
    while i < nl.preamble.len()
        invariant
            i <= nl.preamble.len(),
            lines == text::texts(nl.preamble@),
            text::texts(out@) == lib_paths(lines.take(i as int)),
        decreases nl.preamble.len() - i,
    {
        assert(lines.take(i + 1).drop_last() =~= lines.take(i as int));
        assert(lines.take(i + 1).last() == nl.preamble@[i as int]@);
        push_path(&mut out, find_path(nl.preamble[i].as_str(), ".lib"));
        push_path(&mut out, find_path(nl.preamble[i].as_str(), ".LIB"));
        push_path(&mut out, find_path(nl.preamble[i].as_str(), ".include"));
        push_path(&mut out, find_path(nl.preamble[i].as_str(), ".INCLUDE"));
        i = i + 1;
    }
    assert(lines.take(lines.len() as int) =~= lines);
    out
}

// ── diagnostics ────────────────────────────────────────────────────

/// Whether a line of the simulator's error output says what is wrong.
pub open spec fn is_diagnostic(t: Seq<char>) -> bool {
    ||| text::contains(t, "Error in netlist line"@)
    ||| text::contains(t, "Syntax error"@)
    ||| text::contains(t, "could not find a valid modelname"@)
    ||| text::contains(t, "incomplete or empty netlist"@)
    ||| text::contains(t, "fatal error"@)
    ||| text::contains(t, "Error:"@)
    ||| text::starts_with(t, "Error"@)
    ||| text::starts_with(t, "ERROR"@)
}

/// The first line that says what is wrong, without white space around it.
pub open spec fn first_diagnostic(lines: Seq<Seq<char>>) -> Option<Seq<char>>
    decreases lines.len(),
{
    if lines.len() == 0 {
        None
    } else {
        let t = text::trim(lines[0]);
        if t.len() > 0 && is_diagnostic(t) {
            Some(t)
        } else {
            first_diagnostic(lines.skip(1))
        }
    }
}

fn diagnostic(t: &str) -> (res: bool)
    ensures
        res == is_diagnostic(t@),
{
    text::contains_text(t, "Error in netlist line") || text::contains_text(t, "Syntax error")
        || text::contains_text(t, "could not find a valid modelname") || text::contains_text(
        t,
        "incomplete or empty netlist",
    ) || text::contains_text(t, "fatal error") || text::contains_text(t, "Error:")
        || text::has_prefix(t, "Error") || text::has_prefix(t, "ERROR")
}

/// Pulls the first diagnostic line out of the simulator's error output.
pub fn extract_first_ngspice_error(stderr: &str) -> (res: Option<String>)
    ensures
        paths::opt_text(res) == first_diagnostic(text::lines(stderr@)),
{
    let lines = text::split_lines(stderr);
    let ghost all = text::texts(lines@);
    let mut i: usize = 0;
    assert(all.skip(0) =~= all);
    while i < lines.len()
        invariant
            i <= lines.len(),
            all == text::texts(lines@),
            all == text::lines(stderr@),
            first_diagnostic(all) == first_diagnostic(all.skip(i as int)),
        decreases lines.len() - i,
    {
        assert(all.skip(i as int)[0] == lines@[i as int]@);
        assert(all.skip(i as int).skip(1) =~= all.skip(i + 1));
        let t = text::trimmed(lines[i].as_str());
        if !t.as_str().is_empty() && diagnostic(t.as_str()) {
            return Some(t);
        }
        i = i + 1;
    }
    None
}

/// A diagnostic is a line of the output without white space around it, is not empty, has no
/// line break and says what is wrong.
pub proof fn diagnostics_are_lines(stderr: Seq<char>)
    ensures
        first_diagnostic(text::lines(stderr)) matches Some(t) ==> t.len() > 0 && !t.contains('\n')
            && is_diagnostic(t) && exists|i: int|
            0 <= i < text::lines(stderr).len() && t == text::trim(
                #[trigger] text::lines(stderr)[i],
            ),
{
    let lines = text::lines(stderr);
    if first_diagnostic(lines) is Some {
        let i = lemma_diagnostic_line(lines);
        let t = first_diagnostic(lines)->0;
        text::lemma_no_break_in_line(stderr, 0, i);
        if t.contains('\n') {
            text::lemma_trim_is_part(lines[i], '\n');
        }
    }
}

proof fn lemma_diagnostic_line(lines: Seq<Seq<char>>) -> (i: int)
    requires
        first_diagnostic(lines) is Some,
    ensures
        0 <= i < lines.len(),
        first_diagnostic(lines) == Some(text::trim(lines[i])),
        text::trim(lines[i]).len() > 0,
        is_diagnostic(text::trim(lines[i])),
    decreases lines.len(),
{
    let t = text::trim(lines[0]);
    if t.len() > 0 && is_diagnostic(t) {
        0
    } else {
        let k = lemma_diagnostic_line(lines.skip(1));
        assert(lines.skip(1)[k] == lines[k + 1]);
        k + 1
    }
}

/// Output that holds no diagnostic can be put in front of any without a change: the first
/// one of both is that of the second.
pub proof fn noise_in_front_changes_nothing(noise: Seq<char>, rest: Seq<char>)
    requires
        first_diagnostic(text::lines(noise)) is None,
    ensures
        first_diagnostic(text::lines(noise + seq!['\n'] + rest)) == first_diagnostic(
            text::lines(rest),
        ),
{
    lemma_noise(noise, rest, 0);
}

proof fn lemma_noise(noise: Seq<char>, rest: Seq<char>, i: int)
    requires
        0 <= i <= noise.len(),
        first_diagnostic(text::lines_from(noise, i)) is None,
    ensures
        first_diagnostic(text::lines_from(noise + seq!['\n'] + rest, i)) == first_diagnostic(
            text::lines(rest),
        ),
    decreases noise.len() - i,
{
    let n = noise.len() as int;
    let head = noise + seq!['\n'];
    let all = head + rest;
    assert(all =~= noise + (seq!['\n'] + rest));
    assert(all[n] == '\n');
    text::lemma_line_end(noise, i);
    text::lemma_line_end_grows(noise, seq!['\n'] + rest, i);
    text::lemma_lines_behind(head, rest, 0);
    assert(text::lines_from(all, n + 1) == text::lines(rest));
    let e = text::line_end(noise, i);
    assert(text::line_end(all, n) == n);
    assert(text::line_end(all, i) == e);
    let first = text::line_text(all, i, e);
    let more = text::lines_from(all, e + 1);
    let found = text::lines_from(all, i);
    assert(found == seq![first] + more);
    assert(found.skip(1) =~= more);
    assert(all.subrange(i, e) =~= noise.subrange(i, e));
    if i < n {
        let line = text::line_text(noise, i, e);
        let behind = text::lines_from(noise, i).skip(1);
        if e > i {
            assert(all[e - 1] == noise[e - 1]);
            assert(all.subrange(i, e - 1) =~= noise.subrange(i, e - 1));
            if e == n && noise[e - 1] == '\r' {
                assert(line =~= first.push('\r'));
                text::lemma_trim_white_end(first, '\r');
            }
        }
        assert(text::trim(first) == text::trim(line));
        if e < n {
            assert(behind =~= text::lines_from(noise, e + 1));
            lemma_noise(noise, rest, e + 1);
        }
    } else {
        assert(first =~= Seq::empty());
        lemma_trim_empty();
    }
}

proof fn lemma_trim_empty()
    ensures
        text::trim(Seq::empty()).len() == 0,
{
    assert(text::trim_front(Seq::empty()) =~= Seq::empty());
}

// ── signals ────────────────────────────────────────────────────────

/// A name without hierarchy and without internal nodes.
pub open spec fn is_plain(s: Seq<char>) -> bool {
    !s.contains('.') && !s.contains('#')
}

/// Whether a signal is a quantity of the circuit itself: a node voltage, a
/// source current or a branch current, not an internal node of a model.
pub open spec fn user_signal(name: Seq<char>) -> bool {
    if name == "time"@ || name == "frequency"@ {
        true
    } else if text::ends_with(name, "#branch"@) {
        is_plain(name.take(name.len() - "#branch"@.len()))
    } else {
        let l = text::lower(name);
        (text::starts_with(l, "v("@) || text::starts_with(l, "i("@)) && l.len() > 2 && l.last()
            == ')' && is_plain(l.subrange(2, l.len() - 1))
    }
}

fn plain(v: &Vec<char>, from: usize, to: usize) -> (res: bool)
    requires
        from <= to <= v.len(),
    ensures
        res == is_plain(v@.subrange(from as int, to as int)),
{
    let s = text::slice_string(v, from, to);
    !text::contains_char(s.as_str(), '.') && !text::contains_char(s.as_str(), '#')
}

fn lower_chars(v: &Vec<char>) -> (res: Vec<char>)
    ensures
        res@ == text::lower(v@),
{
    let mut out: Vec<char> = Vec::new();
    let mut i: usize = 0;
    while i < v.len()
        invariant
            i <= v.len(),
            out@ == text::lower(v@).take(i as int),
        decreases v.len() - i,
    {
        out.push(text::to_lower_ascii(v[i]));
        i = i + 1;
        assert(out@ =~= text::lower(v@).take(i as int));
    }
    assert(out@ =~= text::lower(v@));
    out
}

/// Whether a signal is a quantity of the circuit itself.
pub fn is_user_signal(name: &str) -> (res: bool)
    ensures
        res == user_signal(name@),
{
    if text::same(name, "time") || text::same(name, "frequency") {
        return true;
    }
    let v = text::chars_of(name);
    if text::has_suffix(name, "#branch") {
        proof {
            reveal_strlit("#branch");
        }
        assert(v@.subrange(0, v@.len() - 7) =~= name@.take(name@.len() - 7));
        return plain(&v, 0, v.len() - 7);
    }
    let l = lower_chars(&v);
    proof {
        reveal_strlit("v(");
        reveal_strlit("i(");
        if l@.len() >= 2 {
            assert(l@.take(2) =~= seq![l@[0], l@[1]]);
            assert("v("@ =~= seq!['v', '(']);
            assert("i("@ =~= seq!['i', '(']);
            if l@.take(2) == "v("@ {
                assert(l@.take(2)[0] == 'v');
                assert(l@.take(2)[1] == '(');
            }
            if l@.take(2) == "i("@ {
                assert(l@.take(2)[0] == 'i');
                assert(l@.take(2)[1] == '(');
            }
        }
    }
    if l.len() > 2 && (l[0] == 'v' || l[0] == 'i') && l[1] == '(' && l[l.len() - 1] == ')' {
        plain(&l, 2, l.len() - 1)
    } else {
        false
    }
}

/// Whether the signal is kept: asked for by name, or a quantity of the circuit.
pub open spec fn keeps(name: Seq<char>, extra: Seq<Seq<char>>) -> bool {
    extra.contains(name) || user_signal(name)
}

/// Whether the `k`-th variable is kept: behind the axis, kept by name, and with as many
/// samples as the axis.
pub open spec fn kept(
    names: Seq<Seq<char>>,
    samples: Seq<usize>,
    extra: Seq<Seq<char>>,
    k: int,
) -> bool {
    1 <= k < names.len() && keeps(names[k], extra) && samples[k] == samples[0]
}

/// Whether positions are those of the signals to plot: in ascending order of their names,
/// and one for each name that is kept, the last one of that name.
pub open spec fn is_selection(
    res: Seq<usize>,
    names: Seq<Seq<char>>,
    samples: Seq<usize>,
    extra: Seq<Seq<char>>,
) -> bool {
    &&& forall|i: int, j: int|
        0 <= i < j < res.len() ==> ordmap::name_lt(
            names[#[trigger] res[i] as int],
            names[#[trigger] res[j] as int],
        )
    &&& forall|i: int|
        0 <= i < res.len() ==> last_of_name(names, samples, extra, #[trigger] res[i] as int)
    &&& forall|k: int| #[trigger]
        last_of_name(names, samples, extra, k) ==> res.contains(k as usize)
}

/// Whether the `k`-th variable is kept, and none of the same name behind it.
pub open spec fn last_of_name(
    names: Seq<Seq<char>>,
    samples: Seq<usize>,
    extra: Seq<Seq<char>>,
    k: int,
) -> bool {
    kept(names, samples, extra, k) && forall|m: int| #[trigger]
        kept(names, samples, extra, m) && k < m ==> names[m] != names[k]
}

fn listed(name: &str, extra: &Vec<String>) -> (res: bool)
    ensures
        res == text::texts(extra@).contains(name@),
{
    let ghost e = text::texts(extra@);
    let mut i: usize = 0;
    while i < extra.len()
        invariant
            i <= extra.len(),
            e == text::texts(extra@),
            forall|j: int| 0 <= j < i ==> e[j] != name@,
        decreases extra.len() - i,
    {
        assert(e[i as int] == extra@[i as int]@);
        if text::same(extra[i].as_str(), name) {
            assert(e[i as int] == name@);
            return true;
        }
        i = i + 1;
    }
    false
}

/// What is known of the kept ones among the first `n` variables: under each name the
/// position of the last.
spec fn holds_last(
    m: Map<Seq<char>, usize>,
    names: Seq<Seq<char>>,
    samples: Seq<usize>,
    extra: Seq<Seq<char>>,
    n: int,
) -> bool {
    &&& forall|x: Seq<char>| #[trigger]
        m.contains_key(x) ==> m[x] < n && kept(names, samples, extra, m[x] as int)
            && names[m[x] as int] == x
    &&& forall|k: int| #[trigger]
        kept(names, samples, extra, k) && k < n ==> m.contains_key(names[k]) && k <= m[names[k]]
}

/// Picks the signals of a waveform to plot, in the order of their names. `names` and
/// `samples` list every variable with its number of samples, the axis first.
pub fn select_signals(names: &Vec<String>, samples: &Vec<usize>, extra: &Vec<String>) -> (res: Vec<
    usize,
>)
    requires
        names@.len() == samples@.len(),
    ensures
        is_selection(res@, text::texts(names@), samples@, text::texts(extra@)),
{
    let ghost ns = text::texts(names@);
    let ghost ex = text::texts(extra@);
    let mut found: NameMap<usize> = NameMap::new();
    let mut i: usize = 1;
    while i < names.len()
        invariant
            1 <= i,
            names@.len() == samples@.len(),
            ns == text::texts(names@),
            ns.len() == names@.len(),
            ex == text::texts(extra@),
            holds_last(found@, ns, samples@, ex, i as int),
        decreases names.len() - i,
    {
        assert(ns[i as int] == names@[i as int]@);
        let keep = (listed(names[i].as_str(), extra) || is_user_signal(names[i].as_str()))
            && samples[i] == samples[0];
        assert(keep == kept(ns, samples@, ex, i as int));
        if keep {
            found.set(names[i].as_str(), i);
        }
        i = i + 1;
    }
    let n: usize = found.len();
    let ghost list = found.listing();
    let mut out: Vec<usize> = Vec::new();
    let mut k: usize = 0;
    while k < n
        invariant
            k <= n,
            n == list.len(),
            list == found.listing(),
            out@.len() == k,
            forall|j: int| 0 <= j < k ==> #[trigger] out@[j] == list[j].1,
        decreases n - k,
    {
        out.push(found.value_at(k));
        k = k + 1;
    }
    proof {
        lemma_selection(out@, list, ns, samples@, ex);
    }
    out
}

proof fn lemma_selection(
    res: Seq<usize>,
    list: Seq<(String, usize)>,
    names: Seq<Seq<char>>,
    samples: Seq<usize>,
    extra: Seq<Seq<char>>,
)
    requires
        names.len() == samples.len(),
        names.len() <= usize::MAX,
        ordmap::ascending(list),
        holds_last(ordmap::entries_map(list), names, samples, extra, names.len() as int),
        res.len() == list.len(),
        forall|j: int| 0 <= j < res.len() ==> #[trigger] res[j] == list[j].1,
    ensures
        is_selection(res, names, samples, extra),
{
    let m = ordmap::entries_map(list);
    assert forall|j: int| 0 <= j < res.len() implies m.contains_key(list[j].0@)
        && m[list[j].0@] == #[trigger] res[j] && names[res[j] as int] == list[j].0@ by {
        ordmap::lemma_map_at(list, j);
    }
    assert forall|i: int, j: int| 0 <= i < j < res.len() implies ordmap::name_lt(
        names[#[trigger] res[i] as int],
        names[#[trigger] res[j] as int],
    ) by {
        assert(ordmap::name_lt(list[i].0@, list[j].0@));
    }
    assert forall|k: int| #[trigger] last_of_name(names, samples, extra, k) implies res.contains(
        k as usize,
    ) by {
        assert(kept(names, samples, extra, k));
        let x = names[k];
        assert(m.contains_key(x));
        assert(kept(names, samples, extra, m[x] as int));
        let p = ordmap::position(list, x);
        assert(ordmap::has_name(list, x));
        assert(res[p] == list[p].1);
    }
}

// ── what a run comes to ────────────────────────────────────────────

/// One corner's results.
#[derive(Debug)]
pub struct RunOutcome {
    pub corner: Corner,
    pub deck: String,
    pub sha: String,
    pub from_cache: bool,
    pub stdout: String,
    pub measures: MeasureLog,
    /// Whether the run left a waveform.
    pub has_waveform: bool,
    /// Outcome for each spec, in the order of the specs.
    pub spec_checks: Vec<(String, SpecCheck)>,
    pub verify: VerifyReport,
    /// When the run finished, in seconds since the epoch.
    pub ran_at: Real,
}

impl RunOutcome {
    /// No spec failed and no verifier found anything.
    pub open spec fn passed(self) -> bool {
        (forall|i: int|
            0 <= i < self.spec_checks@.len() ==> !((#[trigger] self.spec_checks@[i]).1 is Fail))
            && self.verify.clean()
    }

    /// True iff no spec failed and every verifier that ran was clean.
    pub fn ok(&self) -> (res: bool)
        ensures
            res == self.passed(),
    {
        let mut i: usize = 0;
        while i < self.spec_checks.len()
            invariant
                i <= self.spec_checks.len(),
                forall|j: int| 0 <= j < i ==> !((#[trigger] self.spec_checks@[j]).1 is Fail),
            decreases self.spec_checks.len() - i,
        {
            if self.spec_checks[i].1.is_fail() {
                return false;
            }
            i = i + 1;
        }
        self.verify.is_clean()
    }
}

/// The results with the derived ones written over them.
pub open spec fn with_derived(
    m: Map<Seq<char>, MeasurementValue>,
    derived: Seq<(String, Real)>,
) -> Map<Seq<char>, MeasurementValue>
    decreases derived.len(),
{
    if derived.len() == 0 {
        m
    } else {
        with_derived(m, derived.drop_last()).insert(
            derived.last().0@,
            MeasurementValue::Number(derived.last().1),
        )
    }
}

/// Writes derived measurements into the log.
pub fn fold_derived(log: &mut MeasureLog, derived: &Vec<(String, Real)>)
    ensures
        final(log).values@ == with_derived(old(log).values@, derived@),
{
    let mut i: usize = 0;
    assert(derived@.take(0) =~= Seq::empty());
    while i < derived.len()
        invariant
            i <= derived.len(),
            log.values@ == with_derived(old(log).values@, derived@.take(i as int)),
        decreases derived.len() - i,
    {
        log.values.set(derived[i].0.as_str(), MeasurementValue::Number(derived[i].1));
        i = i + 1;
        assert(derived@.take(i as int).drop_last() =~= derived@.take(i - 1));
    }
    assert(derived@.take(derived@.len() as int) =~= derived@);
}

/// The number measured under `name`, if any.
pub open spec fn measured_number(m: Map<Seq<char>, MeasurementValue>, name: Seq<char>) -> Option<
    Real,
> {
    if m.contains_key(name) {
        m[name].number()
    } else {
        None
    }
}

/// Outcome of every spec, in order.
pub open spec fn checks_of(
    m: Map<Seq<char>, MeasurementValue>,
    specs: Seq<Spec>,
) -> Seq<(Seq<char>, SpecCheck)> {
    specs.map_values(|sp: Spec| (sp.name@, sp.outcome(measured_number(m, sp.name@))))
}

/// The names and outcomes that a list of checks holds.
pub open spec fn check_models(s: Seq<(String, SpecCheck)>) -> Seq<(Seq<char>, SpecCheck)> {
    s.map_values(|c: (String, SpecCheck)| (c.0@, c.1))
}

/// Holds the log against every spec.
pub fn check_specs(log: &MeasureLog, specs: &SpecBundle) -> (res: Vec<(String, SpecCheck)>)
    ensures
        check_models(res@) == checks_of(log.values@, specs.specs@),
{
    let mut out: Vec<(String, SpecCheck)> = Vec::new();
    let ghost want = checks_of(log.values@, specs.specs@);
    let mut i: usize = 0;
    while i < specs.specs.len()
        invariant
            i <= specs.specs.len(),
            want == checks_of(log.values@, specs.specs@),
            check_models(out@) == want.take(i as int),
        decreases specs.specs.len() - i,
    {
        let sp = &specs.specs[i];
        let m = match log.get(sp.name.as_str()) {
            Some(v) => v.as_number(),
            None => None,
        };
        let ghost before = out@;
        let c = (sp.name.clone(), sp.check(m));
        out.push(c);
        i = i + 1;
        assert(m == measured_number(log.values@, sp.name@));
        assert(want[i - 1] == (c.0@, c.1));
        assert(check_models(out@) =~= check_models(before).push((c.0@, c.1)));
        assert(check_models(out@) =~= want.take(i as int));
    }
    assert(want.take(want.len() as int) =~= want);
    out
}

// ── the runner ─────────────────────────────────────────────────────

/// Why a batch of runs stopped.
#[derive(Debug)]
pub enum HarnessError {
    Cache(CacheError),
    /// The simulator failed; `first_error` is the first line that says why.
    NgspiceFailed {
        code: Option<i32>,
        stderr: String,
        stderr_lines: usize,
        first_error: Option<String>,
    },
    BinaryNotFound,
    Nutmeg(String),
    Io(String),
}

/// An exit code as it is shown.
pub open spec fn code_text(code: Option<i32>) -> Seq<char> {
    match code {
        Some(c) => "Some("@ + text::dec_int(c as int) + ")"@,
        None => "None"@,
    }
}

impl HarnessError {
    pub open spec fn text(self) -> Seq<char> {
        match self {
            HarnessError::Cache(e) => "cache: "@ + e.text(),
            HarnessError::NgspiceFailed { code, stderr: _, stderr_lines, first_error } => {
                "ngspice exited "@ + code_text(code) + (match first_error {
                    Some(e) => "\n  → "@ + e@,
                    None => Seq::empty(),
                }) + "\n  full stderr ("@ + text::dec(stderr_lines as nat)
                    + " lines suppressed; set RLX_EDA_VERBOSE=1)"@
            },
            HarnessError::BinaryNotFound => "ngspice binary not found on PATH (set NGSPICE_BIN to override)"@,
            HarnessError::Nutmeg(m) => "nutmeg: "@ + m@,
            HarnessError::Io(m) => "io: "@ + m@,
        }
    }

    /// Human-readable form of the error.
    pub fn message(&self) -> (res: String)
        ensures
            res@ == self.text(),
    {
        match self {
            HarnessError::Cache(e) => {
                let mut s = "cache: ".to_owned();
                s.append(e.message().as_str());
                s
            },
            HarnessError::NgspiceFailed { code, stderr: _, stderr_lines, first_error } => {
                let mut s = "ngspice exited ".to_owned();
                match code {
                    Some(c) => {
                        let mut t = "Some(".to_owned();
                        t.append(text::i64_to_string(*c as i64).as_str());
                        t.append(")");
                        s.append(t.as_str());
                    },
                    None => {
                        s.append("None");
                    },
                }
                match first_error {
                    Some(e) => {
                        let mut t = "\n  → ".to_owned();
                        t.append(e.as_str());
                        s.append(t.as_str());
                    },
                    None => {},
                }
                let ghost head = s@;
                assert(first_error is None ==> head =~= "ngspice exited "@ + code_text(*code)
                    + Seq::<char>::empty());
                s.append("\n  full stderr (");
                s.append(text::usize_to_string(*stderr_lines).as_str());
                s.append(" lines suppressed; set RLX_EDA_VERBOSE=1)");
                s
            },
            HarnessError::BinaryNotFound => "ngspice binary not found on PATH (set NGSPICE_BIN to override)".to_owned(),
            HarnessError::Nutmeg(m) => {
                let mut s = "nutmeg: ".to_owned();
                s.append(m.as_str());
                s
            },
            HarnessError::Io(m) => {
                let mut s = "io: ".to_owned();
                s.append(m.as_str());
                s
            },
        }
    }
}

/// Turns the error output of a failed simulator run into an error.
pub fn ngspice_failed(code: Option<i32>, stderr: String) -> (res: HarnessError)
    ensures
        res matches HarnessError::NgspiceFailed { code: c, stderr: e, stderr_lines, first_error }
            && c == code && e@ == stderr@ && stderr_lines == text::lines(stderr@).len()
            && paths::opt_text(first_error) == first_diagnostic(text::lines(stderr@)),
{
    let lines = text::split_lines(stderr.as_str());
    let n: usize = lines.len();
    let first_error = extract_first_ngspice_error(stderr.as_str());
    assert(text::texts(lines@).len() == n);
    HarnessError::NgspiceFailed { code, stderr, stderr_lines: n, first_error }
}

/// A testbench, the corners and specs to run it with, and where its files go.
pub struct Harness<'a, T: Testbench> {
    pub tb: &'a T,
    pub corners: Vec<Corner>,
    pub specs: SpecBundle,
    pub cache: Cache,
    pub output_dir: String,
    pub ngspice_bin: Option<String>,
}

/// What has to be known before a corner can be run.
pub struct PreparedRun {
    pub netlist: Netlist,
    pub analysis: Analysis,
    pub measurements: Vec<Measurement>,
    pub deck: String,
    pub lib_paths: Vec<String>,
}

impl<'a, T: Testbench> Harness<'a, T> {
    pub fn new(tb: &'a T) -> (res: Self)
        ensures
            res.tb == tb,
            res.corners@.len() == 0,
            res.specs.specs@.len() == 0,
            res.cache.mode == CacheMode::Off,
            res.cache.dir@ == "."@,
            res.output_dir@ == "results"@,
            res.ngspice_bin is None,
    {
        Harness {
            tb,
            corners: Vec::new(),
            specs: SpecBundle { specs: Vec::new() },
            cache: Cache::off(),
            output_dir: "results".to_owned(),
            ngspice_bin: None,
        }
    }

    pub fn corners(self, set: CornerSet) -> (res: Self)
        ensures
            res == (Harness { corners: set.corners, ..self }),
    {
        Harness { corners: set.corners, ..self }
    }

    pub fn specs(self, b: SpecBundle) -> (res: Self)
        ensures
            res == (Harness { specs: b, ..self }),
    {
        Harness { specs: b, ..self }
    }

    pub fn cache(self, c: Cache) -> (res: Self)
        ensures
            res == (Harness { cache: c, ..self }),
    {
        Harness { cache: c, ..self }
    }

    pub fn output_dir(self, p: String) -> (res: Self)
        ensures
            res == (Harness { output_dir: p, ..self }),
    {
        Harness { output_dir: p, ..self }
    }

    pub fn ngspice_bin(self, p: String) -> (res: Self)
        ensures
            res == (Harness { ngspice_bin: Some(p), ..self }),
    {
        Harness { ngspice_bin: Some(p), ..self }
    }

    /// Whether the simulator is needed at all.
    pub fn needs_simulator(&self) -> (res: bool)
        ensures
            res == (self.cache.mode != CacheMode::ReuseOnly),
    {
        self.cache.mode != CacheMode::ReuseOnly
    }

    /// Asks the testbench for the netlist, analysis and measurements of a
    /// corner and builds the deck from them.
    pub fn prepare(&self, corner: &Corner) -> (res: PreparedRun)
        ensures
            call_ensures(T::build_netlist, (self.tb, corner), res.netlist),
            call_ensures(T::analysis, (self.tb,), res.analysis),
            call_ensures(T::measurements, (self.tb,), res.measurements),
            res.deck@ == deck_text(res.netlist, *corner, res.analysis, res.measurements@),
            text::texts(res.lib_paths@) == lib_paths(text::texts(res.netlist.preamble@)),
    {
        let measurements = self.tb.measurements();
        let analysis = self.tb.analysis();
        let netlist = self.tb.build_netlist(corner);
        let deck = build_deck(&netlist, corner, &analysis, &measurements);
        let lib_paths = collect_lib_paths(&netlist);
        PreparedRun { netlist, analysis, measurements, deck, lib_paths }
    }

    /// Reads the results of a run: the requested measurements, what the
    /// testbench derives from them, the spec outcomes and the verification.
    pub fn assess(&self, corner: &Corner, run: &PreparedRun, stdout: &str) -> (res: (
        MeasureLog,
        Vec<(String, SpecCheck)>,
        VerifyReport,
    ))
        ensures
            check_models(res.1@) == checks_of(res.0.values@, self.specs.specs@),
            exists|log: MeasureLog, derived: Vec<(String, Real)>|
                log.values@ == crate::measure::requested_values(
                    stdout@,
                    run.measurements@,
                    run.measurements@.len(),
                ) && #[trigger] call_ensures(T::derive, (self.tb, &log), derived)
                    && res.0.values@ == with_derived(log.values@, derived@),
            call_ensures(T::verify, (self.tb, corner, &res.0), res.2),
    {
        let mut log = MeasureLog::parse(stdout, &run.measurements);
        let ghost parsed = log;
        let derived = self.tb.derive(&log);
        assert(call_ensures(T::derive, (self.tb, &parsed), derived));
        fold_derived(&mut log, &derived);
        let checks = check_specs(&log, &self.specs);
        let report = self.tb.verify(corner, &log);
        (log, checks, report)
    }
}

/// A run whose measured values all lie within their limits, and whose verifiers
/// found nothing, passes; one failure of either kind fails it.
pub proof fn outcome_needs_specs_and_verifiers(o: RunOutcome, i: int)
    ensures
        !o.verify.clean() ==> !o.passed(),
        0 <= i < o.spec_checks@.len() && o.spec_checks@[i].1 is Fail ==> !o.passed(),
{
}

/// A derived measurement takes the place of a simulated one of the same name.
pub proof fn derived_values_win(
    m: Map<Seq<char>, MeasurementValue>,
    derived: Seq<(String, Real)>,
    name: String,
    v: Real,
)
    ensures
        with_derived(m, derived.push((name, v)))[name@] == MeasurementValue::Number(v),
{
    assert(derived.push((name, v)).drop_last() =~= derived);
}

/// A run passes exactly where none of its specs failed and each of its three verifiers found
/// nothing or did not run.
pub proof fn runs_pass_without_a_fault(o: RunOutcome)
    ensures
        o.passed() <==> (forall|i: int|
            0 <= i < o.spec_checks@.len() ==> !((#[trigger] o.spec_checks@[i]).1 is Fail)) && (
        o.verify.drc is None || o.verify.drc->0.count == 0) && (o.verify.lvs is None
            || o.verify.lvs->0.count == 0) && (o.verify.em is None || o.verify.em->0.count == 0),
{
}

/// Specs are checked one by one and in order, each against what was measured under its own
/// name; one without a number is skipped.
pub proof fn specs_are_checked_against_their_own_measures(
    m: Map<Seq<char>, MeasurementValue>,
    specs: Seq<Spec>,
    i: int,
)
    requires
        0 <= i < specs.len(),
    ensures
        checks_of(m, specs).len() == specs.len(),
        checks_of(m, specs)[i].0 == specs[i].name@,
        m.contains_key(specs[i].name@) && m[specs[i].name@].number() is Some ==> checks_of(
            m,
            specs,
        )[i].1 == specs[i].outcome(m[specs[i].name@].number()),
        !m.contains_key(specs[i].name@) || m[specs[i].name@].number() is None ==> checks_of(
            m,
            specs,
        )[i].1 is Skipped,
{
}

/// Derived values are added under their names, the last one of a name; what is measured under
/// any other name stays as it is.
pub proof fn derived_values_touch_only_their_names(
    m: Map<Seq<char>, MeasurementValue>,
    derived: Seq<(String, Real)>,
    name: Seq<char>,
)
    ensures
        (forall|i: int| 0 <= i < derived.len() ==> (#[trigger] derived[i]).0@ != name) ==> (
        with_derived(m, derived).contains_key(name) == m.contains_key(name) && with_derived(
            m,
            derived,
        )[name] == m[name]),
        forall|i: int|
            #![trigger derived[i]]
            0 <= i < derived.len() && derived[i].0@ == name && (forall|j: int|
                i < j < derived.len() ==> (#[trigger] derived[j]).0@ != name) ==> with_derived(
                m,
                derived,
            ).contains_key(name) && with_derived(m, derived)[name] == MeasurementValue::Number(
                derived[i].1,
            ),
    decreases derived.len(),
{
    if derived.len() > 0 {
        let less = derived.drop_last();
        derived_values_touch_only_their_names(m, less, name);
        let last = derived.len() - 1;
        if forall|i: int| 0 <= i < derived.len() ==> (#[trigger] derived[i]).0@ != name {
            assert(derived[last].0@ != name);
            assert forall|i: int| 0 <= i < less.len() implies (#[trigger] less[i]).0@ != name by {
                assert(derived[i].0@ != name);
            }
        }
        assert forall|i: int|
            #![trigger derived[i]]
            0 <= i < derived.len() && derived[i].0@ == name && (forall|j: int|
                i < j < derived.len() ==> (#[trigger] derived[j]).0@ != name) implies with_derived(
            m,
            derived,
        ).contains_key(name) && with_derived(m, derived)[name] == MeasurementValue::Number(
            derived[i].1,
        ) by {
            if i < last {
                assert(derived[last].0@ != name);
                assert(less[i] == derived[i]);
                assert forall|j: int| i < j < less.len() implies (#[trigger] less[j]).0@ != name by {
                    assert(derived[j].0@ != name);
                }
            }
        }
    }
}

} // verus!
