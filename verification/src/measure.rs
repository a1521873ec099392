//! Measurements: declare a `.meas` line, and read its result back from the
//! simulator's output.

use crate::decimal;
use crate::double::Real;
use crate::liberty;
use crate::ordmap::NameMap;
use crate::text;
use vstd::prelude::*;
use vstd::string::*;

verus! {

/// One `.meas` directive.
#[derive(Debug)]
pub struct Measurement {
    /// Measure name; the key of the result.
    pub name: String,
    /// What stands behind `meas <analysis> <name>`.
    pub body: String,
    /// Unit for reports.
    pub unit: Option<String>,
}

impl Measurement {
    pub fn tran(name: &str, body: &str, unit: Option<&str>) -> (res: Self)
        ensures
            res.name@ == name@,
            res.body@ == body@,
            match unit {
                Some(u) => res.unit matches Some(v) && v@ == u@,
                None => res.unit is None,
            },
    {
        Measurement {
            name: name.to_owned(),
            body: body.to_owned(),
            unit: match unit {
                Some(u) => Some(u.to_owned()),
                None => None,
            },
        }
    }

    /// Average current drawn from a supply over the transient window.
    pub fn supply_current(name: &str, vdd_source: &str) -> (res: Self)
        ensures
            res.name@ == name@,
            res.body@ == "avg i(v"@ + vdd_source@ + ")"@,
            res.unit matches Some(u) && u@ == "A"@,
    {
        let mut body = "avg i(v".to_owned();
        body.append(vdd_source);
        body.append(")");
        Measurement::tran(name, body.as_str(), Some("A"))
    }

    /// Total charge drawn from a supply over the transient window.
    pub fn supply_charge(name: &str, vdd_source: &str) -> (res: Self)
        ensures
            res.name@ == name@,
            res.body@ == "integ i(v"@ + vdd_source@ + ")"@,
            res.unit matches Some(u) && u@ == "C"@,
    {
        let mut body = "integ i(v".to_owned();
        body.append(vdd_source);
        body.append(")");
        Measurement::tran(name, body.as_str(), Some("C"))
    }

    /// Name and value of the power that a measured average supply current
    /// draws from a constant supply.
    pub fn power_from_const_supply(
        log: &MeasureLog,
        current_name: &str,
        power_name: &str,
        vdd_v: Real,
    ) -> (res: Option<(String, Real)>)
        ensures
            match res {
                Some((n, p)) => {
                    &&& n@ == power_name@
                    &&& log.values@.contains_key(current_name@)
                    &&& log.values@[current_name@] matches MeasurementValue::Number(i)
                    &&& p == i.abs_spec().mul_spec(vdd_v)
                },
                None => !log.values@.contains_key(current_name@)
                    || log.values@[current_name@] is Failed,
            },
    {
        match log.get(current_name) {
            Some(MeasurementValue::Number(i)) => Some((power_name.to_owned(), i.abs().mul(vdd_v))),
            _ => None,
        }
    }

    /// The measurement as a line for `analysis_kind`.
    pub open spec fn meas_line(self, analysis_kind: Seq<char>) -> Seq<char> {
        "meas "@ + analysis_kind + " "@ + self.name@ + " "@ + self.body@
    }

    pub fn to_meas_line(&self, analysis_kind: &str) -> (res: String)
        ensures
            res@ == self.meas_line(analysis_kind@),
    {
        let mut s = "meas ".to_owned();
        s.append(analysis_kind);
        s.append(" ");
        s.append(self.name.as_str());
        s.append(" ");
        s.append(self.body.as_str());
        s
    }
}

/// Result of one measurement.
#[derive(Debug, Clone, Copy, PartialEq, Eq, Structural)]
pub enum MeasurementValue {
    Number(Real),
    /// The simulator printed `failed`, or no result at all.
    Failed,
}

impl MeasurementValue {
    pub open spec fn number(self) -> Option<Real> {
        match self {
            MeasurementValue::Number(v) => Some(v),
            MeasurementValue::Failed => None,
        }
    }

    pub fn as_number(self) -> (res: Option<Real>)
        ensures
            res == self.number(),
    {
        match self {
            MeasurementValue::Number(v) => Some(v),
            MeasurementValue::Failed => None,
        }
    }
}

/// Measure name to value, in the order of the names.
#[derive(Debug)]
pub struct MeasureLog {
    pub values: NameMap<MeasurementValue>,
}

/// `s` with every character in Unicode lower case.
pub uninterp spec fn lowercase_text(s: Seq<char>) -> Seq<char>;

/// `str::to_lowercase`: the lower case of every character, by the Unicode tables. Of ASCII
/// text it is the text with `A` to `Z` turned into `a` to `z`; what it makes of another
/// character is left unsaid.
#[verifier::external_body]
pub(crate) fn lowercase(s: &str) -> (res: String)
    ensures
        res@ == lowercase_text(s@),
        text::is_ascii(s@) ==> res@ == text::lower(s@),
{
    s.to_lowercase()
}

/// Number of bytes that UTF-8 spends on `s`.
pub open spec fn byte_length(s: Seq<char>) -> nat {
    liberty::byte_offset(s, s.len() as int)
}

/// The character position at byte offset `n`, if a character starts or the
/// text ends there.
pub open spec fn position_of_byte(s: Seq<char>, i: int, n: nat) -> Option<int>
    decreases s.len() - i,
{
    if liberty::byte_offset(s, i) == n {
        Some(i)
    } else if i < 0 || i >= s.len() {
        None
    } else {
        position_of_byte(s, i + 1, n)
    }
}

/// First position at or after `i` that holds neither white space nor an equals
/// sign, or the end.
pub open spec fn skip_equals(s: Seq<char>, i: int) -> int
    decreases s.len() - i,
{
    if 0 <= i < s.len() && (text::is_white(s[i]) || s[i] == '=') {
        skip_equals(s, i + 1)
    } else {
        i
    }
}

/// What the word `tok` says of a measurement, if anything.
pub open spec fn word_value(tok: Seq<char>) -> Option<MeasurementValue> {
    if text::lower(tok) == "failed"@ {
        Some(MeasurementValue::Failed)
    } else {
        match decimal::real_of_text(tok) {
            Some(r) => Some(MeasurementValue::Number(r)),
            None => None,
        }
    }
}

/// What `t`, a line without leading white space, says of the measurement whose
/// lower-case name is `lname`: the name must stand at the start of the line as
/// a word of its own.
pub open spec fn line_value(t: Seq<char>, lname: Seq<char>) -> Option<MeasurementValue> {
    line_value_lowered(t, lowercase_text(t), lname)
}

/// The same, given the line in lower case too.
pub open spec fn line_value_lowered(t: Seq<char>, low: Seq<char>, lname: Seq<char>) -> Option<
    MeasurementValue,
> {
    if !text::starts_with(low, lname) {
        None
    } else {
        match position_of_byte(t, 0, byte_length(lname)) {
            None => None,
            Some(k) => if k < t.len() && !(text::is_white(t[k]) || t[k] == '=') {
                None
            } else {
                let a = skip_equals(t, k);
                word_value(t.subrange(a, text::word_end(t, a)))
            },
        }
    }
}

/// What the first line that says something of the measurement says.
pub open spec fn scan_lines(lines: Seq<Seq<char>>, lname: Seq<char>) -> MeasurementValue
    decreases lines.len(),
{
    if lines.len() == 0 {
        MeasurementValue::Failed
    } else {
        match line_value(text::trim_front(lines[0]), lname) {
            Some(v) => v,
            None => scan_lines(lines.skip(1), lname),
        }
    }
}

/// The result of the measurement `name` in the simulator's output.
pub open spec fn measured(stdout: Seq<char>, name: Seq<char>) -> MeasurementValue {
    scan_lines(text::lines(stdout), lowercase_text(name))
}

/// Finds the character position at a byte offset.
pub fn find_byte(v: &Vec<char>, n: u128) -> (res: Option<usize>)
    ensures
        match res {
            Some(k) => position_of_byte(v@, 0, n as nat) == Some(k as int) && k <= v.len(),
            None => position_of_byte(v@, 0, n as nat) is None,
        },
{
    let mut i: usize = 0;
    let mut at: u128 = 0;
    loop
        invariant
            i <= v.len(),
            at == liberty::byte_offset(v@, i as int),
            at <= 4 * i,
            position_of_byte(v@, 0, n as nat) == position_of_byte(v@, i as int, n as nat),
        decreases v.len() - i,
    {
        if at == n {
            return Some(i);
        }
        if i >= v.len() {
            return None;
        }
        at = at + liberty::char_width(v[i]) as u128;
        i = i + 1;
    }
}

fn read_line(line: &str, lname: &str) -> (res: Option<MeasurementValue>)
    ensures
        res == line_value(text::trim_front(line@), lname@),
{
    let trimmed = text::trimmed_front(line);
    let low = lowercase(trimmed.as_str());
    value_of_lowered(trimmed.as_str(), low.as_str(), lname)
}

/// Reads what a line says of a measurement, given the line without leading white space, the
/// same in lower case, and the name of the measurement in lower case.
pub fn value_of_lowered(t: &str, low: &str, lname: &str) -> (res: Option<MeasurementValue>)
    ensures
        res == line_value_lowered(t@, low@, lname@),
{
    if !text::has_prefix(low, lname) {
        return None;
    }
    let t = text::chars_of(t);
    let name_chars = text::chars_of(lname);
    let n: u128 = liberty::offset_of(&name_chars, name_chars.len());
    let k: usize = match find_byte(&t, n) {
        Some(k) => k,
        None => {
            return None;
        },
    };
    if k < t.len() && !(text::white(t[k]) || t[k] == '=') {
        return None;
    }
    let mut a: usize = k;
    while a < t.len() && (text::white(t[a]) || t[a] == '=')
        invariant
            k <= a <= t.len(),
            skip_equals(t@, k as int) == skip_equals(t@, a as int),
        decreases t.len() - a,
    {
        a = a + 1;
    }
    let e: usize = text::word_end_from(&t, a);
    let tok = text::slice_string(&t, a, e);
    let word = text::chars_of(tok.as_str());
    assert(word@.skip(0) =~= word@);
    if text::lower_eq(&word, 0, "failed") {
        return Some(MeasurementValue::Failed);
    }
    match decimal::parse_real(tok.as_str()) {
        Some(r) => Some(MeasurementValue::Number(r)),
        None => None,
    }
}

fn scan_one(lines: &Vec<String>, name: &str) -> (res: MeasurementValue)
    ensures
        res == scan_lines(text::texts(lines@), lowercase_text(name@)),
{
    let lname = lowercase(name);
    let ghost all = text::texts(lines@);
    let mut i: usize = 0;
    assert(all.skip(0) =~= all);
    while i < lines.len()
        invariant
            i <= lines.len(),
            all == text::texts(lines@),
            lname@ == lowercase_text(name@),
            scan_lines(all, lname@) == scan_lines(all.skip(i as int), lname@),
        decreases lines.len() - i,
    {
        assert(all.skip(i as int)[0] == lines@[i as int]@);
        assert(all.skip(i as int).skip(1) =~= all.skip(i + 1));
        match read_line(lines[i].as_str(), lname.as_str()) {
            Some(v) => {
                return v;
            },
            None => {},
        }
        i = i + 1;
    }
    MeasurementValue::Failed
}

/// The map of results after the first `n` requested measurements.
pub open spec fn requested_values(
    stdout: Seq<char>,
    requested: Seq<Measurement>,
    n: nat,
) -> Map<Seq<char>, MeasurementValue>
    decreases n,
{
    if n == 0 {
        Map::empty()
    } else {
        requested_values(stdout, requested, (n - 1) as nat).insert(
            requested[n - 1].name@,
            measured(stdout, requested[n - 1].name@),
        )
    }
}

impl MeasureLog {
    /// Reads the results of the requested measurements from the simulator's
    /// output; one without a result has failed.
    pub fn parse(stdout: &str, requested: &Vec<Measurement>) -> (res: Self)
        ensures
            res.values@ == requested_values(stdout@, requested@, requested@.len()),
    {
        let lines = text::split_lines(stdout);
        let mut values: NameMap<MeasurementValue> = NameMap::new();
        let mut i: usize = 0;
        while i < requested.len()
            invariant
                i <= requested.len(),
                text::texts(lines@) == text::lines(stdout@),
                values@ == requested_values(stdout@, requested@, i as nat),
            decreases requested.len() - i,
        {
            let v = scan_one(&lines, requested[i].name.as_str());
            values.set(requested[i].name.as_str(), v);
            i = i + 1;
        }
        MeasureLog { values }
    }

    pub fn get(&self, name: &str) -> (res: Option<MeasurementValue>)
        ensures
            match res {
                Some(v) => self.values@.contains_key(name@) && self.values@[name@] == v,
                None => !self.values@.contains_key(name@),
            },
    {
        self.values.get(name)
    }
}

/// A log holds exactly the requested measurements, each with what the output
/// says of it.
pub proof fn every_request_is_answered(
    stdout: Seq<char>,
    requested: Seq<Measurement>,
    n: nat,
    i: int,
)
    requires
        0 <= i < n <= requested.len(),
    ensures
        requested_values(stdout, requested, n).contains_key(requested[i].name@),
        requested_values(stdout, requested, n)[requested[i].name@] == measured(
            stdout,
            requested[i].name@,
        ),
    decreases n,
{
    if i < n - 1 {
        every_request_is_answered(stdout, requested, (n - 1) as nat, i);
    }
}

/// Output without any line for a measurement leaves it failed.
pub proof fn silence_is_failure(lines: Seq<Seq<char>>, lname: Seq<char>)
    requires
        forall|i: int|
            0 <= i < lines.len() ==> !text::starts_with(
                lowercase_text(text::trim_front(#[trigger] lines[i])),
                lname,
            ),
    ensures
        scan_lines(lines, lname) == MeasurementValue::Failed,
    decreases lines.len(),
{
    if lines.len() > 0 {
        assert(!text::starts_with(lowercase_text(text::trim_front(lines[0])), lname));
        assert forall|i: int| 0 <= i < lines.skip(1).len() implies !text::starts_with(
            lowercase_text(text::trim_front(#[trigger] lines.skip(1)[i])),
            lname,
        ) by {
            assert(lines.skip(1)[i] == lines[i + 1]);
        }
        silence_is_failure(lines.skip(1), lname);
    }
}

/// A name followed by anything but white space or an equals sign is another
/// name: the line says nothing of the measurement.
pub proof fn names_are_matched_as_words(t: Seq<char>, lname: Seq<char>, k: int)
    requires
        position_of_byte(t, 0, byte_length(lname)) == Some(k),
        k < t.len(),
        !text::is_white(t[k]),
        t[k] != '=',
    ensures
        line_value(t, lname) is None,
{
}

/// What is said of a measurement is what the first line says that says anything of it, and
/// that it failed where none does.
pub proof fn first_telling_line_counts(lines: Seq<Seq<char>>, lname: Seq<char>)
    ensures
        (forall|i: int|
            0 <= i < lines.len() ==> line_value(text::trim_front(#[trigger] lines[i]), lname)
                is None) ==> scan_lines(lines, lname) == MeasurementValue::Failed,
        forall|i: int|
            #![trigger lines[i]]
            0 <= i < lines.len() && line_value(text::trim_front(lines[i]), lname) is Some && (forall|
                j: int,
            |
                0 <= j < i ==> line_value(text::trim_front(#[trigger] lines[j]), lname) is None)
                ==> line_value(text::trim_front(lines[i]), lname) == Some(
                scan_lines(lines, lname),
            ),
    decreases lines.len(),
{
    if lines.len() > 0 {
        let rest = lines.skip(1);
        first_telling_line_counts(rest, lname);
        assert forall|i: int| 0 <= i < rest.len() implies #[trigger] rest[i] == lines[i + 1] by {}
        assert forall|i: int|
            #![trigger lines[i]]
            0 <= i < lines.len() && line_value(text::trim_front(lines[i]), lname) is Some && (forall|
                j: int,
            |
                0 <= j < i ==> line_value(text::trim_front(#[trigger] lines[j]), lname) is None) implies line_value(
        text::trim_front(lines[i]), lname) == Some(scan_lines(lines, lname)) by {
            if i > 0 {
                assert(line_value(text::trim_front(lines[0]), lname) is None);
                assert(rest[i - 1] == lines[i]);
                assert forall|j: int| 0 <= j < i - 1 implies line_value(
                    text::trim_front(#[trigger] rest[j]),
                    lname,
                ) is None by {
                    assert(lines[j + 1] == rest[j]);
                }
            }
        }
        if forall|i: int|
            0 <= i < lines.len() ==> line_value(text::trim_front(#[trigger] lines[i]), lname)
                is None {
            assert(line_value(text::trim_front(lines[0]), lname) is None);
            assert forall|i: int| 0 <= i < rest.len() implies line_value(
                text::trim_front(#[trigger] rest[i]),
                lname,
            ) is None by {
                assert(lines[i + 1] == rest[i]);
            }
        }
    }
}

} // verus!
