//! Text building blocks: decimal and hexadecimal numerals, padding, and
//! character-wise scanning of strings.

use vstd::prelude::*;
use vstd::string::*;

verus! {

/// `String::push` appends one character at the end of the string.
pub assume_specification[ String::push ](s: &mut String, c: char)
    ensures
        final(s)@ == old(s)@.push(c),
;

/// The decimal digit character of `d`.
pub open spec fn digit_char(d: nat) -> char {
    (d + 48) as char
}

/// Decimal numeral of `n`, without leading zeros.
pub open spec fn dec(n: nat) -> Seq<char>
    decreases n,
{
    if n < 10 {
        seq![digit_char(n)]
    } else {
        dec(n / 10).push(digit_char(n % 10))
    }
}

/// Decimal numeral of a signed number.
pub open spec fn dec_int(n: int) -> Seq<char> {
    if n < 0 {
        "-"@ + dec((-n) as nat)
    } else {
        dec(n as nat)
    }
}

/// Renders `n` in decimal.
pub fn u128_to_string(n: u128) -> (res: String)
    ensures
        res@ == dec(n as nat),
    decreases n,
{
    if n < 10 {
        let mut s = String::new();
        s.push((n as u8 + 48) as char);
        assert(s@ =~= dec(n as nat));
        s
    } else {
        let mut s = u128_to_string(n / 10);
        s.push(((n % 10) as u8 + 48) as char);
        s
    }
}

/// Renders `n` in decimal.
pub fn u64_to_string(n: u64) -> (res: String)
    ensures
        res@ == dec(n as nat),
{
    u128_to_string(n as u128)
}

/// Renders `n` in decimal.
pub fn usize_to_string(n: usize) -> (res: String)
    ensures
        res@ == dec(n as nat),
{
    u64_to_string(n as u64)
}

/// Renders `n` in decimal.
pub fn u32_to_string(n: u32) -> (res: String)
    ensures
        res@ == dec(n as nat),
{
    u64_to_string(n as u64)
}

/// Renders `n` in decimal, with a leading minus sign when negative.
pub fn i64_to_string(n: i64) -> (res: String)
    ensures
        res@ == dec_int(n as int),
{
    if n >= 0 {
        u64_to_string(n as u64)
    } else {
        let m: u64 = (0i128 - n as i128) as u64;
        let d = u64_to_string(m);
        let mut s = "-".to_owned();
        s.append(d.as_str());
        s
    }
}

/// The characters of `s`, in order.
pub fn chars_of(s: &str) -> (v: Vec<char>)
    ensures
        v@ == s@,
{
    let mut v: Vec<char> = Vec::new();
    for c in it: s.chars()
        invariant
            it.seq() == s@,
            v@ == it.seq().take(it.index() as int),
    {
        v.push(c);
    }
    v
}

/// The characters `v[from..to]` as a string.
pub fn slice_string(v: &Vec<char>, from: usize, to: usize) -> (s: String)
    requires
        from <= to <= v.len(),
    ensures
        s@ == v@.subrange(from as int, to as int),
{
    let mut s = String::new();
    let mut i: usize = from;
    while i < to
        invariant
            from <= i <= to <= v.len(),
            s@ == v@.subrange(from as int, i as int),
        decreases to - i,
    {
        s.push(v[i]);
        i = i + 1;
        assert(v@.subrange(from as int, i as int) =~= v@.subrange(from as int, i - 1).push(v@[i - 1]));
    }
    s
}

/// Whether two strings hold the same characters.
pub fn same(a: &str, b: &str) -> (res: bool)
    ensures
        res == (a@ == b@),
{
    a.to_owned() == b.to_owned()
}

/// `n` zeros.
pub open spec fn zeros(n: nat) -> Seq<char> {
    Seq::new(n, |i: int| '0')
}

pub fn push_zeros(s: &mut String, n: u128)
    ensures
        final(s)@ == old(s)@ + zeros(n as nat),
{
    let mut i: u128 = 0;
    assert(s@ =~= old(s)@ + zeros(0));
    while i < n
        invariant
            i <= n,
            s@ == old(s)@ + zeros(i as nat),
        decreases n - i,
    {
        s.push('0');
        i = i + 1;
        assert(s@ =~= old(s)@ + zeros(i as nat));
    }
}

/// `c` with an upper-case ASCII letter turned into lower case.
pub open spec fn lower_ascii(c: char) -> char {
    if 'A' <= c && c <= 'Z' {
        (c as u32 + 32) as char
    } else {
        c
    }
}

/// Whether every character is ASCII.
pub open spec fn is_ascii(s: Seq<char>) -> bool {
    forall|i: int| 0 <= i < s.len() ==> (#[trigger] s[i] as u32) < 128
}

/// Every character of `s` in ASCII lower case.
pub open spec fn lower(s: Seq<char>) -> Seq<char> {
    s.map_values(|c: char| lower_ascii(c))
}

pub fn to_lower_ascii(c: char) -> (res: char)
    ensures
        res == lower_ascii(c),
{
    if 'A' <= c && c <= 'Z' {
        (c as u8 + 32) as char
    } else {
        c
    }
}

/// Whether `v[from..]` equals `lit`, letter case aside on the left.
pub fn lower_eq(v: &Vec<char>, from: usize, lit: &str) -> (res: bool)
    requires
        from <= v.len(),
    ensures
        res == (lower(v@.skip(from as int)) == lit@),
{
    let l = chars_of(lit);
    if v.len() - from != l.len() {
        assert(lower(v@.skip(from as int)).len() != lit@.len());
        return false;
    }
    let mut i: usize = 0;
    while i < l.len()
        invariant
            from <= v.len(),
            v.len() - from == l.len(),
            i <= l.len(),
            l@ == lit@,
            forall|j: int| 0 <= j < i ==> lower_ascii(v@[from + j]) == l@[j],
        decreases l.len() - i,
    {
        if to_lower_ascii(v[from + i]) != l[i] {
            assert(lower(v@.skip(from as int))[i as int] != lit@[i as int]);
            return false;
        }
        i = i + 1;
    }
    assert(lower(v@.skip(from as int)) =~= lit@);
    true
}

/// Whether `c` is an ASCII digit.
pub open spec fn is_digit(c: char) -> bool {
    '0' <= c && c <= '9'
}

/// First position at or after `i` that does not hold a digit.
pub open spec fn digits_end(s: Seq<char>, i: int) -> int
    decreases s.len() - i,
{
    if 0 <= i < s.len() && is_digit(s[i]) {
        digits_end(s, i + 1)
    } else {
        i
    }
}

pub proof fn lemma_digits_end(s: Seq<char>, i: int)
    requires
        0 <= i <= s.len(),
    ensures
        i <= digits_end(s, i) <= s.len(),
        forall|j: int| i <= j < digits_end(s, i) ==> is_digit(s[j]),
    decreases s.len() - i,
{
    if i < s.len() && is_digit(s[i]) {
        lemma_digits_end(s, i + 1);
    }
}

pub fn find_digits_end(v: &Vec<char>, from: usize) -> (res: usize)
    requires
        from <= v.len(),
    ensures
        res == digits_end(v@, from as int),
        from <= res <= v.len(),
        forall|j: int| from <= j < res ==> is_digit(v@[j]),
{
    let mut i: usize = from;
    while i < v.len() && '0' <= v[i] && v[i] <= '9'
        invariant
            from <= i <= v.len(),
            digits_end(v@, from as int) == digits_end(v@, i as int),
            forall|j: int| from <= j < i ==> is_digit(v@[j]),
        decreases v.len() - i,
    {
        i = i + 1;
    }
    i
}

/// The number that a run of decimal digits spells.
pub open spec fn digits_value(s: Seq<char>) -> nat
    decreases s.len(),
{
    if s.len() == 0 {
        0
    } else {
        (digits_value(s.drop_last()) * 10 + (s.last() as int - 48)) as nat
    }
}

/// Unicode white space.
pub open spec fn is_white(c: char) -> bool {
    let n = c as u32;
    ||| 0x9 <= n <= 0xd
    ||| n == 0x20
    ||| n == 0x85
    ||| n == 0xa0
    ||| n == 0x1680
    ||| 0x2000 <= n <= 0x200a
    ||| n == 0x2028
    ||| n == 0x2029
    ||| n == 0x202f
    ||| n == 0x205f
    ||| n == 0x3000
}

pub fn white(c: char) -> (res: bool)
    ensures
        res == is_white(c),
{
    let n: u32 = c as u32;
    (0x9 <= n && n <= 0xd) || n == 0x20 || n == 0x85 || n == 0xa0 || n == 0x1680 || (0x2000 <= n
        && n <= 0x200a) || n == 0x2028 || n == 0x2029 || n == 0x202f || n == 0x205f || n == 0x3000
}

/// First position at or after `i` that holds no white space, or the end.
pub open spec fn skip_white(s: Seq<char>, i: int) -> int
    decreases s.len() - i,
{
    if 0 <= i < s.len() && is_white(s[i]) {
        skip_white(s, i + 1)
    } else {
        i
    }
}

/// First position at or after `i` that holds white space, or the end.
pub open spec fn word_end(s: Seq<char>, i: int) -> int
    decreases s.len() - i,
{
    if 0 <= i < s.len() && !is_white(s[i]) {
        word_end(s, i + 1)
    } else {
        i
    }
}

pub fn skip_white_from(v: &Vec<char>, from: usize) -> (res: usize)
    requires
        from <= v.len(),
    ensures
        res == skip_white(v@, from as int),
        from <= res <= v.len(),
{
    let mut i: usize = from;
    while i < v.len() && white(v[i])
        invariant
            from <= i <= v.len(),
            skip_white(v@, from as int) == skip_white(v@, i as int),
        decreases v.len() - i,
    {
        i = i + 1;
    }
    i
}

pub fn word_end_from(v: &Vec<char>, from: usize) -> (res: usize)
    requires
        from <= v.len(),
    ensures
        res == word_end(v@, from as int),
        from <= res <= v.len(),
{
    let mut i: usize = from;
    while i < v.len() && !white(v[i])
        invariant
            from <= i <= v.len(),
            word_end(v@, from as int) == word_end(v@, i as int),
        decreases v.len() - i,
    {
        i = i + 1;
    }
    i
}

/// First line break at or after `i`, or the end.
pub open spec fn line_end(s: Seq<char>, i: int) -> int
    decreases s.len() - i,
{
    if 0 <= i < s.len() && s[i] != '\n' {
        line_end(s, i + 1)
    } else {
        i
    }
}

pub proof fn lemma_line_end(s: Seq<char>, i: int)
    requires
        0 <= i <= s.len(),
    ensures
        i <= line_end(s, i) <= s.len(),
    decreases s.len() - i,
{
    if i < s.len() && s[i] != '\n' {
        lemma_line_end(s, i + 1);
    }
}

/// The line `s[i..e]`, whose line break is at `e`: a carriage return in front
/// of the line break belongs to it.
pub open spec fn line_text(s: Seq<char>, i: int, e: int) -> Seq<char> {
    if e < s.len() && e > i && s[e - 1] == '\r' {
        s.subrange(i, e - 1)
    } else {
        s.subrange(i, e)
    }
}

/// The lines of `s` from position `i` on, without their line breaks.
pub open spec fn lines_from(s: Seq<char>, i: int) -> Seq<Seq<char>>
    decreases s.len() - i,
{
    proof {
        if 0 <= i <= s.len() {
            lemma_line_end(s, i);
        }
    }
    if 0 <= i < s.len() {
        let e = line_end(s, i);
        if e < s.len() {
            seq![line_text(s, i, e)] + lines_from(s, e + 1)
        } else {
            seq![line_text(s, i, e)]
        }
    } else {
        Seq::empty()
    }
}

/// The lines of `s`, without their line breaks.
pub open spec fn lines(s: Seq<char>) -> Seq<Seq<char>> {
    lines_from(s, 0)
}

/// The first line break is where it is in a text that goes on behind it.
pub proof fn lemma_line_end_grows(a: Seq<char>, b: Seq<char>, i: int)
    requires
        0 <= i <= a.len(),
    ensures
        line_end(a, i) < a.len() ==> line_end(a + b, i) == line_end(a, i),
        line_end(a, i) == a.len() ==> line_end(a + b, i) == line_end(a + b, a.len() as int),
    decreases a.len() - i,
{
    lemma_line_end(a, i);
    if i < a.len() {
        assert((a + b)[i] == a[i]);
        if a[i] != '\n' {
            lemma_line_end_grows(a, b, i + 1);
        }
    }
}

/// A text has the same lines wherever it stands at the end of another.
pub proof fn lemma_lines_behind(a: Seq<char>, b: Seq<char>, i: int)
    requires
        0 <= i <= b.len(),
    ensures
        line_end(a + b, a.len() + i) == a.len() + line_end(b, i),
        lines_from(a + b, a.len() + i) == lines_from(b, i),
    decreases b.len() - i,
{
    lemma_line_end(b, i);
    if i < b.len() {
        assert((a + b)[a.len() + i] == b[i]);
        if b[i] != '\n' {
            lemma_lines_behind(a, b, i + 1);
        }
        let e = line_end(b, i);
        assert(line_end(a + b, a.len() + i) == a.len() + e);
        assert((a + b).subrange(a.len() + i, a.len() + e) =~= b.subrange(i, e));
        if e > i {
            assert((a + b)[a.len() + e - 1] == b[e - 1]);
            assert((a + b).subrange(a.len() + i, a.len() + e - 1) =~= b.subrange(i, e - 1));
        }
        if e < b.len() {
            lemma_lines_behind(a, b, e + 1);
        }
    }
}

/// There is no line break in a line.
pub proof fn lemma_no_break_in_line(s: Seq<char>, i: int, k: int)
    requires
        0 <= i <= s.len(),
        0 <= k < lines_from(s, i).len(),
    ensures
        !lines_from(s, i)[k].contains('\n'),
    decreases s.len() - i,
{
    lemma_line_end(s, i);
    let e = line_end(s, i);
    if k == 0 {
        assert forall|j: int| i <= j < e implies s[j] != '\n' by {
            lemma_no_break_before_end(s, i, j);
        }
    } else {
        lemma_no_break_in_line(s, e + 1, k - 1);
    }
}

proof fn lemma_no_break_before_end(s: Seq<char>, i: int, j: int)
    requires
        0 <= i <= j < line_end(s, i),
    ensures
        j < s.len(),
        s[j] != '\n',
    decreases j - i,
{
    if i < j {
        lemma_no_break_before_end(s, i + 1, j);
    }
}

/// The texts that a list of string slices holds.
pub open spec fn str_texts(v: Seq<&str>) -> Seq<Seq<char>> {
    v.map_values(|s: &str| s@)
}

/// What an optional text is.
pub open spec fn opt_str(s: Option<&str>) -> Option<Seq<char>> {
    match s {
        Some(t) => Some(t@),
        None => None,
    }
}

/// The texts that a list of strings holds.
pub open spec fn texts(v: Seq<String>) -> Seq<Seq<char>> {
    v.map_values(|s: String| s@)
}

/// Splits `s` into its lines.
pub fn split_lines(s: &str) -> (res: Vec<String>)
    ensures
        texts(res@) == lines(s@),
{
    let v = chars_of(s);
    let mut out: Vec<String> = Vec::new();
    let mut i: usize = 0;
    assert(texts(out@) + lines_from(v@, 0) =~= lines_from(v@, 0));
    while i < v.len()
        invariant
            i <= v.len(),
            v@ == s@,
            texts(out@) + lines_from(v@, i as int) == lines(v@),
        decreases v.len() - i,
    {
        let mut e: usize = i;
        while e < v.len() && v[e] != '\n'
            invariant
                i <= e <= v.len(),
                line_end(v@, i as int) == line_end(v@, e as int),
            decreases v.len() - e,
        {
            e = e + 1;
        }
        let ghost before = out@;
        let stop: usize = if e < v.len() && e > i && v[e - 1] == '\r' {
            e - 1
        } else {
            e
        };
        let line = slice_string(&v, i, stop);
        out.push(line);
        proof {
            assert(texts(out@) =~= texts(before).push(line@));
            if e < v@.len() {
                let rest = lines_from(v@, e + 1);
                assert(lines_from(v@, i as int) == seq![line@] + rest);
                assert(texts(before) + (seq![line@] + rest) =~= texts(out@) + rest);
            } else {
                assert(texts(before) + seq![line@] =~= texts(out@) + lines_from(v@, e as int));
            }
        }
        i = if e < v.len() {
            e + 1
        } else {
            e
        };
    }
    assert(texts(out@) + lines_from(v@, i as int) =~= texts(out@));
    out
}

/// The lower-case hexadecimal digit of `d`.
pub open spec fn hex_char(d: nat) -> char {
    if d < 10 {
        (d + 48) as char
    } else {
        (d + 87) as char
    }
}

/// The lowest `w` hexadecimal digits of `n`.
pub open spec fn hex(n: nat, w: nat) -> Seq<char>
    decreases w,
{
    if w == 0 {
        Seq::empty()
    } else {
        hex(n / 16, (w - 1) as nat).push(hex_char(n % 16))
    }
}

/// Renders the lowest `w` hexadecimal digits of `n`.
pub fn to_hex(n: u64, w: usize) -> (res: String)
    ensures
        res@ == hex(n as nat, w as nat),
    decreases w,
{
    if w == 0 {
        String::new()
    } else {
        let mut s = to_hex(n / 16, w - 1);
        let d: u8 = (n % 16) as u8;
        s.push(
            if d < 10 {
                (d + 48) as char
            } else {
                (d + 87) as char
            },
        );
        s
    }
}

/// Lines one below the other, each with a line break.
pub open spec fn joined_lines(s: Seq<Seq<char>>) -> Seq<char>
    decreases s.len(),
{
    if s.len() == 0 {
        Seq::empty()
    } else {
        joined_lines(s.drop_last()) + s.last() + "\n"@
    }
}

/// Writes the lines one below the other, each with a line break.
pub fn join_lines(v: &Vec<String>) -> (res: String)
    ensures
        res@ == joined_lines(texts(v@)),
{
    let mut s = String::new();
    let mut i: usize = 0;
    assert(texts(v@).take(0) =~= Seq::empty());
    while i < v.len()
        invariant
            i <= v.len(),
            s@ == joined_lines(texts(v@).take(i as int)),
        decreases v.len() - i,
    {
        s.append(v[i].as_str());
        s.append("\n");
        i = i + 1;
        assert(texts(v@).take(i as int).drop_last() =~= texts(v@).take(i - 1));
    }
    assert(texts(v@).take(v@.len() as int) =~= texts(v@));
    s
}

/// Whether `pat` stands in `s` at position `i`.
pub open spec fn occurs_at(s: Seq<char>, pat: Seq<char>, i: int) -> bool {
    0 <= i && i + pat.len() <= s.len() && s.subrange(i, i + pat.len()) == pat
}

/// `s` from position `i` on, with every occurrence of `from` replaced by `to`,
/// from left to right.
pub open spec fn replaced_from(s: Seq<char>, i: int, from: Seq<char>, to: Seq<char>) -> Seq<char>
    decreases s.len() - i,
{
    if i < 0 || i >= s.len() || from.len() == 0 {
        Seq::empty()
    } else if occurs_at(s, from, i) {
        to + replaced_from(s, i + from.len(), from, to)
    } else {
        seq![s[i]] + replaced_from(s, i + 1, from, to)
    }
}

/// `s` with every occurrence of `from` replaced by `to`.
pub open spec fn replaced(s: Seq<char>, from: Seq<char>, to: Seq<char>) -> Seq<char> {
    replaced_from(s, 0, from, to)
}

pub fn matches_at(v: &Vec<char>, pat: &Vec<char>, i: usize) -> (res: bool)
    requires
        i <= v.len(),
    ensures
        res == occurs_at(v@, pat@, i as int),
{
    if pat.len() > v.len() - i {
        return false;
    }
    let mut j: usize = 0;
    while j < pat.len()
        invariant
            i <= v.len(),
            pat.len() <= v.len() - i,
            j <= pat.len(),
            forall|k: int| 0 <= k < j ==> v@[i + k] == pat@[k],
        decreases pat.len() - j,
    {
        if v[i + j] != pat[j] {
            assert(v@.subrange(i as int, i + pat@.len())[j as int] != pat@[j as int]);
            return false;
        }
        j = j + 1;
    }
    assert(v@.subrange(i as int, i + pat@.len()) =~= pat@);
    true
}

/// Replaces every occurrence of `from` in `s` by `to`.
pub fn replace_all(s: &str, from: &str, to: &str) -> (res: String)
    requires
        from@.len() > 0,
    ensures
        res@ == replaced(s@, from@, to@),
{
    let v = chars_of(s);
    let pat = chars_of(from);
    let mut out = String::new();
    let mut i: usize = 0;
    assert(out@ + replaced_from(v@, 0, pat@, to@) =~= replaced_from(v@, 0, pat@, to@));
    while i < v.len()
        invariant
            i <= v.len(),
            v@ == s@,
            pat@ == from@,
            from@.len() > 0,
            out@ + replaced_from(v@, i as int, pat@, to@) == replaced(s@, from@, to@),
        decreases v.len() - i,
    {
        let ghost before = out@;
        if matches_at(&v, &pat, i) {
            out.append(to);
            assert(before + (to@ + replaced_from(v@, i + pat@.len(), pat@, to@)) =~= out@
                + replaced_from(v@, i + pat@.len(), pat@, to@));
            i = i + pat.len();
        } else {
            out.push(v[i]);
            assert(before + (seq![v@[i as int]] + replaced_from(v@, i + 1, pat@, to@)) =~= out@
                + replaced_from(v@, i + 1, pat@, to@));
            i = i + 1;
        }
    }
    assert(out@ + replaced_from(v@, i as int, pat@, to@) =~= out@);
    out
}

/// Whether `pat` occurs somewhere in `s`.
pub open spec fn contains(s: Seq<char>, pat: Seq<char>) -> bool {
    exists|i: int| occurs_at(s, pat, i)
}

pub fn contains_text(s: &str, pat: &str) -> (res: bool)
    ensures
        res == contains(s@, pat@),
{
    let v = chars_of(s);
    let p = chars_of(pat);
    let mut i: usize = 0;
    loop
        invariant
            i <= v.len(),
            v@ == s@,
            p@ == pat@,
            forall|j: int| 0 <= j < i ==> !occurs_at(s@, pat@, j),
        decreases v.len() - i,
    {
        if matches_at(&v, &p, i) {
            assert(occurs_at(s@, pat@, i as int));
            return true;
        }
        if i >= v.len() {
            assert forall|j: int| !occurs_at(s@, pat@, j) by {
                if occurs_at(s@, pat@, j) {
                    assert(j <= v@.len());
                }
            }
            return false;
        }
        i = i + 1;
    }
}

/// Whether the character occurs in `s`.
pub fn contains_char(s: &str, c: char) -> (res: bool)
    ensures
        res == s@.contains(c),
{
    let v = chars_of(s);
    let mut i: usize = 0;
    while i < v.len()
        invariant
            i <= v.len(),
            v@ == s@,
            forall|j: int| 0 <= j < i ==> v@[j] != c,
        decreases v.len() - i,
    {
        if v[i] == c {
            assert(s@[i as int] == c);
            return true;
        }
        i = i + 1;
    }
    false
}

pub open spec fn starts_with(s: Seq<char>, prefix: Seq<char>) -> bool {
    prefix.len() <= s.len() && s.take(prefix.len() as int) == prefix
}

pub open spec fn ends_with(s: Seq<char>, suffix: Seq<char>) -> bool {
    suffix.len() <= s.len() && s.skip(s.len() - suffix.len()) == suffix
}

pub fn has_prefix(s: &str, prefix: &str) -> (res: bool)
    ensures
        res == starts_with(s@, prefix@),
{
    let v = chars_of(s);
    let p = chars_of(prefix);
    let r = matches_at(&v, &p, 0);
    proof {
        if prefix@.len() <= s@.len() {
            assert(s@.subrange(0, prefix@.len() as int) =~= s@.take(prefix@.len() as int));
        }
    }
    r
}

pub fn has_suffix(s: &str, suffix: &str) -> (res: bool)
    ensures
        res == ends_with(s@, suffix@),
{
    let v = chars_of(s);
    let p = chars_of(suffix);
    if p.len() > v.len() {
        return false;
    }
    let at: usize = v.len() - p.len();
    let r = matches_at(&v, &p, at);
    proof {
        assert(s@.subrange(at as int, at + suffix@.len()) =~= s@.skip(at as int));
    }
    r
}

/// Last position that is neither white space nor behind it.
pub open spec fn trim_end(s: Seq<char>) -> Seq<char>
    decreases s.len(),
{
    if s.len() > 0 && is_white(s.last()) {
        trim_end(s.drop_last())
    } else {
        s
    }
}

/// `s` without white space in front.
pub open spec fn trim_front(s: Seq<char>) -> Seq<char> {
    s.skip(skip_white(s, 0))
}

/// `s` without white space around it.
pub open spec fn trim(s: Seq<char>) -> Seq<char> {
    trim_end(trim_front(s))
}

/// Trimming takes nothing but white space away: what is left stands in the text.
pub proof fn lemma_trim_is_part(s: Seq<char>, c: char)
    requires
        trim(s).contains(c),
    ensures
        s.contains(c),
{
    let f = trim_front(s);
    lemma_skip_white(s, 0);
    lemma_trim_end_is_part(f);
    let i = choose|i: int| 0 <= i < trim(s).len() && trim(s)[i] == c;
    assert(f[i] == c);
    assert(s[skip_white(s, 0) + i] == c);
}

proof fn lemma_trim_end_is_part(s: Seq<char>)
    ensures
        trim_end(s).len() <= s.len(),
        forall|i: int| 0 <= i < trim_end(s).len() ==> #[trigger] trim_end(s)[i] == s[i],
    decreases s.len(),
{
    if s.len() > 0 && is_white(s.last()) {
        lemma_trim_end_is_part(s.drop_last());
    }
}

/// White space behind a text is trimmed away.
pub proof fn lemma_trim_white_end(s: Seq<char>, c: char)
    requires
        is_white(c),
    ensures
        trim(s.push(c)) == trim(s),
{
    lemma_skip_white(s, 0);
    lemma_skip_white_push(s, c, 0);
    let k = skip_white(s, 0);
    if k < s.len() {
        assert(trim_front(s.push(c)) =~= trim_front(s).push(c));
        assert(trim_front(s).push(c).drop_last() =~= trim_front(s));
    } else {
        assert(trim_front(s.push(c)) =~= Seq::empty());
        assert(trim_front(s) =~= Seq::empty());
    }
}

proof fn lemma_skip_white(s: Seq<char>, i: int)
    requires
        0 <= i <= s.len(),
    ensures
        i <= skip_white(s, i) <= s.len(),
    decreases s.len() - i,
{
    if i < s.len() && is_white(s[i]) {
        lemma_skip_white(s, i + 1);
    }
}

proof fn lemma_skip_white_push(s: Seq<char>, c: char, i: int)
    requires
        is_white(c),
        0 <= i <= s.len(),
    ensures
        skip_white(s, i) < s.len() ==> skip_white(s.push(c), i) == skip_white(s, i),
        skip_white(s, i) == s.len() ==> skip_white(s.push(c), i) == s.len() + 1,
    decreases s.len() - i,
{
    if i < s.len() {
        assert(s.push(c)[i] == s[i]);
        if is_white(s[i]) {
            lemma_skip_white_push(s, c, i + 1);
        }
    } else {
        assert(s.push(c)[i] == c);
        reveal_with_fuel(skip_white, 2);
    }
}

pub fn trimmed(s: &str) -> (res: String)
    ensures
        res@ == trim(s@),
{
    let v = chars_of(s);
    let a: usize = skip_white_from(&v, 0);
    let mut b: usize = v.len();
    let ghost front = trim_front(s@);
    assert(v@.subrange(a as int, b as int) =~= front);
    while b > a && white(v[b - 1])
        invariant
            a <= b <= v.len(),
            v@ == s@,
            trim_end(front) == trim_end(v@.subrange(a as int, b as int)),
        decreases b,
    {
        assert(v@.subrange(a as int, b as int).drop_last() =~= v@.subrange(a as int, b - 1));
        b = b - 1;
    }
    slice_string(&v, a, b)
}

pub fn trimmed_front(s: &str) -> (res: String)
    ensures
        res@ == trim_front(s@),
{
    let v = chars_of(s);
    let a: usize = skip_white_from(&v, 0);
    let r = slice_string(&v, a, v.len());
    assert(r@ =~= trim_front(s@));
    r
}

/// The bytes of `s` in UTF-8.
pub fn push_bytes(out: &mut Vec<u8>, s: &str)
    ensures
        final(out)@ == old(out)@ + s.spec_bytes(),
{
    let b = s.as_bytes();
    let mut i: usize = 0;
    assert(out@ =~= old(out)@ + b@.take(0));
    while i < b.len()
        invariant
            i <= b.len(),
            b@ == s.spec_bytes(),
            out@ == old(out)@ + b@.take(i as int),
        decreases b.len() - i,
    {
        out.push(b[i]);
        i = i + 1;
        assert(out@ =~= old(out)@ + b@.take(i as int));
    }
    assert(b@.take(b@.len() as int) =~= b@);
}

/// `n` spaces.
pub open spec fn spaces(n: nat) -> Seq<char> {
    Seq::new(n, |i: int| ' ')
}

/// A text moved right until it is `n` characters wide.
pub open spec fn right_aligned(s: Seq<char>, n: nat) -> Seq<char> {
    if s.len() >= n {
        s
    } else {
        spaces((n - s.len()) as nat) + s
    }
}

/// A text followed by spaces until it is `n` characters wide.
pub open spec fn left_aligned(s: Seq<char>, n: nat) -> Seq<char> {
    if s.len() >= n {
        s
    } else {
        s + spaces((n - s.len()) as nat)
    }
}

/// The first `n` characters of a text.
pub open spec fn cut(s: Seq<char>, n: nat) -> Seq<char> {
    if s.len() <= n {
        s
    } else {
        s.take(n as int)
    }
}

pub fn push_spaces(s: &mut String, n: usize)
    ensures
        final(s)@ == old(s)@ + spaces(n as nat),
{
    let ghost before = s@;
    let mut i: usize = 0;
    while i < n
        invariant
            i <= n,
            s@ =~= before + spaces(i as nat),
        decreases n - i,
    {
        s.push(' ');
        i = i + 1;
    }
}

pub fn align_right(s: &str, n: usize) -> (res: String)
    ensures
        res@ == right_aligned(s@, n as nat),
{
    let len: usize = chars_of(s).len();
    if len >= n {
        return s.to_owned();
    }
    let mut out = String::new();
    push_spaces(&mut out, n - len);
    out.append(s);
    assert(out@ =~= right_aligned(s@, n as nat));
    out
}

pub fn align_left(s: &str, n: usize) -> (res: String)
    ensures
        res@ == left_aligned(s@, n as nat),
{
    let len: usize = chars_of(s).len();
    let mut out = s.to_owned();
    if len < n {
        push_spaces(&mut out, n - len);
    }
    out
}

pub fn cut_to(s: &str, n: usize) -> (res: String)
    ensures
        res@ == cut(s@, n as nat),
{
    let v = chars_of(s);
    if v.len() <= n {
        return s.to_owned();
    }
    let r = slice_string(&v, 0, n);
    assert(r@ =~= s@.take(n as int));
    r
}

/// The `Debug` form of a text: in double quotes, with escapes where a character cannot be
/// shown as it is.
pub uninterp spec fn debug_text(s: Seq<char>) -> Seq<char>;

/// Whether a text is made of ASCII letters, digits and underscores.
pub open spec fn is_plain(s: Seq<char>) -> bool {
    forall|i: int|
        #![trigger s[i]]
        0 <= i < s.len() ==> ('a' <= s[i] <= 'z' || 'A' <= s[i] <= 'Z' || '0' <= s[i] <= '9'
            || s[i] == '_')
}

/// The `Debug` implementation of `str`, through `format!("{:?}", s)`. A plain text comes out
/// as it is, in quotes; which other characters are escaped, and how, is left unsaid.
#[verifier::external_body]
pub(crate) fn quoted(s: &str) -> (res: String)
    ensures
        res@ == debug_text(s@),
        is_plain(s@) ==> res@ == seq!['"'] + s@ + seq!['"'],
{
    format!("{:?}", s)
}

} // verus!
