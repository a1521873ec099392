//! Laws of the Liberty reader: where a comment may stand, and what texts that stand one
//! behind the other are read as.

use crate::decimal;
use crate::liberty;
use crate::liberty::{CellModel, Scope, TokenModel};
use crate::text;
use vstd::prelude::*;

verus! {

// ── where the pieces of a text end ─────────────────────────────────

/// Whether a block comment starts at `i`.
pub open spec fn opens_block(s: Seq<char>, i: int) -> bool {
    s[i] == '/' && i + 1 < s.len() && s[i + 1] == '*'
}

/// Whether a line comment starts at `i`.
pub open spec fn opens_line(s: Seq<char>, i: int) -> bool {
    s[i] == '/' && i + 1 < s.len() && s[i + 1] == '/'
}

/// Whether the block comment that starts at `i` has an end.
pub open spec fn block_closes(s: Seq<char>, i: int) -> bool {
    let e = liberty::block_end(s, i + 2);
    e >= i + 4 && s[e - 2] == '*' && s[e - 1] == '/'
}

/// End of the piece that starts at `i`: a blank, a comment up to its end, a string with its
/// quotes, or another token. What has no end reaches beyond the text.
pub open spec fn piece_end(s: Seq<char>, i: int) -> int {
    if liberty::is_space(s[i]) || s[i] == '\\' {
        i + 1
    } else if opens_block(s, i) {
        if block_closes(s, i) {
            liberty::block_end(s, i + 2)
        } else {
            s.len() as int + 1
        }
    } else if opens_line(s, i) {
        liberty::find_char(s, i + 1, '\n')
    } else if liberty::punctuation(s[i]) is Some {
        i + 1
    } else if s[i] == '"' {
        liberty::find_char(s, i + 1, '"') + 1
    } else if liberty::starts_number(s, i) {
        liberty::number_end(s, i + 1)
    } else if liberty::is_ident_start(s[i]) {
        liberty::ident_end(s, i + 1)
    } else {
        i + 1
    }
}

/// Whether a piece of the text ends at `k`, where one starts at `i`. A line comment may be
/// the one that ends there only where `line` says so.
pub open spec fn ends_piece(s: Seq<char>, i: int, k: int, line: bool) -> bool
    decreases s.len() + 1 - i,
{
    proof {
        if 0 <= i < s.len() {
            lemma_piece_end(s, i);
        }
    }
    if i < 0 || i >= k || i >= s.len() {
        i == k
    } else if opens_line(s, i) && !line && piece_end(s, i) == k {
        false
    } else {
        ends_piece(s, piece_end(s, i), k, line)
    }
}

/// A piece has some extent.
pub proof fn lemma_piece_end(s: Seq<char>, i: int)
    requires
        0 <= i < s.len(),
    ensures
        i < piece_end(s, i) <= s.len() + 1,
{
    liberty::lemma_ends(s, i + 1);
    if i + 2 <= s.len() {
        liberty::lemma_ends(s, i + 2);
    }
    liberty::lemma_find_char(s, i + 1, '"');
    liberty::lemma_find_char(s, i + 1, '\n');
    if opens_line(s, i) {
        assert(liberty::find_char(s, i + 1, '\n') == liberty::find_char(s, i + 2, '\n'));
        liberty::lemma_find_char(s, i + 2, '\n');
    }
}

// ── a text that goes on otherwise ──────────────────────────────────

proof fn lemma_find_same(p: Seq<char>, q: Seq<char>, r: Seq<char>, i: int, stop: char)
    requires
        0 <= i <= p.len(),
        liberty::find_char(p + q, i, stop) <= p.len(),
    ensures
        ({
            let e = liberty::find_char(p + q, i, stop);
            e < p.len() || r.len() == 0 || r[0] == stop ==> liberty::find_char(p + r, i, stop) == e
        }),
    decreases p.len() - i,
{
    liberty::lemma_find_char(p + q, i, stop);
    if i < p.len() {
        assert((p + q)[i] == p[i]);
        assert((p + r)[i] == p[i]);
        if p[i] != stop {
            lemma_find_same(p, q, r, i + 1, stop);
        }
    } else if r.len() > 0 {
        assert((p + r)[i] == r[0]);
    }
}

proof fn lemma_block_same(p: Seq<char>, q: Seq<char>, r: Seq<char>, i: int)
    requires
        0 <= i <= p.len(),
        i + 2 <= liberty::block_end(p + q, i) <= p.len(),
        (p + q)[liberty::block_end(p + q, i) - 2] == '*',
        (p + q)[liberty::block_end(p + q, i) - 1] == '/',
    ensures
        liberty::block_end(p + r, i) == liberty::block_end(p + q, i),
    decreases p.len() - i,
{
    let s = p + q;
    assert(s[i] == p[i] && s[i + 1] == p[i + 1]);
    assert((p + r)[i] == p[i] && (p + r)[i + 1] == p[i + 1]);
    if !(p[i] == '*' && p[i + 1] == '/') {
        liberty::lemma_ends(s, i + 1);
        let e = liberty::block_end(s, i);
        assert(e == liberty::block_end(s, i + 1));
        if e < i + 3 {
            assert(e == i + 2);
            assert(false);
        }
        lemma_block_same(p, q, r, i + 1);
    }
}

proof fn lemma_ident_same(p: Seq<char>, q: Seq<char>, r: Seq<char>, i: int)
    requires
        0 <= i <= p.len(),
        liberty::ident_end(p + q, i) <= p.len(),
        r.len() > 0 ==> !liberty::is_ident_char(r[0]),
    ensures
        liberty::ident_end(p + r, i) == liberty::ident_end(p + q, i),
    decreases p.len() - i,
{
    liberty::lemma_ends(p + q, i);
    if i < p.len() {
        assert((p + q)[i] == p[i]);
        assert((p + r)[i] == p[i]);
        if liberty::is_ident_char(p[i]) {
            lemma_ident_same(p, q, r, i + 1);
        }
    } else if r.len() > 0 {
        assert((p + r)[i] == r[0]);
    }
}

proof fn lemma_number_same(p: Seq<char>, q: Seq<char>, r: Seq<char>, i: int)
    requires
        0 < i <= p.len(),
        liberty::number_end(p + q, i) <= p.len(),
        r.len() > 0 ==> liberty::is_space(r[0]),
    ensures
        liberty::number_end(p + r, i) == liberty::number_end(p + q, i),
    decreases p.len() - i,
{
    liberty::lemma_ends(p + q, i);
    assert((p + q)[i - 1] == p[i - 1]);
    assert((p + r)[i - 1] == p[i - 1]);
    if i < p.len() {
        assert((p + q)[i] == p[i]);
        assert((p + r)[i] == p[i]);
        if liberty::goes_on_number(p + q, i) {
            lemma_number_same(p, q, r, i + 1);
        }
    } else if r.len() > 0 {
        assert((p + r)[i] == r[0]);
    }
}

proof fn lemma_after_then(
    t: TokenModel,
    ts: Seq<TokenModel>,
    rest: Result<Seq<TokenModel>, Seq<char>>,
)
    ensures
        liberty::then_token(t, liberty::after_tokens(ts, rest)) == liberty::after_tokens(
            seq![t] + ts,
            rest,
        ),
{
    match rest {
        Ok(more) => {
            assert(seq![t] + (ts + more) =~= (seq![t] + ts) + more);
        },
        Err(_) => {},
    }
}

/// The tokens of `p`, where a piece ends at its end, are the same whatever follows it, if
/// that starts with a blank.
proof fn lemma_front(p: Seq<char>, q: Seq<char>, r: Seq<char>, i: int, line: bool) -> (ts: Seq<
    TokenModel,
>)
    requires
        0 <= i <= p.len(),
        ends_piece(p + q, i, p.len() as int, line),
        liberty::lex(p + q, i) is Ok,
        r.len() > 0 ==> r[0] == '\n' || (r[0] == ' ' && !line),
    ensures
        liberty::lex(p + q, i) == liberty::after_tokens(ts, liberty::lex(p + q, p.len() as int)),
        liberty::lex(p + r, i) == liberty::after_tokens(ts, liberty::lex(p + r, p.len() as int)),
    decreases p.len() - i,
{
    let s = p + q;
    let u = p + r;
    let k = p.len() as int;
    if i == k {
        lemma_after_nothing(liberty::lex(s, k));
        lemma_after_nothing(liberty::lex(u, k));
        Seq::empty()
    } else {
        lemma_piece_end(s, i);
        liberty::lemma_ends(s, i + 1);
        liberty::lemma_ends(u, i + 1);
        let e = piece_end(s, i);
        assert(s[i] == p[i] && u[i] == p[i]);
        assert(ends_piece(s, e, k, line));
        assert(e <= k);
        if i + 1 < k {
            assert(s[i + 1] == p[i + 1] && u[i + 1] == p[i + 1]);
        } else {
            assert(r.len() > 0 ==> u[i + 1] == r[0]);
            if opens_line(s, i) {
                assert(liberty::find_char(s, i + 1, '\n') == liberty::find_char(s, i + 2, '\n'));
                liberty::lemma_find_char(s, i + 2, '\n');
            }
            if liberty::starts_number(s, i) && !text::is_digit(s[i]) {
                assert(liberty::goes_on_number(s, i + 1));
                liberty::lemma_ends(s, i + 2);
            }
        }
        assert(s.subrange(i, e) =~= u.subrange(i, e));
        if liberty::is_space(s[i]) || s[i] == '\\' {
            lemma_front(p, q, r, e, line)
        } else if opens_block(s, i) {
            lemma_block_same(p, q, r, i + 2);
            lemma_front(p, q, r, e, line)
        } else if opens_line(s, i) {
            lemma_find_same(p, q, r, i + 1, '\n');
            lemma_front(p, q, r, e, line)
        } else if liberty::punctuation(s[i]) is Some {
            let t = liberty::punctuation(s[i])->0;
            let ts = lemma_front(p, q, r, e, line);
            lemma_after_then(t, ts, liberty::lex(s, k));
            lemma_after_then(t, ts, liberty::lex(u, k));
            seq![t] + ts
        } else if s[i] == '"' {
            liberty::lemma_find_char(s, i + 1, '"');
            lemma_find_same(p, q, r, i + 1, '"');
            assert(s.subrange(i + 1, e - 1) =~= u.subrange(i + 1, e - 1));
            let t = TokenModel::Str(s.subrange(i + 1, e - 1));
            let ts = lemma_front(p, q, r, e, line);
            lemma_after_then(t, ts, liberty::lex(s, k));
            lemma_after_then(t, ts, liberty::lex(u, k));
            seq![t] + ts
        } else if liberty::starts_number(s, i) {
            lemma_number_same(p, q, r, i + 1);
            let t = TokenModel::Num(decimal::real_of_text(s.subrange(i, e))->0);
            let ts = lemma_front(p, q, r, e, line);
            lemma_after_then(t, ts, liberty::lex(s, k));
            lemma_after_then(t, ts, liberty::lex(u, k));
            seq![t] + ts
        } else {
            lemma_ident_same(p, q, r, i + 1);
            let t = TokenModel::Ident(s.subrange(i, e));
            let ts = lemma_front(p, q, r, e, line);
            lemma_after_then(t, ts, liberty::lex(s, k));
            lemma_after_then(t, ts, liberty::lex(u, k));
            seq![t] + ts
        }
    }
}

proof fn lemma_after_nothing(rest: Result<Seq<TokenModel>, Seq<char>>)
    ensures
        liberty::after_tokens(Seq::empty(), rest) == rest,
{
    match rest {
        Ok(more) => {
            assert(Seq::<TokenModel>::empty() + more =~= more);
        },
        Err(_) => {},
    }
}

// ── a text behind another ──────────────────────────────────────────

proof fn lemma_ends_behind(a: Seq<char>, b: Seq<char>, i: int)
    requires
        0 <= i <= b.len(),
    ensures
        liberty::block_end(a + b, a.len() + i) == a.len() + liberty::block_end(b, i),
        liberty::ident_end(a + b, a.len() + i) == a.len() + liberty::ident_end(b, i),
        i > 0 ==> liberty::number_end(a + b, a.len() + i) == a.len() + liberty::number_end(b, i),
        forall|stop: char| #[trigger]
            liberty::find_char(a + b, a.len() + i, stop) == a.len() + liberty::find_char(
                b,
                i,
                stop,
            ),
    decreases b.len() - i,
{
    if i < b.len() {
        assert((a + b)[a.len() + i] == b[i]);
        if i + 1 < b.len() {
            assert((a + b)[a.len() + i + 1] == b[i + 1]);
        }
        if i > 0 {
            assert((a + b)[a.len() + i - 1] == b[i - 1]);
        }
        lemma_ends_behind(a, b, i + 1);
        assert forall|stop: char| #[trigger]
            liberty::find_char(a + b, a.len() + i, stop) == a.len() + liberty::find_char(
                b,
                i,
                stop,
            ) by {
            let next = a.len() + (i + 1);
            assert(liberty::find_char(a + b, next, stop) == a.len() + liberty::find_char(
                b,
                i + 1,
                stop,
            ));
        }
    }
}

/// A text has the same tokens wherever it stands behind another.
proof fn lemma_lex_behind(a: Seq<char>, b: Seq<char>, i: int)
    requires
        0 <= i <= b.len(),
    ensures
        liberty::lex(a + b, a.len() + i) is Ok == liberty::lex(b, i) is Ok,
        liberty::lex(b, i) is Ok ==> liberty::lex(a + b, a.len() + i) == liberty::lex(b, i),
    decreases b.len() - i,
{
    let s = a + b;
    let n = a.len() as int;
    if i < b.len() {
        assert(s[n + i] == b[i]);
        if i + 1 < b.len() {
            assert(s[n + i + 1] == b[i + 1]);
        }
        liberty::lemma_ends(b, i + 1);
        lemma_ends_behind(a, b, i + 1);
        liberty::lemma_find_char(b, i + 1, '"');
        liberty::lemma_find_char(b, i + 1, '\n');
        assert(liberty::find_char(s, n + (i + 1), '"') == n + liberty::find_char(b, i + 1, '"'));
        assert(liberty::find_char(s, n + (i + 1), '\n') == n + liberty::find_char(b, i + 1, '\n'));
        if liberty::is_space(b[i]) || b[i] == '\\' {
            lemma_lex_behind(a, b, i + 1);
        } else if opens_block(b, i) {
            liberty::lemma_ends(b, i + 2);
            lemma_ends_behind(a, b, i + 2);
            lemma_lex_behind(a, b, liberty::block_end(b, i + 2));
        } else if opens_line(b, i) {
            lemma_lex_behind(a, b, liberty::find_char(b, i + 1, '\n'));
        } else if liberty::punctuation(b[i]) is Some {
            lemma_lex_behind(a, b, i + 1);
        } else if b[i] == '"' {
            let e = liberty::find_char(b, i + 1, '"');
            if e < b.len() {
                assert(s.subrange(n + i + 1, n + e) =~= b.subrange(i + 1, e));
                lemma_lex_behind(a, b, e + 1);
            }
        } else if liberty::starts_number(b, i) {
            let e = liberty::number_end(b, i + 1);
            assert(s.subrange(n + i, n + e) =~= b.subrange(i, e));
            lemma_lex_behind(a, b, e);
        } else if liberty::is_ident_start(b[i]) {
            let e = liberty::ident_end(b, i + 1);
            assert(s.subrange(n + i, n + e) =~= b.subrange(i, e));
            lemma_lex_behind(a, b, e);
        }
    }
}

// ── comments ───────────────────────────────────────────────────────

/// Whether the end of a block comment stands in a text.
pub open spec fn has_block_end(c: Seq<char>) -> bool {
    exists|i: int| 0 <= i && i + 1 < c.len() && #[trigger] c[i] == '*' && c[i + 1] == '/'
}

/// A block comment with a blank on either side.
pub open spec fn comment(c: Seq<char>) -> Seq<char> {
    seq![' ', '/', '*'] + c + seq!['*', '/', ' ']
}

proof fn lemma_comment_end(p: Seq<char>, c: Seq<char>, q: Seq<char>, i: int)
    requires
        !has_block_end(c),
        0 <= i <= c.len(),
    ensures
        liberty::block_end(p + comment(c) + q, p.len() + 3 + i) == p.len() + 3 + c.len() + 2,
    decreases c.len() - i,
{
    let s = p + comment(c) + q;
    let n = p.len() as int + 3;
    assert(s[n + c.len()] == '*');
    assert(s[n + c.len() + 1] == '/');
    if i < c.len() {
        assert(s[n + i] == c[i]);
        if i + 1 < c.len() {
            assert(s[n + i + 1] == c[i + 1]);
        }
        lemma_comment_end(p, c, q, i + 1);
        assert(!(s[n + i] == '*' && s[n + i + 1] == '/'));
    }
}

/// A comment between two pieces of a text changes nothing of what it is read as.
pub proof fn comments_change_nothing(p: Seq<char>, c: Seq<char>, q: Seq<char>)
    requires
        liberty::library_cells(p + q) is Ok,
        ends_piece(p + q, 0, p.len() as int, false),
        !has_block_end(c),
    ensures
        liberty::library_cells(p + comment(c) + q) == liberty::library_cells(p + q),
{
    let r = comment(c) + q;
    let s = p + comment(c) + q;
    let k = p.len() as int;
    assert(s =~= p + r);
    assert(r[0] == ' ');
    let ts = lemma_front(p, q, r, 0, false);
    assert(s[k] == ' ' && s[k + 1] == '/' && s[k + 2] == '*');
    lemma_comment_end(p, c, q, 0);
    let e = k + 3 + c.len() + 2;
    assert(s[e] == ' ');
    assert(liberty::lex(s, k) == liberty::lex(s, k + 1));
    assert(liberty::lex(s, k + 1) == liberty::lex(s, e));
    assert(liberty::lex(s, e) == liberty::lex(s, e + 1));
    let head = p + comment(c);
    lemma_lex_behind(head, q, 0);
    lemma_lex_behind(p, q, 0);
    assert(head.len() == e + 1);
}

// ── one text behind another ────────────────────────────────────────

/// The brackets that are open behind the first `n` tokens, from the outermost in: true for
/// a brace, false for a parenthesis; none where one was closed that was not the last open.
pub open spec fn open_brackets(t: Seq<TokenModel>, n: int) -> Option<Seq<bool>>
    decreases n,
{
    if n <= 0 {
        Some(Seq::empty())
    } else {
        match open_brackets(t, n - 1) {
            None => None,
            Some(open) => match t[n - 1] {
                TokenModel::LBrace => Some(open.push(true)),
                TokenModel::LParen => Some(open.push(false)),
                TokenModel::RBrace => if open.len() > 0 && open.last() {
                    Some(open.drop_last())
                } else {
                    None
                },
                TokenModel::RParen => if open.len() > 0 && !open.last() {
                    Some(open.drop_last())
                } else {
                    None
                },
                _ => Some(open),
            },
        }
    }
}

/// Whether tokens are whole groups: brackets are closed in the order in which they nest,
/// and the last token closes a group.
pub open spec fn whole_groups(t: Seq<TokenModel>) -> bool {
    open_brackets(t, t.len() as int) == Some(Seq::<bool>::empty()) && t.len() > 0
        && t.last() is RBrace
}

/// Whether `pin` groups stand in `cell` groups only, from token `i` on, where the groups of
/// `scopes` are open.
pub open spec fn pins_in_cells(t: Seq<TokenModel>, i: int, scopes: Seq<Scope>) -> bool
    decreases t.len() - i,
{
    proof {
        if 0 <= i && i + 2 <= t.len() {
            liberty::lemma_find_rparen(t, i + 2);
        }
    }
    if i < 0 || i >= t.len() {
        true
    } else if t[i] is Ident {
        let scope = liberty::scope_of(t[i]->Ident_0);
        match liberty::group_head(t, i) {
            Some((name, after)) => (scope == Scope::Pin ==> scopes.contains(Scope::Cell))
                && pins_in_cells(t, after, scopes.push(scope)),
            None => match liberty::attribute(t, i) {
                Some((attr, value, after)) => pins_in_cells(t, after, scopes),
                None => pins_in_cells(t, i + 1, scopes),
            },
        }
    } else if t[i] is RBrace && scopes.len() > 0 {
        pins_in_cells(t, i + 1, scopes.drop_last())
    } else {
        pins_in_cells(t, i + 1, scopes)
    }
}

/// How many braces are open.
spec fn braces(open: Seq<bool>) -> nat
    decreases open.len(),
{
    if open.len() == 0 {
        0
    } else {
        braces(open.drop_last()) + if open.last() {
            1nat
        } else {
            0nat
        }
    }
}

proof fn lemma_braces_push(open: Seq<bool>, b: bool)
    ensures
        braces(open.push(b)) == braces(open) + if b {
            1nat
        } else {
            0nat
        },
{
    assert(open.push(b).drop_last() =~= open);
}

proof fn lemma_braces_prefix(open: Seq<bool>, n: int)
    requires
        0 <= n <= open.len(),
    ensures
        braces(open.take(n)) <= braces(open),
    decreases open.len(),
{
    if n < open.len() {
        lemma_braces_prefix(open.drop_last(), n);
        assert(open.drop_last().take(n) =~= open.take(n));
    } else {
        assert(open.take(n) =~= open);
    }
}

proof fn lemma_open_before(t: Seq<TokenModel>, i: int, n: int)
    requires
        i <= n,
        open_brackets(t, n) is Some,
    ensures
        open_brackets(t, i) is Some,
    decreases n - i,
{
    if i < n && n > 0 {
        lemma_open_before(t, i, n - 1);
    }
}

/// Up to the next closing parenthesis an open one stays open.
proof fn lemma_stays_open(t: Seq<TokenModel>, i: int, n: int)
    requires
        0 <= i < n <= t.len(),
        t[i] is LParen,
        open_brackets(t, n) is Some,
        forall|j: int| i < j < n ==> !(#[trigger] t[j] is RParen),
    ensures
        open_brackets(t, i) is Some,
        open_brackets(t, n)->0.len() > open_brackets(t, i)->0.len(),
        open_brackets(t, n)->0.take(open_brackets(t, i)->0.len() as int + 1) == open_brackets(
            t,
            i,
        )->0.push(false),
    decreases n - i,
{
    lemma_open_before(t, i, n);
    let o = open_brackets(t, i)->0;
    let m = o.len() as int;
    if n == i + 1 {
        assert(o.push(false).take(m + 1) =~= o.push(false));
    } else {
        lemma_open_before(t, n - 1, n);
        lemma_stays_open(t, i, n - 1);
        let before = open_brackets(t, n - 1)->0;
        let now = open_brackets(t, n)->0;
        assert(before.take(m + 1)[m] == before[m]);
        assert(o.push(false)[m] == false);
        if t[n - 1] is RBrace {
            assert(before.last());
            assert(before.len() - 1 != m);
        }
        assert(now.take(m + 1) =~= before.take(m + 1));
    }
}

proof fn lemma_no_rparen(t: Seq<TokenModel>, i: int, j: int)
    requires
        0 <= i <= j < liberty::find_rparen(t, i),
    ensures
        j < t.len(),
        !(t[j] is RParen),
    decreases j - i,
{
    if i < j {
        liberty::lemma_find_rparen(t, i + 1);
        lemma_no_rparen(t, i + 1, j);
    } else {
        if i < t.len() {
            assert(!(t[i] is RParen));
        }
    }
}

/// In nested brackets every opening parenthesis is followed by a closing one.
proof fn lemma_rparen_follows(t: Seq<TokenModel>, i: int)
    requires
        open_brackets(t, t.len() as int) == Some(Seq::<bool>::empty()),
        0 <= i < t.len(),
        t[i] is LParen,
    ensures
        i < liberty::find_rparen(t, i + 1) < t.len(),
        t[liberty::find_rparen(t, i + 1)] is RParen,
{
    liberty::lemma_find_rparen(t, i + 1);
    let k = liberty::find_rparen(t, i + 1);
    assert forall|j: int| i < j < k implies !(#[trigger] t[j] is RParen) by {
        lemma_no_rparen(t, i + 1, j);
    }
    if k == t.len() {
        lemma_stays_open(t, i, k);
    }
    lemma_rparen_found(t, i + 1);
}

proof fn lemma_rparen_found(t: Seq<TokenModel>, i: int)
    requires
        0 <= i <= t.len(),
        liberty::find_rparen(t, i) < t.len(),
    ensures
        t[liberty::find_rparen(t, i)] is RParen,
    decreases t.len() - i,
{
    if i < t.len() && !(t[i] is RParen) {
        lemma_rparen_found(t, i + 1);
    }
}

proof fn lemma_rparen_same(a: Seq<TokenModel>, b: Seq<TokenModel>, i: int)
    requires
        0 <= i <= a.len(),
        liberty::find_rparen(a, i) < a.len(),
    ensures
        liberty::find_rparen(a + b, i) == liberty::find_rparen(a, i),
    decreases a.len() - i,
{
    if i < a.len() {
        assert((a + b)[i] == a[i]);
        if !(a[i] is RParen) {
            lemma_rparen_same(a, b, i + 1);
        }
    }
}

/// What starts in whole groups does not reach beyond them.
proof fn lemma_heads_stay_inside(a: Seq<TokenModel>, b: Seq<TokenModel>, i: int)
    requires
        whole_groups(a),
        0 <= i < a.len(),
        a[i] is Ident,
    ensures
        liberty::group_head(a + b, i) == liberty::group_head(a, i),
        liberty::attribute(a + b, i) == liberty::attribute(a, i),
{
    let t = a + b;
    let n = a.len() as int;
    assert(t[i] == a[i]);
    assert(t[n - 1] is RBrace);
    assert(i + 1 < n);
    assert(t[i + 1] == a[i + 1]);
    if a[i + 1] is LParen {
        assert(i + 2 < n);
        assert(t[i + 2] == a[i + 2]);
        lemma_rparen_follows(a, i + 1);
        lemma_rparen_same(a, b, i + 2);
        let k = liberty::find_rparen(a, i + 2);
        assert(k + 1 < n);
        assert(t[k + 1] == a[k + 1]);
    }
    if a[i + 1] is Colon {
        assert(i + 2 < n);
        assert(t[i + 2] == a[i + 2]);
        if i + 3 < n {
            assert(t[i + 3] == a[i + 3]);
        }
    }
}

/// Behind whole groups the reader goes on as at the start, with the cells found so far.
proof fn lemma_walk_through(
    a: Seq<TokenModel>,
    b: Seq<TokenModel>,
    i: int,
    scopes: Seq<Scope>,
    cells: Seq<CellModel>,
)
    requires
        whole_groups(a),
        0 <= i <= a.len(),
        open_brackets(a, i) is Some,
        scopes.len() <= braces(open_brackets(a, i)->0),
    ensures
        liberty::walk_from(a + b, i, scopes, cells) == liberty::walk_from(
            a + b,
            a.len() as int,
            Seq::empty(),
            liberty::walk_from(a, i, scopes, cells),
        ),
    decreases a.len() - i,
{
    let t = a + b;
    let n = a.len() as int;
    if i == n {
        assert(scopes =~= Seq::empty());
    } else {
        let open = open_brackets(a, i)->0;
        assert(t[i] == a[i]);
        lemma_open_before(a, i + 1, n);
        lemma_braces_push(open, true);
        lemma_braces_push(open, false);
        if open.len() > 0 {
            assert(open.drop_last().push(open.last()) =~= open);
            lemma_braces_push(open.drop_last(), open.last());
        }
        if a[i] is Ident {
            lemma_heads_stay_inside(a, b, i);
            let scope = liberty::scope_of(a[i]->Ident_0);
            match liberty::group_head(a, i) {
                Some((name, after)) => {
                    if i + 2 <= n {
                        liberty::lemma_find_rparen(a, i + 2);
                    }
                    lemma_open_before(a, after, n);
                    lemma_head_opens(a, i);
                    lemma_walk_through(
                        a,
                        b,
                        after,
                        scopes.push(scope),
                        liberty::open_group(scope, name, cells),
                    );
                },
                None => match liberty::attribute(a, i) {
                    Some((attr, value, after)) => {
                        reveal_with_fuel(open_brackets, 5);
                        lemma_open_before(a, after, n);
                        lemma_walk_through(
                            a,
                            b,
                            after,
                            scopes,
                            liberty::with_attribute(
                                liberty::innermost(scopes),
                                cells,
                                attr,
                                value,
                            ),
                        );
                    },
                    None => {
                        lemma_walk_through(a, b, i + 1, scopes, cells);
                    },
                },
            }
        } else if a[i] is RBrace && scopes.len() > 0 {
            lemma_walk_through(a, b, i + 1, scopes.drop_last(), cells);
        } else {
            lemma_walk_through(a, b, i + 1, scopes, cells);
        }
    }
}

/// Behind the head of a group one more brace is open, at least.
proof fn lemma_head_opens(a: Seq<TokenModel>, i: int)
    requires
        whole_groups(a),
        0 <= i < a.len(),
        liberty::group_head(a, i) is Some,
    ensures
        i < (liberty::group_head(a, i)->0).1 <= a.len(),
        open_brackets(a, i) is Some,
        open_brackets(a, (liberty::group_head(a, i)->0).1) is Some,
        braces(open_brackets(a, (liberty::group_head(a, i)->0).1)->0) > braces(
            open_brackets(a, i)->0,
        ),
{
    let n = a.len() as int;
    let after = (liberty::group_head(a, i)->0).1;
    lemma_open_before(a, i, n);
    lemma_open_before(a, i + 1, n);
    let open = open_brackets(a, i)->0;
    if a[i + 1] is LParen {
        liberty::lemma_find_rparen(a, i + 2);
        let k = liberty::find_rparen(a, i + 2);
        assert(after == k + 2);
        lemma_open_before(a, after, n);
        lemma_open_before(a, k + 1, n);
        lemma_open_before(a, k, n);
        assert forall|j: int| i + 1 < j < k implies !(#[trigger] a[j] is RParen) by {
            lemma_no_rparen(a, i + 2, j);
        }
        lemma_rparen_found(a, i + 2);
        lemma_stays_open(a, i + 1, k);
        assert(open_brackets(a, i + 1) == Some(open));
        let inside = open_brackets(a, k)->0;
        let behind = open_brackets(a, k + 1)->0;
        let m = open.len() as int;
        assert(behind == inside.drop_last());
        assert(inside.take(m + 1).take(m) =~= inside.take(m));
        assert(open.push(false).take(m) =~= open);
        assert(behind.take(m) =~= open);
        lemma_braces_prefix(behind, m);
        assert(open_brackets(a, after) == Some(behind.push(true)));
        lemma_braces_push(behind, true);
    } else {
        lemma_open_before(a, after, n);
        assert(open_brackets(a, i + 1) == Some(open));
        assert(open_brackets(a, after) == Some(open.push(true)));
        lemma_braces_push(open, true);
    }
}

/// Reading whole groups adds to the cells found before, and changes none of them.
proof fn lemma_cells_in_front(
    t: Seq<TokenModel>,
    i: int,
    scopes: Seq<Scope>,
    had: Seq<CellModel>,
    found: Seq<CellModel>,
)
    requires
        pins_in_cells(t, i, scopes),
        scopes.contains(Scope::Cell) || scopes.contains(Scope::Pin) ==> found.len() > 0,
    ensures
        liberty::walk_from(t, i, scopes, had + found) == had + liberty::walk_from(
            t,
            i,
            scopes,
            found,
        ),
    decreases t.len() - i,
{
    if 0 <= i < t.len() {
        if i + 2 <= t.len() {
            liberty::lemma_find_rparen(t, i + 2);
        }
        let all = had + found;
        if found.len() > 0 {
            assert(all.drop_last() =~= had + found.drop_last());
            assert(all.last() == found.last());
        }
        if t[i] is Ident {
            let scope = liberty::scope_of(t[i]->Ident_0);
            match liberty::group_head(t, i) {
                Some((name, after)) => {
                    let next = liberty::open_group(scope, name, found);
                    assert(liberty::open_group(scope, name, all) =~= had + next);
                    assert forall|x: Scope| scopes.push(scope).contains(x) implies x == scope
                        || scopes.contains(x) by {
                        let k = choose|k: int|
                            0 <= k < scopes.push(scope).len() && scopes.push(scope)[k] == x;
                        if k < scopes.len() {
                            assert(scopes[k] == x);
                        }
                    }
                    lemma_cells_in_front(t, after, scopes.push(scope), had, next);
                },
                None => match liberty::attribute(t, i) {
                    Some((attr, value, after)) => {
                        let top = liberty::innermost(scopes);
                        let next = liberty::with_attribute(top, found, attr, value);
                        if top == Scope::Cell || top == Scope::Pin {
                            assert(scopes.contains(top));
                        }
                        assert(liberty::with_attribute(top, all, attr, value) =~= had + next);
                        lemma_cells_in_front(t, after, scopes, had, next);
                    },
                    None => {
                        lemma_cells_in_front(t, i + 1, scopes, had, found);
                    },
                },
            }
        } else if t[i] is RBrace && scopes.len() > 0 {
            assert forall|x: Scope| scopes.drop_last().contains(x) implies scopes.contains(x) by {
                let k = choose|k: int|
                    0 <= k < scopes.drop_last().len() && scopes.drop_last()[k] == x;
                assert(scopes[k] == x);
            }
            lemma_cells_in_front(t, i + 1, scopes.drop_last(), had, found);
        } else {
            lemma_cells_in_front(t, i + 1, scopes, had, found);
        }
    }
}

proof fn lemma_rparen_behind(a: Seq<TokenModel>, b: Seq<TokenModel>, i: int)
    requires
        0 <= i <= b.len(),
    ensures
        liberty::find_rparen(a + b, a.len() + i) == a.len() + liberty::find_rparen(b, i),
    decreases b.len() - i,
{
    if i < b.len() {
        assert((a + b)[a.len() + i] == b[i]);
        lemma_rparen_behind(a, b, i + 1);
    }
}

/// Tokens are read alike wherever they stand behind others.
proof fn lemma_walk_behind(
    a: Seq<TokenModel>,
    b: Seq<TokenModel>,
    i: int,
    scopes: Seq<Scope>,
    cells: Seq<CellModel>,
)
    requires
        0 <= i <= b.len(),
    ensures
        liberty::walk_from(a + b, a.len() + i, scopes, cells) == liberty::walk_from(
            b,
            i,
            scopes,
            cells,
        ),
    decreases b.len() - i,
{
    let t = a + b;
    let n = a.len() as int;
    if i < b.len() {
        assert(t[n + i] == b[i]);
        if i + 1 < b.len() {
            assert(t[n + i + 1] == b[i + 1]);
        }
        if i + 2 <= b.len() {
            liberty::lemma_find_rparen(b, i + 2);
            lemma_rparen_behind(a, b, i + 2);
            let k = liberty::find_rparen(b, i + 2);
            if k + 1 < b.len() {
                assert(t[n + k + 1] == b[k + 1]);
            }
        }
        if i + 2 < b.len() {
            assert(t[n + i + 2] == b[i + 2]);
        }
        if i + 3 < b.len() {
            assert(t[n + i + 3] == b[i + 3]);
        }
        if b[i] is Ident {
            let scope = liberty::scope_of(b[i]->Ident_0);
            match liberty::group_head(b, i) {
                Some((name, after)) => {
                    lemma_walk_behind(
                        a,
                        b,
                        after,
                        scopes.push(scope),
                        liberty::open_group(scope, name, cells),
                    );
                },
                None => match liberty::attribute(b, i) {
                    Some((attr, value, after)) => {
                        lemma_walk_behind(
                            a,
                            b,
                            after,
                            scopes,
                            liberty::with_attribute(
                                liberty::innermost(scopes),
                                cells,
                                attr,
                                value,
                            ),
                        );
                    },
                    None => {
                        lemma_walk_behind(a, b, i + 1, scopes, cells);
                    },
                },
            }
        } else if b[i] is RBrace && scopes.len() > 0 {
            lemma_walk_behind(a, b, i + 1, scopes.drop_last(), cells);
        } else {
            lemma_walk_behind(a, b, i + 1, scopes, cells);
        }
    }
}

/// Two texts that can be read, one behind the other on a line of its own, are read as the
/// cells of the first and then those of the second. The first is made of whole groups and
/// leaves no string and no block comment open; in the second `pin` groups stand in `cell`
/// groups only.
pub proof fn libraries_are_read_in_order(a: Seq<char>, b: Seq<char>)
    requires
        liberty::library_cells(a) is Ok,
        liberty::library_cells(b) is Ok,
        ends_piece(a, 0, a.len() as int, true),
        whole_groups(liberty::lex(a, 0)->Ok_0),
        pins_in_cells(liberty::lex(b, 0)->Ok_0, 0, Seq::empty()),
    ensures
        liberty::library_cells(a + seq!['\n'] + b) == Ok::<Seq<CellModel>, Seq<char>>(
            liberty::library_cells(a)->Ok_0 + liberty::library_cells(b)->Ok_0,
        ),
{
    let ta = liberty::lex(a, 0)->Ok_0;
    let tb = liberty::lex(b, 0)->Ok_0;
    let none = Seq::<char>::empty();
    let r = seq!['\n'] + b;
    let s = a + seq!['\n'] + b;
    let k = a.len() as int;
    assert(a + none =~= a);
    assert(s =~= a + r);
    let ts = lemma_front(a, none, r, 0, true);
    assert(ts + Seq::<TokenModel>::empty() =~= ts);
    assert(ts == ta);
    assert(s[k] == '\n');
    let head = a + seq!['\n'];
    assert(head.len() == k + 1);
    assert(liberty::lex(s, k) == liberty::lex(s, k + 1));
    lemma_lex_behind(head, b, 0);
    assert(liberty::lex(s, 0) == Ok::<Seq<TokenModel>, Seq<char>>(ta + tb));
    let ca = liberty::library_cells(a)->Ok_0;
    lemma_walk_through(ta, tb, 0, Seq::empty(), Seq::empty());
    lemma_walk_behind(ta, tb, 0, Seq::empty(), ca);
    assert(ca + Seq::<CellModel>::empty() =~= ca);
    lemma_cells_in_front(tb, 0, Seq::empty(), ca, Seq::empty());
}

} // verus!
