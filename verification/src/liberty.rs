//! Liberty (`.lib`) metadata: cell area, pin list with directions, and the
//! Boolean function of output pins. Every other group and attribute is
//! skipped.

use crate::decimal;
use crate::double::Real;
use crate::numfmt;
use crate::text;
use vstd::prelude::*;
use vstd::string::*;

verus! {

#[derive(Debug, Clone, Copy, PartialEq, Eq, Hash, Structural)]
pub enum PinDirection {
    Input,
    Output,
    Inout,
    Power,
    Ground,
}

#[derive(Debug, Clone, PartialEq, Eq, Hash)]
pub struct PinInfo {
    pub name: String,
    pub direction: PinDirection,
    /// Boolean function of an output pin, such as `!(A & B)`.
    pub function: Option<String>,
}

#[derive(Debug, Clone, PartialEq, Eq, Hash)]
pub struct LibertyMetadata {
    pub cell_name: String,
    /// Cell area in thousandths of a square micron.
    pub area_um2_x1000: u64,
    pub pins: Vec<PinInfo>,
}

#[derive(Debug)]
pub enum LibertyError {
    Parse(String),
}

/// What a pin holds.
pub struct PinModel {
    pub name: Seq<char>,
    pub direction: PinDirection,
    pub function: Option<Seq<char>>,
}

/// What a cell holds.
pub struct CellModel {
    pub name: Seq<char>,
    pub area: nat,
    pub pins: Seq<PinModel>,
}

impl View for PinInfo {
    type V = PinModel;

    open spec fn view(&self) -> PinModel {
        PinModel {
            name: self.name@,
            direction: self.direction,
            function: match self.function {
                Some(f) => Some(f@),
                None => None,
            },
        }
    }
}

/// The pins that a list of pins stands for.
pub open spec fn pin_models(v: Seq<PinInfo>) -> Seq<PinModel> {
    v.map_values(|p: PinInfo| p@)
}

impl View for LibertyMetadata {
    type V = CellModel;

    open spec fn view(&self) -> CellModel {
        CellModel {
            name: self.cell_name@,
            area: self.area_um2_x1000 as nat,
            pins: pin_models(self.pins@),
        }
    }
}

impl PinInfo {
    /// A pin that holds the same.
    pub fn duplicate(&self) -> (res: Self)
        ensures
            res@ == self@,
    {
        PinInfo {
            name: self.name.clone(),
            direction: self.direction,
            function: match &self.function {
                Some(f) => Some(f.clone()),
                None => None,
            },
        }
    }
}

impl LibertyMetadata {
    /// Metadata that holds the same.
    pub fn duplicate(&self) -> (res: Self)
        ensures
            res@ == self@,
    {
        let mut pins: Vec<PinInfo> = Vec::new();
        let mut i: usize = 0;
        while i < self.pins.len()
            invariant
                i <= self.pins@.len(),
                pin_models(pins@) =~= pin_models(self.pins@).take(i as int),
            decreases self.pins@.len() - i,
        {
            let ghost before = pins@;
            pins.push(self.pins[i].duplicate());
            assert(pin_models(pins@) =~= pin_models(before).push(self.pins@[i as int]@));
            i = i + 1;
        }
        assert(pin_models(self.pins@).take(self.pins@.len() as int) =~= pin_models(self.pins@));
        LibertyMetadata {
            cell_name: self.cell_name.clone(),
            area_um2_x1000: self.area_um2_x1000,
            pins,
        }
    }
}

/// The cells that a list of cells stands for.
pub open spec fn cell_models(v: Seq<LibertyMetadata>) -> Seq<CellModel> {
    v.map_values(|c: LibertyMetadata| c@)
}

impl LibertyError {
    /// Human-readable form of the error.
    pub fn message(&self) -> (res: String)
        ensures
            match *self {
                LibertyError::Parse(m) => res@ == "Liberty parse error: "@ + m@,
            },
    {
        match self {
            LibertyError::Parse(m) => {
                let mut s = "Liberty parse error: ".to_owned();
                s.append(m.as_str());
                s
            },
        }
    }
}

// ── tokens ─────────────────────────────────────────────────────────

pub enum Token {
    LBrace,
    RBrace,
    LParen,
    RParen,
    Colon,
    Semi,
    Comma,
    Ident(String),
    Str(String),
    Num(Real),
}

/// What a token stands for.
pub enum TokenModel {
    LBrace,
    RBrace,
    LParen,
    RParen,
    Colon,
    Semi,
    Comma,
    Ident(Seq<char>),
    Str(Seq<char>),
    Num(Real),
}

impl View for Token {
    type V = TokenModel;

    open spec fn view(&self) -> TokenModel {
        match *self {
            Token::LBrace => TokenModel::LBrace,
            Token::RBrace => TokenModel::RBrace,
            Token::LParen => TokenModel::LParen,
            Token::RParen => TokenModel::RParen,
            Token::Colon => TokenModel::Colon,
            Token::Semi => TokenModel::Semi,
            Token::Comma => TokenModel::Comma,
            Token::Ident(s) => TokenModel::Ident(s@),
            Token::Str(s) => TokenModel::Str(s@),
            Token::Num(r) => TokenModel::Num(r),
        }
    }
}

/// The tokens that a list of tokens stands for.
pub open spec fn token_models(v: Seq<Token>) -> Seq<TokenModel> {
    v.map_values(|t: Token| t@)
}

pub open spec fn is_space(c: char) -> bool {
    c == ' ' || c == '\t' || c == '\n' || c == '\r' || c == '\x0c'
}

pub open spec fn is_letter(c: char) -> bool {
    ('a' <= c && c <= 'z') || ('A' <= c && c <= 'Z')
}

pub open spec fn is_ident_start(c: char) -> bool {
    is_letter(c) || c == '_'
}

pub open spec fn is_ident_char(c: char) -> bool {
    is_letter(c) || text::is_digit(c) || c == '_' || c == '.' || c == '/' || c == '-' || c == '$'
}

/// End of the block comment whose text starts at `i`; an unterminated comment
/// runs to the end.
pub open spec fn block_end(s: Seq<char>, i: int) -> int
    decreases s.len() - i,
{
    if i + 1 >= s.len() {
        s.len() as int
    } else if s[i] == '*' && s[i + 1] == '/' {
        i + 2
    } else {
        block_end(s, i + 1)
    }
}

/// First position at or after `i` whose character is `stop`, or the end.
pub open spec fn find_char(s: Seq<char>, i: int, stop: char) -> int
    decreases s.len() - i,
{
    if i >= s.len() {
        s.len() as int
    } else if s[i] == stop {
        i
    } else {
        find_char(s, i + 1, stop)
    }
}

/// End of the identifier that goes on at `i`.
pub open spec fn ident_end(s: Seq<char>, i: int) -> int
    decreases s.len() - i,
{
    if 0 <= i < s.len() && is_ident_char(s[i]) {
        ident_end(s, i + 1)
    } else {
        i
    }
}

/// Whether the character at `i` continues a number: a digit, a point, an
/// exponent letter, or a sign right after an exponent letter.
pub open spec fn goes_on_number(s: Seq<char>, i: int) -> bool {
    let c = s[i];
    ||| text::is_digit(c)
    ||| c == '.'
    ||| c == 'e'
    ||| c == 'E'
    ||| (c == '+' || c == '-') && i > 0 && (s[i - 1] == 'e' || s[i - 1] == 'E')
}

/// End of the number that goes on at `i`.
pub open spec fn number_end(s: Seq<char>, i: int) -> int
    decreases s.len() - i,
{
    if 0 <= i < s.len() && goes_on_number(s, i) {
        number_end(s, i + 1)
    } else {
        i
    }
}

/// A number starts with a digit, or with a minus sign or a point in front of
/// a digit.
pub open spec fn starts_number(s: Seq<char>, i: int) -> bool {
    ||| text::is_digit(s[i])
    ||| (s[i] == '-' || s[i] == '.') && i + 1 < s.len() && text::is_digit(s[i + 1])
}

pub proof fn lemma_ends(s: Seq<char>, i: int)
    requires
        0 <= i <= s.len(),
    ensures
        i <= block_end(s, i) <= s.len(),
        i <= ident_end(s, i) <= s.len(),
        i <= number_end(s, i) <= s.len(),
    decreases s.len() - i,
{
    if i < s.len() {
        lemma_ends(s, i + 1);
    }
}

pub proof fn lemma_find_char(s: Seq<char>, i: int, stop: char)
    requires
        0 <= i <= s.len(),
    ensures
        i <= find_char(s, i, stop) <= s.len(),
    decreases s.len() - i,
{
    if i < s.len() {
        lemma_find_char(s, i + 1, stop);
    }
}

/// The token of a punctuation character.
pub open spec fn punctuation(c: char) -> Option<TokenModel> {
    if c == '{' {
        Some(TokenModel::LBrace)
    } else if c == '}' {
        Some(TokenModel::RBrace)
    } else if c == '(' {
        Some(TokenModel::LParen)
    } else if c == ')' {
        Some(TokenModel::RParen)
    } else if c == ':' {
        Some(TokenModel::Colon)
    } else if c == ';' {
        Some(TokenModel::Semi)
    } else if c == ',' {
        Some(TokenModel::Comma)
    } else {
        None
    }
}

/// Number of bytes that UTF-8 spends on `c`.
pub open spec fn utf8_width(c: char) -> nat {
    if (c as u32) < 0x80 {
        1
    } else if (c as u32) < 0x800 {
        2
    } else if (c as u32) < 0x1_0000 {
        3
    } else {
        4
    }
}

/// First byte of the UTF-8 form of `c`.
pub open spec fn utf8_lead(c: char) -> u8 {
    if (c as u32) < 0x80 {
        c as u8
    } else if (c as u32) < 0x800 {
        (0xc0 + (c as u32) / 0x40) as u8
    } else if (c as u32) < 0x1_0000 {
        (0xe0 + (c as u32) / 0x1000) as u8
    } else {
        (0xf0 + (c as u32) / 0x4_0000) as u8
    }
}

/// Byte offset of the `i`-th character.
pub open spec fn byte_offset(s: Seq<char>, i: int) -> nat
    decreases i,
{
    if i <= 0 {
        0
    } else {
        byte_offset(s, i - 1) + utf8_width(s[i - 1])
    }
}

/// The `Debug` form of a character: in single quotes, with escapes where the
/// character cannot be shown as it is.
pub uninterp spec fn char_debug_text(c: char) -> Seq<char>;

/// The `Debug` implementation of `char`, through `format!("{:?}", c)`. Which
/// characters it escapes, and how, is left unsaid.
#[verifier::external_body]
fn char_debug(c: char) -> (res: String)
    ensures
        res@ == char_debug_text(c),
{
    format!("{:?}", c)
}

/// Complaint about a character that starts no token.
pub open spec fn unexpected_text(s: Seq<char>, i: int) -> Seq<char> {
    "unexpected byte "@ + char_debug_text(utf8_lead(s[i]) as char) + " at offset "@ + text::dec(
        byte_offset(s, i),
    )
}

/// `t` in front of the tokens of `rest`.
pub open spec fn then_token(
    t: TokenModel,
    rest: Result<Seq<TokenModel>, Seq<char>>,
) -> Result<Seq<TokenModel>, Seq<char>> {
    match rest {
        Ok(ts) => Ok(seq![t] + ts),
        Err(e) => Err(e),
    }
}

/// The tokens of `s` from position `i` on, or what is wrong with the text.
pub open spec fn lex(s: Seq<char>, i: int) -> Result<Seq<TokenModel>, Seq<char>>
    decreases s.len() - i,
{
    proof {
        if 0 <= i < s.len() {
            lemma_ends(s, i + 1);
            if i + 2 <= s.len() {
                lemma_ends(s, i + 2);
            }
            lemma_find_char(s, i + 1, '"');
            lemma_find_char(s, i + 1, '\n');
        }
    }
    if i < 0 || i >= s.len() {
        Ok(Seq::empty())
    } else if is_space(s[i]) || s[i] == '\\' {
        lex(s, i + 1)
    } else if s[i] == '/' && i + 1 < s.len() && s[i + 1] == '*' {
        lex(s, block_end(s, i + 2))
    } else if s[i] == '/' && i + 1 < s.len() && s[i + 1] == '/' {
        lex(s, find_char(s, i + 1, '\n'))
    } else if punctuation(s[i]) is Some {
        then_token(punctuation(s[i])->0, lex(s, i + 1))
    } else if s[i] == '"' {
        let e = find_char(s, i + 1, '"');
        if e >= s.len() {
            Err("unterminated string"@)
        } else {
            then_token(TokenModel::Str(s.subrange(i + 1, e)), lex(s, e + 1))
        }
    } else if starts_number(s, i) {
        let e = number_end(s, i + 1);
        match decimal::real_of_text(s.subrange(i, e)) {
            None => Err("invalid float literal"@),
            Some(r) => then_token(TokenModel::Num(r), lex(s, e)),
        }
    } else if is_ident_start(s[i]) {
        let e = ident_end(s, i + 1);
        then_token(TokenModel::Ident(s.subrange(i, e)), lex(s, e))
    } else {
        Err(unexpected_text(s, i))
    }
}

/// `done` in front of the tokens of `rest`.
pub open spec fn after_tokens(
    done: Seq<TokenModel>,
    rest: Result<Seq<TokenModel>, Seq<char>>,
) -> Result<Seq<TokenModel>, Seq<char>> {
    match rest {
        Ok(ts) => Ok(done + ts),
        Err(e) => Err(e),
    }
}

proof fn lemma_after_push(done: Seq<Token>, t: Token, rest: Result<Seq<TokenModel>, Seq<char>>)
    ensures
        after_tokens(token_models(done), then_token(t@, rest)) == after_tokens(
            token_models(done.push(t)),
            rest,
        ),
{
    assert(token_models(done.push(t)) =~= token_models(done).push(t@));
    match rest {
        Ok(ts) => {
            assert(token_models(done) + (seq![t@] + ts) =~= token_models(done.push(t)) + ts);
        },
        Err(_) => {},
    }
}

fn skip_block(v: &Vec<char>, from: usize) -> (res: usize)
    requires
        from <= v.len(),
    ensures
        res == block_end(v@, from as int),
        from <= res <= v.len(),
{
    proof {
        lemma_ends(v@, from as int);
    }
    let mut i: usize = from;
    while i < v.len() && i + 1 < v.len()
        invariant
            from <= i <= v.len(),
            block_end(v@, from as int) == block_end(v@, i as int),
        decreases v.len() - i,
    {
        if v[i] == '*' && v[i + 1] == '/' {
            proof {
                lemma_ends(v@, from as int);
            }
            return i + 2;
        }
        i = i + 1;
    }
    v.len()
}

fn skip_to(v: &Vec<char>, from: usize, stop: char) -> (res: usize)
    requires
        from <= v.len(),
    ensures
        res == find_char(v@, from as int, stop),
        from <= res <= v.len(),
{
    let mut i: usize = from;
    while i < v.len() && v[i] != stop
        invariant
            from <= i <= v.len(),
            find_char(v@, from as int, stop) == find_char(v@, i as int, stop),
        decreases v.len() - i,
    {
        i = i + 1;
    }
    i
}

fn ident_char(c: char) -> (res: bool)
    ensures
        res == is_ident_char(c),
{
    ('a' <= c && c <= 'z') || ('A' <= c && c <= 'Z') || ('0' <= c && c <= '9') || c == '_' || c
        == '.' || c == '/' || c == '-' || c == '$'
}

fn skip_ident(v: &Vec<char>, from: usize) -> (res: usize)
    requires
        from <= v.len(),
    ensures
        res == ident_end(v@, from as int),
        from <= res <= v.len(),
{
    let mut i: usize = from;
    while i < v.len() && ident_char(v[i])
        invariant
            from <= i <= v.len(),
            ident_end(v@, from as int) == ident_end(v@, i as int),
        decreases v.len() - i,
    {
        i = i + 1;
    }
    i
}

fn skip_number(v: &Vec<char>, from: usize) -> (res: usize)
    requires
        from <= v.len(),
    ensures
        res == number_end(v@, from as int),
        from <= res <= v.len(),
{
    let mut i: usize = from;
    while i < v.len()
        invariant
            from <= i <= v.len(),
            number_end(v@, from as int) == number_end(v@, i as int),
        ensures
            i <= v.len(),
            from <= i,
            number_end(v@, from as int) == i,
        decreases v.len() - i,
    {
        let c: char = v[i];
        let sign = c == '+' || c == '-';
        let after_e = i > 0 && (v[i - 1] == 'e' || v[i - 1] == 'E');
        if !(('0' <= c && c <= '9') || c == '.' || c == 'e' || c == 'E' || (sign && after_e)) {
            break;
        }
        i = i + 1;
    }
    i
}

/// Number of bytes that UTF-8 spends on `c`.
pub fn char_width(c: char) -> (res: u8)
    ensures
        res == utf8_width(c),
        1 <= res <= 4,
{
    let n: u32 = c as u32;
    if n < 0x80 {
        1
    } else if n < 0x800 {
        2
    } else if n < 0x1_0000 {
        3
    } else {
        4
    }
}

fn lead_byte(c: char) -> (res: u8)
    ensures
        res == utf8_lead(c),
{
    let n: u32 = c as u32;
    if n < 0x80 {
        c as u8
    } else if n < 0x800 {
        (0xc0 + n / 0x40) as u8
    } else if n < 0x1_0000 {
        (0xe0 + n / 0x1000) as u8
    } else {
        (0xf0 + n / 0x4_0000) as u8
    }
}

/// Byte offset of the `i`-th character.
pub fn offset_of(v: &Vec<char>, i: usize) -> (res: u128)
    requires
        i <= v.len(),
    ensures
        res == byte_offset(v@, i as int),
{
    let mut n: u128 = 0;
    let mut k: usize = 0;
    while k < i
        invariant
            k <= i <= v.len(),
            n == byte_offset(v@, k as int),
            n <= 4 * k,
        decreases i - k,
    {
        n = n + char_width(v[k]) as u128;
        k = k + 1;
    }
    n
}

fn punctuation_token(c: char) -> (res: Option<Token>)
    ensures
        match res {
            Some(t) => punctuation(c) == Some(t@),
            None => punctuation(c) is None,
        },
{
    if c == '{' {
        Some(Token::LBrace)
    } else if c == '}' {
        Some(Token::RBrace)
    } else if c == '(' {
        Some(Token::LParen)
    } else if c == ')' {
        Some(Token::RParen)
    } else if c == ':' {
        Some(Token::Colon)
    } else if c == ';' {
        Some(Token::Semi)
    } else if c == ',' {
        Some(Token::Comma)
    } else {
        None
    }
}

/// Outcome of reading the text `s`, as tokens or as a complaint.
pub open spec fn lexed(res: Result<Vec<Token>, LibertyError>) -> Result<
    Seq<TokenModel>,
    Seq<char>,
> {
    match res {
        Ok(ts) => Ok(token_models(ts@)),
        Err(LibertyError::Parse(m)) => Err(m@),
    }
}

/// Splits Liberty text into tokens. Whitespace, comments and line
/// continuations separate tokens and leave none.
pub fn tokenize(input: &str) -> (res: Result<Vec<Token>, LibertyError>)
    ensures
        lexed(res) == lex(input@, 0),
{
    let v = text::chars_of(input);
    let mut out: Vec<Token> = Vec::new();
    let mut i: usize = 0;
    assert(token_models(out@) =~= Seq::empty());
    proof {
        match lex(v@, 0) {
            Ok(ts) => {
                assert(Seq::<TokenModel>::empty() + ts =~= ts);
            },
            Err(_) => {},
        }
    }
    while i < v.len()
        invariant
            i <= v.len(),
            v@ == input@,
            lex(v@, 0) == after_tokens(token_models(out@), lex(v@, i as int)),
        decreases v.len() - i,
    {
        let c: char = v[i];
        if c == ' ' || c == '\t' || c == '\n' || c == '\r' || c == '\x0c' || c == '\\' {
            i = i + 1;
        } else if c == '/' && i + 1 < v.len() && v[i + 1] == '*' {
            i = skip_block(&v, i + 2);
        } else if c == '/' && i + 1 < v.len() && v[i + 1] == '/' {
            i = skip_to(&v, i + 1, '\n');
        } else if let Some(t) = punctuation_token(c) {
            proof {
                lemma_after_push(out@, t, lex(v@, i + 1));
            }
            out.push(t);
            i = i + 1;
        } else if c == '"' {
            let e: usize = skip_to(&v, i + 1, '"');
            if e >= v.len() {
                return Err(LibertyError::Parse("unterminated string".to_owned()));
            }
            let t = Token::Str(text::slice_string(&v, i + 1, e));
            proof {
                lemma_after_push(out@, t, lex(v@, e + 1));
            }
            out.push(t);
            i = e + 1;
        } else if ('0' <= c && c <= '9') || ((c == '-' || c == '.') && i + 1 < v.len() && '0' <= v[i
            + 1] && v[i + 1] <= '9') {
            let e: usize = skip_number(&v, i + 1);
            let lexeme = text::slice_string(&v, i, e);
            match decimal::parse_real(lexeme.as_str()) {
                None => {
                    return Err(LibertyError::Parse("invalid float literal".to_owned()));
                },
                Some(r) => {
                    let t = Token::Num(r);
                    proof {
                        lemma_after_push(out@, t, lex(v@, e as int));
                    }
                    out.push(t);
                },
            }
            i = e;
        } else if ('a' <= c && c <= 'z') || ('A' <= c && c <= 'Z') || c == '_' {
            let e: usize = skip_ident(&v, i + 1);
            let t = Token::Ident(text::slice_string(&v, i, e));
            proof {
                lemma_after_push(out@, t, lex(v@, e as int));
            }
            out.push(t);
            i = e;
        } else {
            let mut m = "unexpected byte ".to_owned();
            m.append(char_debug(lead_byte(c) as char).as_str());
            m.append(" at offset ");
            m.append(text::u128_to_string(offset_of(&v, i)).as_str());
            return Err(LibertyError::Parse(m));
        }
    }
    proof {
        assert(token_models(out@) + Seq::<TokenModel>::empty() =~= token_models(out@));
    }
    Ok(out)
}

// ── groups and attributes ──────────────────────────────────────────

/// What the innermost open group is.
#[derive(Debug, Clone, Copy, PartialEq, Eq, Structural)]
pub enum Scope {
    Other,
    Library,
    Cell,
    Pin,
}

/// First closing parenthesis at or after `i`, or the end.
pub open spec fn find_rparen(t: Seq<TokenModel>, i: int) -> int
    decreases t.len() - i,
{
    if i >= t.len() {
        t.len() as int
    } else if t[i] is RParen {
        i
    } else {
        find_rparen(t, i + 1)
    }
}

/// The name that a group's first argument gives it.
pub open spec fn argument_name(t: TokenModel) -> Option<Seq<char>> {
    match t {
        TokenModel::Str(s) => Some(s),
        TokenModel::Ident(s) => Some(s),
        TokenModel::Num(r) => Some(numfmt::shortest(r)),
        TokenModel::RParen => Some(Seq::empty()),
        _ => None,
    }
}

/// `ident ( args ) {` or `ident {` at `i`: the group's name and the position
/// behind the brace.
pub open spec fn group_head(t: Seq<TokenModel>, i: int) -> Option<(Seq<char>, int)> {
    if !(0 <= i < t.len() && t[i] is Ident) {
        None
    } else if i + 1 < t.len() && t[i + 1] is LParen {
        if i + 2 >= t.len() {
            None
        } else {
            match argument_name(t[i + 2]) {
                None => None,
                Some(name) => {
                    let k = find_rparen(t, i + 2);
                    if k + 1 < t.len() && t[k + 1] is LBrace {
                        Some((name, k + 2))
                    } else {
                        None
                    }
                },
            }
        }
    } else if i + 1 < t.len() && t[i + 1] is LBrace {
        Some((Seq::empty(), i + 2))
    } else {
        None
    }
}

/// `ident : value ;` at `i`: the attribute, its value and the position behind
/// the semicolon.
pub open spec fn attribute(t: Seq<TokenModel>, i: int) -> Option<(Seq<char>, TokenModel, int)> {
    if 0 <= i && i + 3 < t.len() && t[i + 1] is Colon && t[i + 3] is Semi && (t[i + 2] is Str || t[i
        + 2] is Num || t[i + 2] is Ident) {
        match t[i] {
            TokenModel::Ident(a) => Some((a, t[i + 2], i + 4)),
            _ => None,
        }
    } else {
        None
    }
}

pub open spec fn scope_of(kind: Seq<char>) -> Scope {
    if kind == "library"@ {
        Scope::Library
    } else if kind == "cell"@ {
        Scope::Cell
    } else if kind == "pin"@ {
        Scope::Pin
    } else {
        Scope::Other
    }
}

/// `pins` with one more input pin.
pub open spec fn fresh_pin(pins: Seq<PinModel>, name: Seq<char>) -> Seq<PinModel> {
    pins.push(PinModel { name, direction: PinDirection::Input, function: None })
}

/// The cells once a group named `name` has been opened: a `cell` group adds a
/// cell, a `pin` group adds an input pin to the latest cell.
pub open spec fn open_group(
    scope: Scope,
    name: Seq<char>,
    cells: Seq<CellModel>,
) -> Seq<CellModel> {
    match scope {
        Scope::Cell => cells.push(CellModel { name, area: 0, pins: Seq::empty() }),
        Scope::Pin => if cells.len() > 0 {
            let c = cells.last();
            cells.drop_last().push(CellModel { pins: fresh_pin(c.pins, name), ..c })
        } else {
            cells
        },
        _ => cells,
    }
}

/// The direction that a `direction` attribute names.
pub open spec fn direction_of(value: TokenModel) -> Option<PinDirection> {
    let word = match value {
        TokenModel::Ident(s) => Some(s),
        TokenModel::Str(s) => Some(s),
        _ => None,
    };
    match word {
        Some(w) => if w == "input"@ {
            Some(PinDirection::Input)
        } else if w == "output"@ {
            Some(PinDirection::Output)
        } else if w == "inout"@ {
            Some(PinDirection::Inout)
        } else {
            None
        },
        None => None,
    }
}

/// `cells` with the latest pin of the latest cell replaced by `p`.
pub open spec fn replace_pin(cells: Seq<CellModel>, p: PinModel) -> Seq<CellModel> {
    let c = cells.last();
    cells.drop_last().push(CellModel { pins: c.pins.drop_last().push(p), ..c })
}

/// The cells once the attribute has been read in `scope`.
pub open spec fn with_attribute(
    scope: Scope,
    cells: Seq<CellModel>,
    attr: Seq<char>,
    value: TokenModel,
) -> Seq<CellModel> {
    if cells.len() == 0 {
        cells
    } else if scope == Scope::Cell && attr == "area"@ {
        match value {
            TokenModel::Num(r) => cells.drop_last().push(
                CellModel { area: decimal::milli_units(r), ..cells.last() },
            ),
            _ => cells,
        }
    } else if scope == Scope::Pin && cells.last().pins.len() > 0 {
        let p = cells.last().pins.last();
        if attr == "direction"@ {
            match direction_of(value) {
                Some(direction) => replace_pin(cells, PinModel { direction, ..p }),
                None => cells,
            }
        } else if attr == "function"@ {
            match value {
                TokenModel::Str(f) => replace_pin(cells, PinModel { function: Some(f), ..p }),
                _ => cells,
            }
        } else {
            cells
        }
    } else {
        cells
    }
}

/// The innermost scope.
pub open spec fn innermost(scopes: Seq<Scope>) -> Scope {
    if scopes.len() > 0 {
        scopes.last()
    } else {
        Scope::Other
    }
}

pub proof fn lemma_find_rparen(t: Seq<TokenModel>, i: int)
    requires
        0 <= i <= t.len(),
    ensures
        i <= find_rparen(t, i) <= t.len(),
    decreases t.len() - i,
{
    if i < t.len() {
        lemma_find_rparen(t, i + 1);
    }
}

/// The cells that the tokens from `i` on describe, given the groups that are
/// open and the cells found so far.
pub open spec fn walk_from(
    t: Seq<TokenModel>,
    i: int,
    scopes: Seq<Scope>,
    cells: Seq<CellModel>,
) -> Seq<CellModel>
    decreases t.len() - i,
{
    proof {
        if 0 <= i && i + 2 <= t.len() {
            lemma_find_rparen(t, i + 2);
        }
    }
    if i < 0 || i >= t.len() {
        cells
    } else if t[i] is Ident {
        let scope = scope_of(t[i]->Ident_0);
        match group_head(t, i) {
            Some((name, after)) => walk_from(
                t,
                after,
                scopes.push(scope),
                open_group(scope, name, cells),
            ),
            None => match attribute(t, i) {
                Some((attr, value, after)) => walk_from(
                    t,
                    after,
                    scopes,
                    with_attribute(innermost(scopes), cells, attr, value),
                ),
                None => walk_from(t, i + 1, scopes, cells),
            },
        }
    } else if t[i] is RBrace && scopes.len() > 0 {
        walk_from(t, i + 1, scopes.drop_last(), cells)
    } else {
        walk_from(t, i + 1, scopes, cells)
    }
}

/// The cells that Liberty text describes, or what is wrong with the text.
pub open spec fn library_cells(s: Seq<char>) -> Result<Seq<CellModel>, Seq<char>> {
    match lex(s, 0) {
        Ok(t) => Ok(walk_from(t, 0, Seq::empty(), Seq::empty())),
        Err(e) => Err(e),
    }
}

fn name_of_argument(t: &Token) -> (res: Option<String>)
    ensures
        match res {
            Some(n) => argument_name(t@) == Some(n@),
            None => argument_name(t@) is None,
        },
{
    match t {
        Token::Str(s) => Some(s.clone()),
        Token::Ident(s) => Some(s.clone()),
        Token::Num(r) => Some(numfmt::to_shortest(*r)),
        Token::RParen => Some(String::new()),
        _ => None,
    }
}

fn read_group_head(tokens: &Vec<Token>, i: usize) -> (res: Option<(String, usize)>)
    requires
        i < tokens.len(),
    ensures
        match res {
            Some((n, after)) => {
                &&& group_head(token_models(tokens@), i as int) == Some((n@, after as int))
                &&& i < after <= tokens.len()
            },
            None => group_head(token_models(tokens@), i as int) is None,
        },
{
    let ghost t = token_models(tokens@);
    assert(t[i as int] == tokens@[i as int]@);
    match &tokens[i] {
        Token::Ident(_) => {},
        _ => {
            return None;
        },
    }
    if tokens.len() - i < 2 {
        return None;
    }
    assert(t[i + 1] == tokens@[i + 1]@);
    match &tokens[i + 1] {
        Token::LBrace => {
            return Some((String::new(), i + 2));
        },
        Token::LParen => {},
        _ => {
            return None;
        },
    }
    if tokens.len() - i < 3 {
        return None;
    }
    assert(t[i + 2] == tokens@[i + 2]@);
    let name = match name_of_argument(&tokens[i + 2]) {
        Some(n) => n,
        None => {
            return None;
        },
    };
    let mut k: usize = i + 2;
    while k < tokens.len()
        invariant
            i + 2 <= k <= tokens.len(),
            t == token_models(tokens@),
            find_rparen(t, i + 2) == find_rparen(t, k as int),
        ensures
            i + 2 <= k <= tokens.len(),
            find_rparen(t, i + 2) == k,
        decreases tokens.len() - k,
    {
        assert(t[k as int] == tokens@[k as int]@);
        let hit = match &tokens[k] {
            Token::RParen => true,
            _ => false,
        };
        if hit {
            break;
        }
        k = k + 1;
    }
    if tokens.len() - k < 2 {
        return None;
    }
    assert(t[k + 1] == tokens@[k + 1]@);
    match &tokens[k + 1] {
        Token::LBrace => Some((name, k + 2)),
        _ => None,
    }
}

fn is_attribute(tokens: &Vec<Token>, i: usize) -> (res: bool)
    requires
        i < tokens.len(),
        token_models(tokens@)[i as int] is Ident,
    ensures
        res == (attribute(token_models(tokens@), i as int) is Some),
        res ==> i + 3 < tokens.len(),
{
    let ghost t = token_models(tokens@);
    if tokens.len() - i < 4 {
        return false;
    }
    assert(t[i + 1] == tokens@[i + 1]@);
    assert(t[i + 2] == tokens@[i + 2]@);
    assert(t[i + 3] == tokens@[i + 3]@);
    let colon = match &tokens[i + 1] {
        Token::Colon => true,
        _ => false,
    };
    let valued = match &tokens[i + 2] {
        Token::Str(_) => true,
        Token::Num(_) => true,
        Token::Ident(_) => true,
        _ => false,
    };
    let semi = match &tokens[i + 3] {
        Token::Semi => true,
        _ => false,
    };
    colon && valued && semi
}

fn read_direction(value: &Token) -> (res: Option<PinDirection>)
    ensures
        res == direction_of(value@),
{
    let word = match value {
        Token::Ident(s) => s,
        Token::Str(s) => s,
        _ => {
            return None;
        },
    };
    if text::same(word.as_str(), "input") {
        Some(PinDirection::Input)
    } else if text::same(word.as_str(), "output") {
        Some(PinDirection::Output)
    } else if text::same(word.as_str(), "inout") {
        Some(PinDirection::Inout)
    } else {
        None
    }
}

proof fn lemma_cells_push(cells: Seq<LibertyMetadata>, c: LibertyMetadata)
    ensures
        cell_models(cells.push(c)) == cell_models(cells).push(c@),
{
    assert(cell_models(cells.push(c)) =~= cell_models(cells).push(c@));
}

proof fn lemma_cells_last(cells: Seq<LibertyMetadata>)
    requires
        cells.len() > 0,
    ensures
        cell_models(cells).len() == cells.len(),
        cell_models(cells).last() == cells.last()@,
        cell_models(cells.drop_last()) == cell_models(cells).drop_last(),
{
    assert(cell_models(cells.drop_last()) =~= cell_models(cells).drop_last());
}

fn start_group(cells: &mut Vec<LibertyMetadata>, scope: Scope, name: String)
    ensures
        cell_models(final(cells)@) == open_group(scope, name@, cell_models(old(cells)@)),
{
    match scope {
        Scope::Cell => {
            let c = LibertyMetadata { cell_name: name, area_um2_x1000: 0, pins: Vec::new() };
            proof {
                assert(c@.pins =~= Seq::empty());
                lemma_cells_push(cells@, c);
            }
            cells.push(c);
        },
        Scope::Pin => {
            proof {
                if cells@.len() > 0 {
                    lemma_cells_last(cells@);
                }
            }
            match cells.pop() {
                None => {},
                Some(c) => {
                    let mut pins = c.pins;
                    let ghost old_pins = pins@;
                    let pin = PinInfo { name, direction: PinDirection::Input, function: None };
                    pins.push(pin);
                    let next = LibertyMetadata {
                        cell_name: c.cell_name,
                        area_um2_x1000: c.area_um2_x1000,
                        pins,
                    };
                    proof {
                        assert(next@.pins =~= fresh_pin(pin_models(old_pins), name@));
                        lemma_cells_push(cells@, next);
                    }
                    cells.push(next);
                },
            }
        },
        _ => {},
    }
}

fn apply_attribute(cells: &mut Vec<LibertyMetadata>, scope: Scope, attr: &str, value: &Token)
    ensures
        cell_models(final(cells)@) == with_attribute(
            scope,
            cell_models(old(cells)@),
            attr@,
            value@,
        ),
{
    proof {
        if cells@.len() > 0 {
            lemma_cells_last(cells@);
        }
        reveal_strlit("area");
        reveal_strlit("direction");
        reveal_strlit("function");
    }
    match cells.pop() {
        None => {},
        Some(c) => {
            let mut area: u64 = c.area_um2_x1000;
            let mut pins = c.pins;
            let ghost old_pins = pins@;
            if scope == Scope::Cell {
                if text::same(attr, "area") {
                    match value {
                        Token::Num(r) => {
                            area = decimal::to_milli_units(*r);
                        },
                        _ => {},
                    }
                }
            } else if scope == Scope::Pin {
                proof {
                    if pins@.len() > 0 {
                        assert(pin_models(pins@.drop_last()) =~= pin_models(pins@).drop_last());
                        assert(pin_models(pins@).last() == pins@.last()@);
                    }
                }
                match pins.pop() {
                    None => {},
                    Some(p) => {
                        let mut direction = p.direction;
                        let mut function = p.function;
                        if text::same(attr, "direction") {
                            match read_direction(value) {
                                Some(d) => {
                                    direction = d;
                                },
                                None => {},
                            }
                        } else if text::same(attr, "function") {
                            match value {
                                Token::Str(f) => {
                                    function = Some(f.clone());
                                },
                                _ => {},
                            }
                        }
                        let ghost rest = pins@;
                        let next = PinInfo { name: p.name, direction, function };
                        pins.push(next);
                        assert(pin_models(rest.push(next)) =~= pin_models(rest).push(next@));
                    },
                }
            }
            let next = LibertyMetadata { cell_name: c.cell_name, area_um2_x1000: area, pins };
            proof {
                let before = cell_models(old(cells)@);
                lemma_cells_push(cells@, next);
                assert(before.drop_last().push(before.last()) =~= before);
                if old_pins.len() > 0 {
                    let ps = pin_models(old_pins);
                    assert(ps.drop_last().push(ps.last()) =~= ps);
                }
            }
            cells.push(next);
        },
    }
}

/// Walks the tokens with a stack of open groups and collects the cells.
pub fn walk(tokens: &Vec<Token>) -> (res: Vec<LibertyMetadata>)
    ensures
        cell_models(res@) == walk_from(token_models(tokens@), 0, Seq::empty(), Seq::empty()),
{
    let mut cells: Vec<LibertyMetadata> = Vec::new();
    let mut scopes: Vec<Scope> = Vec::new();
    let mut i: usize = 0;
    let ghost t = token_models(tokens@);
    assert(cell_models(cells@) =~= Seq::empty());
    assert(scopes@ =~= Seq::empty());
    while i < tokens.len()
        invariant
            i <= tokens.len(),
            t == token_models(tokens@),
            walk_from(t, 0, Seq::empty(), Seq::empty()) == walk_from(
                t,
                i as int,
                scopes@,
                cell_models(cells@),
            ),
        decreases tokens.len() - i,
    {
        assert(t[i as int] == tokens@[i as int]@);
        match &tokens[i] {
            Token::Ident(kind) => {
                match read_group_head(tokens, i) {
                    Some((name, after)) => {
                        let scope = if text::same(kind.as_str(), "library") {
                            Scope::Library
                        } else if text::same(kind.as_str(), "cell") {
                            Scope::Cell
                        } else if text::same(kind.as_str(), "pin") {
                            Scope::Pin
                        } else {
                            Scope::Other
                        };
                        start_group(&mut cells, scope, name);
                        scopes.push(scope);
                        i = after;
                    },
                    None => {
                        if is_attribute(tokens, i) {
                            let top = if scopes.len() > 0 {
                                scopes[scopes.len() - 1]
                            } else {
                                Scope::Other
                            };
                            assert(t[i + 2] == tokens@[i + 2]@);
                            apply_attribute(&mut cells, top, kind.as_str(), &tokens[i + 2]);
                            i = i + 4;
                        } else {
                            i = i + 1;
                        }
                    },
                }
            },
            Token::RBrace => {
                let ghost before = scopes@;
                let _ = scopes.pop();
                proof {
                    if before.len() > 0 {
                        assert(scopes@ =~= before.drop_last());
                    } else {
                        assert(scopes@ =~= before);
                    }
                }
                i = i + 1;
            },
            _ => {
                i = i + 1;
            },
        }
    }
    cells
}

/// Reads the cells of a `.lib` file: one entry for each `cell (...) { ... }`
/// group, in order.
pub fn parse_lib(input: &str) -> (res: Result<Vec<LibertyMetadata>, LibertyError>)
    ensures
        match res {
            Ok(cells) => library_cells(input@) == Ok::<Seq<CellModel>, Seq<char>>(
                cell_models(cells@),
            ),
            Err(LibertyError::Parse(m)) => library_cells(input@) == Err::<
                Seq<CellModel>,
                Seq<char>,
            >(m@),
        },
{
    match tokenize(input) {
        Ok(tokens) => {
            Ok(walk(&tokens))
        },
        Err(e) => Err(e),
    }
}

/// An attribute that the reader does not know leaves every cell as it was.
pub proof fn unknown_attributes_are_skipped(
    scope: Scope,
    cells: Seq<CellModel>,
    attr: Seq<char>,
    value: TokenModel,
)
    requires
        attr != "area"@,
        attr != "direction"@,
        attr != "function"@,
    ensures
        with_attribute(scope, cells, attr, value) == cells,
{
}

/// A group that is neither a cell nor a pin leaves every cell as it was, and
/// so does every attribute directly inside it.
pub proof fn unknown_groups_are_skipped(
    kind: Seq<char>,
    name: Seq<char>,
    cells: Seq<CellModel>,
    attr: Seq<char>,
    value: TokenModel,
)
    requires
        kind != "cell"@,
        kind != "pin"@,
    ensures
        open_group(scope_of(kind), name, cells) == cells,
        with_attribute(scope_of(kind), cells, attr, value) == cells,
{
}

/// Cells are only ever added: what is read later never removes a cell and
/// never renames one.
pub proof fn cells_are_only_added(
    t: Seq<TokenModel>,
    i: int,
    scopes: Seq<Scope>,
    cells: Seq<CellModel>,
)
    ensures
        walk_from(t, i, scopes, cells).len() >= cells.len(),
        forall|k: int|
            0 <= k < cells.len() ==> (#[trigger] walk_from(t, i, scopes, cells)[k]).name
                == cells[k].name,
    decreases t.len() - i,
{
    if 0 <= i < t.len() {
        if i + 2 <= t.len() {
            lemma_find_rparen(t, i + 2);
        }
        if t[i] is Ident {
            let scope = scope_of(t[i]->Ident_0);
            match group_head(t, i) {
                Some((name, after)) => {
                    let next = open_group(scope, name, cells);
                    cells_are_only_added(t, after, scopes.push(scope), next);
                    assert forall|k: int| 0 <= k < cells.len() implies next[k].name
                        == cells[k].name by {}
                },
                None => match attribute(t, i) {
                    Some((attr, value, after)) => {
                        let next = with_attribute(innermost(scopes), cells, attr, value);
                        cells_are_only_added(t, after, scopes, next);
                        assert forall|k: int| 0 <= k < cells.len() implies next[k].name
                            == cells[k].name by {}
                    },
                    None => {
                        cells_are_only_added(t, i + 1, scopes, cells);
                    },
                },
            }
        } else if t[i] is RBrace && scopes.len() > 0 {
            cells_are_only_added(t, i + 1, scopes.drop_last(), cells);
        } else {
            cells_are_only_added(t, i + 1, scopes, cells);
        }
    }
}

} // verus!
