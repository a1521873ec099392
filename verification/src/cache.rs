//! Cache of simulation runs, keyed by a hash of the deck and of the model
//! libraries that it uses.

use crate::paths;
use crate::text;
use vstd::prelude::*;
use vstd::string::*;

verus! {

/// When a cached run is used.
#[derive(Debug, Clone, Copy, PartialEq, Eq, Structural)]
pub enum CacheMode {
    /// Reuse a run with the same key, run otherwise.
    Auto,
    /// Run regardless of the key.
    Force,
    /// Never run; a run that is not cached is an error.
    ReuseOnly,
    /// Neither read nor write the cache.
    Off,
}

/// A cache directory and its mode.
#[derive(Debug)]
pub struct Cache {
    pub dir: String,
    pub mode: CacheMode,
}

/// Where the artifacts of one run lie.
#[derive(Debug)]
pub struct CacheEntry {
    pub sha: String,
    pub stdout_path: String,
    pub raw_path: String,
    pub deck_path: String,
    pub meta_path: String,
}

/// Why the cache gave no run.
#[derive(Debug)]
pub enum CacheError {
    Io(String),
    NoEntry(String),
}

impl CacheError {
    pub open spec fn text(self) -> Seq<char> {
        match self {
            CacheError::Io(e) => "io: "@ + e@,
            CacheError::NoEntry(sha) => "ReuseOnly mode: no cache entry for sha "@ + sha@,
        }
    }

    /// Human-readable form of the error.
    pub fn message(&self) -> (res: String)
        ensures
            res@ == self.text(),
    {
        match self {
            CacheError::Io(e) => {
                let mut s = "io: ".to_owned();
                s.append(e.as_str());
                s
            },
            CacheError::NoEntry(sha) => {
                let mut s = "ReuseOnly mode: no cache entry for sha ".to_owned();
                s.append(sha.as_str());
                s
            },
        }
    }
}

/// The 32 bytes of the SHA-256 hash of `data`.
pub uninterp spec fn sha256_digest(data: Seq<u8>) -> Seq<u8>;

/// `sha2::Sha256::digest`: the SHA-256 hash of the bytes, always 32 bytes long.
/// How it is computed is left unsaid.
#[verifier::external_body]
fn sha256(data: &Vec<u8>) -> (res: Vec<u8>)
    ensures
        res@ == sha256_digest(data@),
        res@.len() == 32,
{
    <sha2::Sha256 as sha2::Digest>::digest(data).to_vec()
}

/// What is known of the content of a model library.
#[derive(Debug)]
pub enum LibContent {
    Bytes(Vec<u8>),
    /// There is no such file.
    Missing,
    /// The file could not be read to its end.
    Unreadable,
}

/// A model library: its path and its content.
#[derive(Debug)]
pub struct LibFile {
    pub path: String,
    pub content: LibContent,
}

/// Bytes as pairs of hexadecimal digits.
pub open spec fn hex_bytes(b: Seq<u8>) -> Seq<char>
    decreases b.len(),
{
    if b.len() == 0 {
        Seq::empty()
    } else {
        hex_bytes(b.drop_last()) + text::hex(b.last() as nat, 2)
    }
}

/// Hash of a library's content, or a word for why there is none.
pub open spec fn content_tag(c: LibContent) -> Seq<char> {
    match c {
        LibContent::Bytes(b) => hex_bytes(sha256_digest(b@)),
        LibContent::Missing => "missing"@,
        LibContent::Unreadable => "io-error"@,
    }
}

/// The last component of a path, `?` where there is none.
pub open spec fn base_name(path: Seq<char>) -> Seq<char> {
    match paths::file_name(path) {
        Some(n) => n,
        None => "?"@,
    }
}

/// The bytes of a text in UTF-8.
pub open spec fn utf8(s: Seq<char>) -> Seq<u8> {
    vstd::utf8::encode_utf8(s)
}

/// What the key of a run says of one library.
pub open spec fn lib_bytes(f: LibFile) -> Seq<u8> {
    utf8(base_name(f.path@)) + utf8(":"@) + utf8(content_tag(f.content)) + utf8("\n"@)
}

/// What the key of a run says of its libraries.
pub open spec fn libs_bytes(libs: Seq<LibFile>) -> Seq<u8>
    decreases libs.len(),
{
    if libs.len() == 0 {
        Seq::empty()
    } else {
        libs_bytes(libs.drop_last()) + lib_bytes(libs.last())
    }
}

/// What is hashed into the key of a run.
pub open spec fn key_bytes(deck: Seq<char>, libs: Seq<LibFile>) -> Seq<u8> {
    utf8(deck) + utf8("\n--libs--\n"@) + libs_bytes(libs)
}

/// The key of a run: SHA-256 over the deck and over base name and content hash
/// of each library.
pub open spec fn run_key(deck: Seq<char>, libs: Seq<LibFile>) -> Seq<char> {
    hex_bytes(sha256_digest(key_bytes(deck, libs)))
}

fn to_hex_bytes(b: &Vec<u8>) -> (res: String)
    ensures
        res@ == hex_bytes(b@),
{
    let mut s = String::new();
    let mut i: usize = 0;
    assert(b@.take(0) =~= Seq::empty());
    while i < b.len()
        invariant
            i <= b.len(),
            s@ == hex_bytes(b@.take(i as int)),
        decreases b.len() - i,
    {
        s.append(text::to_hex(b[i] as u64, 2).as_str());
        i = i + 1;
        assert(b@.take(i as int).drop_last() =~= b@.take(i - 1));
    }
    assert(b@.take(b@.len() as int) =~= b@);
    s
}

/// Hash of a library's content, or a word for why there is none.
pub fn lib_content_sha(c: &LibContent) -> (res: String)
    ensures
        res@ == content_tag(*c),
{
    match c {
        LibContent::Bytes(b) => to_hex_bytes(&sha256(b)),
        LibContent::Missing => "missing".to_owned(),
        LibContent::Unreadable => "io-error".to_owned(),
    }
}

/// Whether a character is a lower-case hexadecimal digit.
pub open spec fn is_hex_digit(c: char) -> bool {
    '0' <= c <= '9' || 'a' <= c <= 'f'
}

/// Whether a text has the form of a key: 64 lower-case hexadecimal digits.
pub open spec fn is_key(s: Seq<char>) -> bool {
    s.len() == 64 && forall|i: int| 0 <= i < s.len() ==> is_hex_digit(#[trigger] s[i])
}

/// Hash of a byte string as 64 lower-case hexadecimal digits.
pub fn digest_key(data: &Vec<u8>) -> (res: String)
    ensures
        res@ == hex_bytes(sha256_digest(data@)),
        is_key(res@),
{
    let digest = sha256(data);
    proof {
        bytes_are_pairs_of_hex_digits(digest@);
    }
    to_hex_bytes(&digest)
}

/// What is hashed into the key of a run.
pub fn key_input(deck: &str, libs: &Vec<LibFile>) -> (res: Vec<u8>)
    ensures
        res@ == key_bytes(deck@, libs@),
{
    let mut out: Vec<u8> = Vec::new();
    text::push_bytes(&mut out, deck);
    text::push_bytes(&mut out, "\n--libs--\n");
    let ghost head = out@;
    assert(head =~= utf8(deck@) + utf8("\n--libs--\n"@));
    let mut i: usize = 0;
    assert(libs@.take(0) =~= Seq::empty());
    assert(out@ =~= head + libs_bytes(libs@.take(0)));
    while i < libs.len()
        invariant
            i <= libs.len(),
            out@ == head + libs_bytes(libs@.take(i as int)),
        decreases libs.len() - i,
    {
        let ghost before = out@;
        let name = match paths::file_name_of(libs[i].path.as_str()) {
            Some(n) => n,
            None => "?".to_owned(),
        };
        let tag = lib_content_sha(&libs[i].content);
        text::push_bytes(&mut out, name.as_str());
        text::push_bytes(&mut out, ":");
        text::push_bytes(&mut out, tag.as_str());
        text::push_bytes(&mut out, "\n");
        i = i + 1;
        proof {
            let s = libs@.take(i as int);
            assert(s.drop_last() =~= libs@.take(i - 1));
            assert(out@ =~= before + lib_bytes(libs@[i - 1]));
            assert(out@ =~= head + libs_bytes(s));
        }
    }
    assert(libs@.take(libs@.len() as int) =~= libs@);
    out
}

/// Files that a finished run leaves in the cache.
#[derive(Debug, Clone, Copy, PartialEq, Eq, Structural)]
pub enum Artifact {
    Deck,
    Stdout,
    Meta,
    Raw,
}

/// How to come by the result of a run.
#[derive(Debug)]
pub enum RunPlan {
    /// Load the cached output.
    Reuse,
    /// There is no cached output and no run is wanted.
    Refuse(CacheError),
    /// Run the simulator.
    Simulate,
}

impl Cache {
    pub fn new(dir: &str, mode: CacheMode) -> (res: Self)
        ensures
            res.dir@ == dir@,
            res.mode == mode,
    {
        Cache { dir: dir.to_owned(), mode }
    }

    pub fn off() -> (res: Self)
        ensures
            res.dir@ == "."@,
            res.mode == CacheMode::Off,
    {
        Cache { dir: ".".to_owned(), mode: CacheMode::Off }
    }

    /// The key of a run. Paths of the libraries take no part in it beyond their
    /// base names, so that a library can be moved without a new run.
    pub fn compute_sha(deck: &str, libs: &Vec<LibFile>) -> (res: String)
        ensures
            res@ == run_key(deck@, libs@),
            is_key(res@),
    {
        digest_key(&key_input(deck, libs))
    }

    /// Where the artifacts of the run with key `sha` lie.
    pub open spec fn entry_paths(self, sha: Seq<char>, e: CacheEntry) -> bool {
        &&& e.sha@ == sha
        &&& e.stdout_path@ == paths::joined(self.dir@, sha + ".stdout"@)
        &&& e.raw_path@ == paths::joined(self.dir@, sha + ".raw"@)
        &&& e.deck_path@ == paths::joined(self.dir@, sha + ".deck"@)
        &&& e.meta_path@ == paths::joined(self.dir@, sha + ".meta.json"@)
    }

    fn path_for(&self, sha: &str, ext: &str) -> (res: String)
        ensures
            res@ == paths::joined(self.dir@, sha@ + ext@),
    {
        let mut name = sha.to_owned();
        name.append(ext);
        paths::join(self.dir.as_str(), name.as_str())
    }

    pub fn entry(&self, sha: &str) -> (res: CacheEntry)
        ensures
            self.entry_paths(sha@, res),
    {
        CacheEntry {
            sha: sha.to_owned(),
            stdout_path: self.path_for(sha, ".stdout"),
            raw_path: self.path_for(sha, ".raw"),
            deck_path: self.path_for(sha, ".deck"),
            meta_path: self.path_for(sha, ".meta.json"),
        }
    }

    /// Whether a cached run may be used.
    pub open spec fn reusable(self, stdout_exists: bool) -> bool {
        stdout_exists && (self.mode == CacheMode::Auto || self.mode == CacheMode::ReuseOnly)
    }

    /// True when the cached output exists and the mode lets it be used.
    pub fn can_reuse(&self, stdout_exists: bool) -> (res: bool)
        ensures
            res == self.reusable(stdout_exists),
    {
        match self.mode {
            CacheMode::Off => false,
            CacheMode::Force => false,
            CacheMode::Auto => stdout_exists,
            CacheMode::ReuseOnly => stdout_exists,
        }
    }

    /// How to come by the result of the run with key `sha`.
    pub fn plan(&self, sha: &str, stdout_exists: bool) -> (res: RunPlan)
        ensures
            match res {
                RunPlan::Reuse => self.reusable(stdout_exists),
                RunPlan::Refuse(e) => {
                    &&& !stdout_exists
                    &&& self.mode == CacheMode::ReuseOnly
                    &&& e matches CacheError::NoEntry(s) && s@ == sha@
                },
                RunPlan::Simulate => !self.reusable(stdout_exists) && self.mode
                    != CacheMode::ReuseOnly,
            },
    {
        if self.can_reuse(stdout_exists) {
            RunPlan::Reuse
        } else if self.mode == CacheMode::ReuseOnly {
            RunPlan::Refuse(CacheError::NoEntry(sha.to_owned()))
        } else {
            RunPlan::Simulate
        }
    }

    /// The files to write once a run has finished, in order; none with the cache
    /// switched off.
    pub open spec fn stored(self, has_raw: bool) -> Seq<Artifact> {
        if self.mode == CacheMode::Off {
            Seq::empty()
        } else if has_raw {
            seq![Artifact::Deck, Artifact::Stdout, Artifact::Meta, Artifact::Raw]
        } else {
            seq![Artifact::Deck, Artifact::Stdout, Artifact::Meta]
        }
    }

    pub fn store(&self, has_raw: bool) -> (res: Vec<Artifact>)
        ensures
            res@ == self.stored(has_raw),
    {
        let mut out: Vec<Artifact> = Vec::new();
        if self.mode != CacheMode::Off {
            out.push(Artifact::Deck);
            out.push(Artifact::Stdout);
            out.push(Artifact::Meta);
            if has_raw {
                out.push(Artifact::Raw);
            }
        }
        assert(out@ =~= self.stored(has_raw));
        out
    }
}

impl CacheEntry {
    /// The path of one artifact.
    pub fn path_of(&self, a: Artifact) -> (res: &String)
        ensures
            res@ == (match a {
                Artifact::Deck => self.deck_path@,
                Artifact::Stdout => self.stdout_path@,
                Artifact::Meta => self.meta_path@,
                Artifact::Raw => self.raw_path@,
            }),
    {
        match a {
            Artifact::Deck => &self.deck_path,
            Artifact::Stdout => &self.stdout_path,
            Artifact::Meta => &self.meta_path,
            Artifact::Raw => &self.raw_path,
        }
    }
}

/// Hashes of library contents that were computed before, by path and time of
/// last modification.
#[derive(Debug)]
pub struct HashMemo {
    pub entries: Vec<(String, u128, String)>,
}

/// The hash remembered for the path and time.
pub open spec fn remembered(
    s: Seq<(String, u128, String)>,
    path: Seq<char>,
    mtime: u128,
) -> Option<Seq<char>>
    decreases s.len(),
{
    if s.len() == 0 {
        None
    } else if s.last().0@ == path && s.last().1 == mtime {
        Some(s.last().2@)
    } else {
        remembered(s.drop_last(), path, mtime)
    }
}

impl HashMemo {
    pub fn new() -> (res: Self)
        ensures
            res.entries@.len() == 0,
    {
        HashMemo { entries: Vec::new() }
    }

    pub fn lookup(&self, path: &str, mtime: u128) -> (res: Option<String>)
        ensures
            paths::opt_text(res) == remembered(self.entries@, path@, mtime),
    {
        let mut i: usize = self.entries.len();
        assert(self.entries@.take(i as int) =~= self.entries@);
        while i > 0
            invariant
                i <= self.entries.len(),
                remembered(self.entries@, path@, mtime) == remembered(
                    self.entries@.take(i as int),
                    path@,
                    mtime,
                ),
            decreases i,
        {
            assert(self.entries@.take(i as int).drop_last() =~= self.entries@.take(i - 1));
            i = i - 1;
            if self.entries[i].1 == mtime && text::same(self.entries[i].0.as_str(), path) {
                return Some(self.entries[i].2.clone());
            }
        }
        None
    }

    pub fn remember(&mut self, path: &str, mtime: u128, sha: &str)
        ensures
            remembered(final(self).entries@, path@, mtime) == Some(sha@),
            forall|p: Seq<char>, t: u128|
                (p != path@ || t != mtime) ==> #[trigger] remembered(final(self).entries@, p, t)
                    == remembered(old(self).entries@, p, t),
    {
        let ghost before = self.entries@;
        self.entries.push((path.to_owned(), mtime, sha.to_owned()));
        assert(self.entries@.drop_last() =~= before);
    }
}

/// With the cache off or forced, no cached run is ever used.
pub proof fn off_and_force_never_reuse(c: Cache, stdout_exists: bool)
    requires
        c.mode == CacheMode::Off || c.mode == CacheMode::Force,
    ensures
        !c.reusable(stdout_exists),
{
}

/// The key looks at base names and contents only: moving a library does not
/// change it.
pub proof fn key_survives_moving_a_library(deck: Seq<char>, a: Seq<LibFile>, b: Seq<LibFile>)
    requires
        a.len() == b.len(),
        forall|i: int|
            0 <= i < a.len() ==> base_name((#[trigger] a[i]).path@) == base_name(b[i].path@)
                && !contents_differ(a[i].content, b[i].content),
    ensures
        run_key(deck, a) == run_key(deck, b),
{
    assert forall|i: int| 0 <= i < a.len() implies base_name((#[trigger] a[i]).path@) == base_name(
        b[i].path@,
    ) && content_tag(a[i].content) == content_tag(b[i].content) by {
        assert(!contents_differ(a[i].content, b[i].content));
    }
    lemma_same_libs(a, b);
}

proof fn lemma_same_libs(a: Seq<LibFile>, b: Seq<LibFile>)
    requires
        a.len() == b.len(),
        forall|i: int|
            0 <= i < a.len() ==> base_name((#[trigger] a[i]).path@) == base_name(b[i].path@)
                && content_tag(a[i].content) == content_tag(b[i].content),
    ensures
        libs_bytes(a) == libs_bytes(b),
    decreases a.len(),
{
    if a.len() > 0 {
        let n = a.len() - 1;
        assert(base_name(a[n].path@) == base_name(b[n].path@));
        assert forall|i: int| 0 <= i < a.drop_last().len() implies base_name(
            (#[trigger] a.drop_last()[i]).path@,
        ) == base_name(b.drop_last()[i].path@) && content_tag(a.drop_last()[i].content)
            == content_tag(b.drop_last()[i].content) by {
            assert(a.drop_last()[i] == a[i]);
        }
        lemma_same_libs(a.drop_last(), b.drop_last());
    }
}

/// Bytes are written with two lower-case hexadecimal digits each.
pub proof fn bytes_are_pairs_of_hex_digits(b: Seq<u8>)
    ensures
        hex_bytes(b).len() == 2 * b.len(),
        forall|i: int| 0 <= i < hex_bytes(b).len() ==> is_hex_digit(#[trigger] hex_bytes(b)[i]),
    decreases b.len(),
{
    reveal_with_fuel(text::hex, 3);
    if b.len() > 0 {
        bytes_are_pairs_of_hex_digits(b.drop_last());
    }
}

proof fn lemma_hex_is_injective(a: Seq<u8>, b: Seq<u8>)
    requires
        hex_bytes(a) == hex_bytes(b),
    ensures
        a == b,
    decreases a.len(),
{
    reveal_with_fuel(text::hex, 3);
    bytes_are_pairs_of_hex_digits(a);
    bytes_are_pairs_of_hex_digits(b);
    if a.len() > 0 {
        let n = 2 * (a.len() - 1);
        bytes_are_pairs_of_hex_digits(a.drop_last());
        bytes_are_pairs_of_hex_digits(b.drop_last());
        assert(hex_bytes(a.drop_last()) =~= hex_bytes(a).take(n));
        assert(hex_bytes(b.drop_last()) =~= hex_bytes(b).take(n));
        lemma_hex_is_injective(a.drop_last(), b.drop_last());
        let x = a.last() as nat;
        let y = b.last() as nat;
        assert(hex_bytes(a)[n] == text::hex_char(x / 16 % 16));
        assert(hex_bytes(b)[n] == text::hex_char(y / 16 % 16));
        assert(hex_bytes(a)[n + 1] == text::hex_char(x % 16));
        assert(hex_bytes(b)[n + 1] == text::hex_char(y % 16));
        assert(x == y);
        assert(a =~= a.drop_last().push(a.last()));
        assert(b =~= b.drop_last().push(b.last()));
    } else {
        assert(a =~= b);
    }
}

/// Whether two different byte strings have one SHA-256 hash.
pub open spec fn share_a_digest(a: Seq<u8>, b: Seq<u8>) -> bool {
    a != b && sha256_digest(a) == sha256_digest(b)
}

/// Whether two files are not known to have the same content.
pub open spec fn contents_differ(a: LibContent, b: LibContent) -> bool {
    match (a, b) {
        (LibContent::Bytes(x), LibContent::Bytes(y)) => x@ != y@,
        (LibContent::Missing, LibContent::Missing) => false,
        (LibContent::Unreadable, LibContent::Unreadable) => false,
        _ => true,
    }
}

/// Whether two files have different bytes with one SHA-256 hash.
pub open spec fn contents_collide(a: LibContent, b: LibContent) -> bool {
    match (a, b) {
        (LibContent::Bytes(x), LibContent::Bytes(y)) => share_a_digest(x@, y@),
        _ => false,
    }
}

proof fn lemma_tags_differ(a: LibContent, b: LibContent)
    requires
        contents_differ(a, b),
        !contents_collide(a, b),
    ensures
        content_tag(a) != content_tag(b),
{
    reveal_strlit("missing");
    reveal_strlit("io-error");
    match (a, b) {
        (LibContent::Bytes(x), LibContent::Bytes(y)) => {
            if content_tag(a) == content_tag(b) {
                lemma_hex_is_injective(sha256_digest(x@), sha256_digest(y@));
            }
        },
        (LibContent::Bytes(x), _) => {
            bytes_are_pairs_of_hex_digits(sha256_digest(x@));
            assert(!is_hex_digit(content_tag(b)[0]));
        },
        (_, LibContent::Bytes(y)) => {
            bytes_are_pairs_of_hex_digits(sha256_digest(y@));
            assert(!is_hex_digit(content_tag(a)[0]));
        },
        _ => {},
    }
}

proof fn lemma_tag_bytes(c: LibContent)
    ensures
        !utf8(content_tag(c)).contains(58u8),
{
    reveal_strlit("missing");
    reveal_strlit("io-error");
    let tag = content_tag(c);
    match c {
        LibContent::Bytes(b) => {
            bytes_are_pairs_of_hex_digits(sha256_digest(b@));
        },
        _ => {},
    }
    assert forall|i: int| 0 <= i < tag.len() implies (#[trigger] tag[i] as nat) < 128 && tag[i]
        != ':' by {
        if c is Bytes {
            assert(is_hex_digit(tag[i]));
        }
    }
    assert(vstd::utf8::is_ascii_chars(tag));
    vstd::utf8::is_ascii_chars_encode_utf8(tag);
    assert forall|i: int| 0 <= i < utf8(tag).len() implies #[trigger] utf8(tag)[i] != 58u8 by {
        assert(tag[i] as u8 == utf8(tag)[i]);
    }
}

proof fn lemma_last_mark(x: Seq<u8>, s: Seq<u8>, y: Seq<u8>, t: Seq<u8>)
    requires
        !s.contains(58u8),
        !t.contains(58u8),
        x + seq![58u8] + s + seq![10u8] == y + seq![58u8] + t + seq![10u8],
    ensures
        s == t,
        x == y,
{
    let a = x + seq![58u8] + s + seq![10u8];
    let b = y + seq![58u8] + t + seq![10u8];
    assert(a.len() == b.len());
    if s.len() < t.len() {
        assert(a[x.len() as int] == 58u8);
        assert(b[x.len() as int] == t[x.len() - y.len() - 1]);
        assert(t.contains(58u8));
    }
    if t.len() < s.len() {
        assert(b[y.len() as int] == 58u8);
        assert(a[y.len() as int] == s[y.len() - x.len() - 1]);
        assert(s.contains(58u8));
    }
    let n = x.len() + 1;
    assert(a.subrange(n as int, n + s.len() as int) =~= s);
    assert(b.subrange(n as int, n + s.len() as int) =~= t);
    assert(a.take(x.len() as int) =~= x);
    assert(b.take(x.len() as int) =~= y);
}

proof fn lemma_marks()
    ensures
        utf8(":"@) == seq![58u8],
        utf8("\n"@) == seq![10u8],
{
    reveal_strlit(":");
    reveal_strlit("\n");
    assert(vstd::utf8::is_ascii_chars(":"@));
    assert(vstd::utf8::is_ascii_chars("\n"@));
    vstd::utf8::is_ascii_chars_encode_utf8(":"@);
    vstd::utf8::is_ascii_chars_encode_utf8("\n"@);
    assert(":"@[0] as u8 == utf8(":"@)[0]);
    assert("\n"@[0] as u8 == utf8("\n"@)[0]);
    assert(utf8(":"@) =~= seq![58u8]);
    assert(utf8("\n"@) =~= seq![10u8]);
}

proof fn lemma_libs_tell_tags(a: Seq<LibFile>, b: Seq<LibFile>, i: int)
    requires
        a.len() == b.len(),
        0 <= i < a.len(),
        forall|k: int|
            0 <= k < a.len() ==> base_name((#[trigger] a[k]).path@) == base_name(b[k].path@),
        libs_bytes(a) == libs_bytes(b),
    ensures
        content_tag(a[i].content) == content_tag(b[i].content),
    decreases a.len(),
{
    let n = a.len() - 1;
    let name = utf8(base_name(a[n].path@));
    let before_a = libs_bytes(a.drop_last());
    let before_b = libs_bytes(b.drop_last());
    let tag_a = utf8(content_tag(a[n].content));
    let tag_b = utf8(content_tag(b[n].content));
    assert(base_name(a[n].path@) == base_name(b[n].path@));
    lemma_marks();
    lemma_tag_bytes(a[n].content);
    lemma_tag_bytes(b[n].content);
    assert(libs_bytes(a) =~= (before_a + name) + seq![58u8] + tag_a + seq![10u8]);
    assert(libs_bytes(b) =~= (before_b + name) + seq![58u8] + tag_b + seq![10u8]);
    lemma_last_mark(before_a + name, tag_a, before_b + name, tag_b);
    vstd::utf8::encode_utf8_decode_utf8(content_tag(a[n].content));
    vstd::utf8::encode_utf8_decode_utf8(content_tag(b[n].content));
    if i < n {
        let m = before_a.len() as int;
        assert((before_a + name).len() == (before_b + name).len());
        assert((before_a + name).take(m) =~= before_a);
        assert((before_b + name).take(m) =~= before_b);
        assert forall|k: int| 0 <= k < a.drop_last().len() implies base_name(
            (#[trigger] a.drop_last()[k]).path@,
        ) == base_name(b.drop_last()[k].path@) by {
            assert(a.drop_last()[k] == a[k]);
        }
        lemma_libs_tell_tags(a.drop_last(), b.drop_last(), i);
    }
}

/// Other content under the same name gives another key, unless two different byte strings,
/// the contents or what is hashed into the two keys, have one SHA-256 hash.
pub proof fn other_content_gives_another_key(
    deck: Seq<char>,
    a: Seq<LibFile>,
    b: Seq<LibFile>,
    i: int,
)
    requires
        a.len() == b.len(),
        0 <= i < a.len(),
        forall|k: int|
            0 <= k < a.len() ==> base_name((#[trigger] a[k]).path@) == base_name(b[k].path@),
        contents_differ(a[i].content, b[i].content),
        !contents_collide(a[i].content, b[i].content),
        !share_a_digest(key_bytes(deck, a), key_bytes(deck, b)),
    ensures
        run_key(deck, a) != run_key(deck, b),
{
    lemma_tags_differ(a[i].content, b[i].content);
    if run_key(deck, a) == run_key(deck, b) {
        lemma_hex_is_injective(
            sha256_digest(key_bytes(deck, a)),
            sha256_digest(key_bytes(deck, b)),
        );
        let head = utf8(deck) + utf8("\n--libs--\n"@);
        let n = head.len() as int;
        assert(key_bytes(deck, a).skip(n) =~= libs_bytes(a));
        assert(key_bytes(deck, b).skip(n) =~= libs_bytes(b));
        lemma_libs_tell_tags(a, b, i);
    }
}

/// Another deck gives another key, unless two different byte strings have one SHA-256 hash.
pub proof fn another_deck_gives_another_key(x: Seq<char>, y: Seq<char>, libs: Seq<LibFile>)
    requires
        x != y,
        !share_a_digest(key_bytes(x, libs), key_bytes(y, libs)),
    ensures
        run_key(x, libs) != run_key(y, libs),
{
    if run_key(x, libs) == run_key(y, libs) {
        lemma_hex_is_injective(
            sha256_digest(key_bytes(x, libs)),
            sha256_digest(key_bytes(y, libs)),
        );
        assert(key_bytes(x, libs).len() == key_bytes(y, libs).len());
        assert(utf8(x).len() == utf8(y).len());
        let n = utf8(x).len() as int;
        assert(key_bytes(x, libs).take(n) =~= utf8(x));
        assert(key_bytes(y, libs).take(n) =~= utf8(y));
        vstd::utf8::encode_utf8_decode_utf8(x);
        vstd::utf8::encode_utf8_decode_utf8(y);
    }
}

} // verus!
