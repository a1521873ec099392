//! What a crate's manifest says of its programs.

use crate::text;
use vstd::prelude::*;
use vstd::string::*;

verus! {

/// `toml::Value`, a value of a TOML document.
#[verifier::external_type_specification]
#[verifier::external_body]
pub struct ExTomlValue(toml::Value);

/// What a TOML value holds, as far as it is looked at.
pub enum TomlModel {
    Text(Seq<char>),
    List(Seq<TomlModel>),
    Table(Map<Seq<char>, TomlModel>),
    Other,
}

/// What a TOML value holds.
pub uninterp spec fn toml_model(v: toml::Value) -> TomlModel;

/// What a TOML document holds, if it is one.
pub uninterp spec fn toml_document(s: Seq<char>) -> Option<TomlModel>;

/// `toml::Value::from_str`, through `str::parse`: reads a TOML document. Left unsaid: which
/// texts are documents, and what they hold.
#[verifier::external_body]
fn parse_document(s: &str) -> (res: Option<toml::Value>)
    ensures
        (match res {
            Some(v) => Some(toml_model(v)),
            None => None,
        }) == toml_document(s@),
{
    let v: Result<toml::Value, toml::de::Error> = s.parse();
    v.ok()
}

/// What stands under a key; nothing where the value is no table.
pub open spec fn field(v: TomlModel, key: Seq<char>) -> Option<TomlModel> {
    match v {
        TomlModel::Table(m) => if m.contains_key(key) {
            Some(m[key])
        } else {
            None
        },
        _ => None,
    }
}

/// `toml::Value::get` with a key: what stands under it in a table.
#[verifier::external_body]
fn get_field<'a>(v: &'a toml::Value, key: &str) -> (res: Option<&'a toml::Value>)
    ensures
        (match res {
            Some(x) => Some(toml_model(*x)),
            None => None,
        }) == field(toml_model(*v), key@),
{
    v.get(key)
}

pub open spec fn as_text(v: TomlModel) -> Option<Seq<char>> {
    match v {
        TomlModel::Text(s) => Some(s),
        _ => None,
    }
}

/// `toml::Value::as_str`: the text that a value is.
#[verifier::external_body]
fn get_text(v: &toml::Value) -> (res: Option<String>)
    ensures
        crate::paths::opt_text(res) == as_text(toml_model(*v)),
{
    v.as_str().map(|s| s.to_string())
}

pub open spec fn value_models(v: Seq<toml::Value>) -> Seq<TomlModel> {
    v.map_values(|x: toml::Value| toml_model(x))
}

/// `toml::Value::as_array`: the list that a value is.
#[verifier::external_body]
fn get_list(v: &toml::Value) -> (res: Option<&Vec<toml::Value>>)
    ensures
        match res {
            Some(l) => toml_model(*v) == TomlModel::List(value_models(l@)),
            None => !(toml_model(*v) is List),
        },
{
    v.as_array()
}

/// A program of a package.
#[derive(Debug)]
pub struct BinTarget {
    pub package: String,
    pub bin_name: String,
}

#[verifier::ext_equal]
pub struct BinModel {
    pub package: Seq<char>,
    pub bin_name: Seq<char>,
}

impl BinTarget {
    pub open spec fn model(self) -> BinModel {
        BinModel { package: self.package@, bin_name: self.bin_name@ }
    }

    /// A target that holds the same.
    pub fn duplicate(&self) -> (res: Self)
        ensures
            res.model() == self.model(),
    {
        BinTarget { package: self.package.clone(), bin_name: self.bin_name.clone() }
    }
}

pub open spec fn bin_models(v: Seq<BinTarget>) -> Seq<BinModel> {
    v.map_values(|b: BinTarget| b.model())
}

/// The name that a table holds, if it holds one.
pub open spec fn named(v: TomlModel) -> Option<Seq<char>> {
    match field(v, "name"@) {
        Some(n) => as_text(n),
        None => None,
    }
}

fn name_in(v: &toml::Value) -> (res: Option<String>)
    ensures
        crate::paths::opt_text(res) == named(toml_model(*v)),
{
    match get_field(v, "name") {
        Some(n) => get_text(n),
        None => None,
    }
}

/// The name of the package that a manifest describes; empty where it has none.
pub open spec fn package_name(doc: TomlModel) -> Seq<char> {
    match field(doc, "package"@) {
        Some(p) => match named(p) {
            Some(n) => n,
            None => Seq::empty(),
        },
        None => Seq::empty(),
    }
}

/// The names among the first `n` entries of a list.
pub open spec fn names_among(list: Seq<TomlModel>, n: int) -> Seq<Seq<char>>
    decreases n,
{
    if n <= 0 {
        Seq::empty()
    } else {
        match named(list[n - 1]) {
            Some(name) => names_among(list, n - 1).push(name),
            None => names_among(list, n - 1),
        }
    }
}

/// The programs that a manifest lists by name.
pub open spec fn listed_bins(doc: TomlModel) -> Seq<Seq<char>> {
    match field(doc, "bin"@) {
        Some(TomlModel::List(l)) => names_among(l, l.len() as int),
        _ => Seq::empty(),
    }
}

fn list_bins(doc: &toml::Value) -> (res: Vec<String>)
    ensures
        text::texts(res@) == listed_bins(toml_model(*doc)),
{
    let mut out: Vec<String> = Vec::new();
    assert(text::texts(out@) =~= Seq::empty());
    let list: &Vec<toml::Value> = match get_field(doc, "bin") {
        None => {
            return out;
        },
        Some(b) => match get_list(b) {
            None => {
                return out;
            },
            Some(l) => l,
        },
    };
    let ghost ms = value_models(list@);
    let mut i: usize = 0;
    while i < list.len()
        invariant
            i <= list@.len(),
            ms == value_models(list@),
            text::texts(out@) =~= names_among(ms, i as int),
        decreases list@.len() - i,
    {
        let ghost before = out@;
        assert(ms[i as int] == toml_model(list@[i as int]));
        match name_in(&list[i]) {
            Some(n) => {
                out.push(n);
                assert(text::texts(out@) =~= text::texts(before).push(n@));
            },
            None => {},
        }
        i = i + 1;
    }
    out
}

/// The name of the program in a source file; none where the file is no source file.
pub open spec fn stem(file: Seq<char>) -> Option<Seq<char>> {
    if file.len() > 3 && text::ends_with(file, ".rs"@) {
        Some(file.take(file.len() - 3))
    } else {
        None
    }
}

fn stem_of(file: &str) -> (res: Option<String>)
    ensures
        crate::paths::opt_text(res) == stem(file@),
{
    let v = text::chars_of(file);
    if v.len() > 3 && text::has_suffix(file, ".rs") {
        assert(v@.subrange(0, v@.len() - 3) =~= file@.take(file@.len() - 3));
        Some(text::slice_string(&v, 0, v.len() - 3))
    } else {
        None
    }
}

/// The programs in the first `n` of some files that are not listed by name.
pub open spec fn found_bins(files: Seq<Seq<char>>, listed: Seq<Seq<char>>, n: int) -> Seq<Seq<char>>
    decreases n,
{
    if n <= 0 {
        Seq::empty()
    } else {
        let before = found_bins(files, listed, n - 1);
        match stem(files[n - 1]) {
            Some(s) => if listed.contains(s) {
                before
            } else {
                before.push(s)
            },
            None => before,
        }
    }
}

/// Targets of one package.
pub open spec fn targets(package: Seq<char>, names: Seq<Seq<char>>) -> Seq<BinModel> {
    names.map_values(|n: Seq<char>| BinModel { package, bin_name: n })
}

/// The programs of a crate: those that its manifest lists, those in the files of its
/// directory for programs, and the one of the package itself where it has a main file.
pub open spec fn crate_bins(manifest: Seq<char>, files: Seq<Seq<char>>, has_main: bool) -> Seq<
    BinModel,
> {
    match toml_document(manifest) {
        None => Seq::empty(),
        Some(doc) => bins_of(doc, files, has_main),
    }
}

/// The same, given what the manifest holds.
pub open spec fn bins_of(doc: TomlModel, files: Seq<Seq<char>>, has_main: bool) -> Seq<BinModel> {
    let package = package_name(doc);
    let listed = listed_bins(doc);
    if package.len() == 0 {
        Seq::empty()
    } else {
        targets(
            package,
            listed + found_bins(files, listed, files.len() as int) + (if has_main
                && !listed.contains(package) {
                seq![package]
            } else {
                Seq::empty()
            }),
        )
    }
}

fn is_listed(names: &Vec<String>, name: &str) -> (res: bool)
    ensures
        res == text::texts(names@).contains(name@),
{
    let ghost all = text::texts(names@);
    let mut i: usize = 0;
    while i < names.len()
        invariant
            i <= names@.len(),
            all == text::texts(names@),
            forall|k: int| 0 <= k < i ==> #[trigger] all[k] != name@,
        decreases names@.len() - i,
    {
        assert(all[i as int] == names@[i as int]@);
        if text::same(names[i].as_str(), name) {
            assert(all[i as int] == name@);
            return true;
        }
        i = i + 1;
    }
    false
}

fn add_target(out: &mut Vec<BinTarget>, package: &str, name: &str, names: Ghost<Seq<Seq<char>>>)
    requires
        bin_models(old(out)@) == targets(package@, names@),
    ensures
        bin_models(final(out)@) == targets(package@, names@.push(name@)),
{
    let ghost before = out@;
    out.push(BinTarget { package: package.to_owned(), bin_name: name.to_owned() });
    assert(bin_models(out@) =~= bin_models(before).push(
        BinModel { package: package@, bin_name: name@ },
    ));
    assert(targets(package@, names@.push(name@)) =~= targets(package@, names@).push(
        BinModel { package: package@, bin_name: name@ },
    ));
}

/// Lists the programs of a crate, given its manifest, the files in its directory for
/// programs, and whether it has a main file.
pub fn discover_in_crate(manifest: &str, files: &Vec<String>, has_main: bool) -> (res: Vec<
    BinTarget,
>)
    ensures
        bin_models(res@) == crate_bins(manifest@, text::texts(files@), has_main),
{
    match parse_document(manifest) {
        None => {
            let out: Vec<BinTarget> = Vec::new();
            assert(bin_models(out@) =~= Seq::empty());
            out
        },
        Some(doc) => discover_in_document(&doc, files, has_main),
    }
}

/// Lists the programs of a crate, given what its manifest holds.
pub fn discover_in_document(doc: &toml::Value, files: &Vec<String>, has_main: bool) -> (res: Vec<
    BinTarget,
>)
    ensures
        bin_models(res@) == bins_of(toml_model(*doc), text::texts(files@), has_main),
{
    let mut out: Vec<BinTarget> = Vec::new();
    assert(bin_models(out@) =~= Seq::empty());
    let ghost m = toml_model(*doc);
    let package: String = match get_field(doc, "package") {
        None => String::new(),
        Some(p) => match name_in(p) {
            None => String::new(),
            Some(n) => n,
        },
    };
    assert(package@ =~= package_name(m));
    if text::chars_of(package.as_str()).len() == 0 {
        return out;
    }
    let listed = list_bins(doc);
    let ghost ls = text::texts(listed@);
    let mut i: usize = 0;
    assert(bin_models(out@) =~= targets(package@, ls.take(0)));
    while i < listed.len()
        invariant
            i <= listed@.len(),
            ls == text::texts(listed@),
            bin_models(out@) == targets(package@, ls.take(i as int)),
        decreases listed@.len() - i,
    {
        assert(ls[i as int] == listed@[i as int]@);
        add_target(&mut out, package.as_str(), listed[i].as_str(), Ghost(ls.take(i as int)));
        assert(ls.take(i as int).push(ls[i as int]) =~= ls.take(i + 1));
        i = i + 1;
    }
    let ghost fs = text::texts(files@);
    let mut k: usize = 0;
    proof {
        assert(ls.take(listed@.len() as int) =~= ls);
        assert(ls + found_bins(fs, ls, 0) =~= ls);
    }
    while k < files.len()
        invariant
            k <= files@.len(),
            ls == text::texts(listed@),
            fs == text::texts(files@),
            bin_models(out@) == targets(package@, ls + found_bins(fs, ls, k as int)),
        decreases files@.len() - k,
    {
        let ghost names = ls + found_bins(fs, ls, k as int);
        assert(fs[k as int] == files@[k as int]@);
        match stem_of(files[k].as_str()) {
            None => {},
            Some(s) => {
                if !is_listed(&listed, s.as_str()) {
                    add_target(&mut out, package.as_str(), s.as_str(), Ghost(names));
                    assert(names.push(s@) =~= ls + found_bins(fs, ls, k + 1));
                }
            },
        }
        k = k + 1;
    }
    let ghost names = ls + found_bins(fs, ls, files@.len() as int);
    if has_main && !is_listed(&listed, package.as_str()) {
        add_target(&mut out, package.as_str(), package.as_str(), Ghost(names));
        assert(names.push(package@) =~= names + seq![package@]);
    } else {
        assert(names =~= names + Seq::empty());
    }
    out
}

} // verus!
