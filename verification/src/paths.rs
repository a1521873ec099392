//! Paths as text, with `/` between their components.

use crate::text;
use vstd::prelude::*;
use vstd::string::*;

verus! {

/// `name` under the directory `dir`: an absolute `name` stands for itself.
pub open spec fn joined(dir: Seq<char>, name: Seq<char>) -> Seq<char> {
    if dir.len() == 0 || (name.len() > 0 && name[0] == '/') {
        name
    } else if dir.last() == '/' {
        dir + name
    } else {
        dir + "/"@ + name
    }
}

/// The path of `name` under `dir`.
pub fn join(dir: &str, name: &str) -> (res: String)
    ensures
        res@ == joined(dir@, name@),
{
    let d = text::chars_of(dir);
    let n = text::chars_of(name);
    if d.len() == 0 || (n.len() > 0 && n[0] == '/') {
        return name.to_owned();
    }
    let mut s = dir.to_owned();
    if d[d.len() - 1] != '/' {
        s.append("/");
    }
    s.append(name);
    s
}

/// `s` without the slashes at its end.
pub open spec fn strip_slashes(s: Seq<char>) -> Seq<char>
    decreases s.len(),
{
    if s.len() > 0 && s.last() == '/' {
        strip_slashes(s.drop_last())
    } else {
        s
    }
}

/// Where the last component of `s` starts.
pub open spec fn last_start(s: Seq<char>, i: int) -> int
    decreases i,
{
    if i <= 0 {
        0
    } else if s[i - 1] == '/' {
        i
    } else {
        last_start(s, i - 1)
    }
}

pub proof fn lemma_strip_slashes(s: Seq<char>)
    ensures
        strip_slashes(s).len() <= s.len(),
        strip_slashes(s) == s.take(strip_slashes(s).len() as int),
        strip_slashes(s).len() > 0 ==> strip_slashes(s).last() != '/',
    decreases s.len(),
{
    if s.len() > 0 && s.last() == '/' {
        lemma_strip_slashes(s.drop_last());
        let n = strip_slashes(s).len() as int;
        assert(s.drop_last().take(n) =~= s.take(n));
    } else {
        assert(s.take(s.len() as int) =~= s);
    }
}

pub proof fn lemma_last_start(s: Seq<char>, i: int)
    requires
        0 <= i <= s.len(),
    ensures
        0 <= last_start(s, i) <= i,
        i > 0 && s[i - 1] != '/' ==> last_start(s, i) < i,
    decreases i,
{
    if i > 0 && s[i - 1] != '/' {
        lemma_last_start(s, i - 1);
    }
}

/// The last component of a path. A `.` behind another component is skipped; a
/// path that ends in `..`, or has no component, has none.
pub open spec fn file_name(s: Seq<char>) -> Option<Seq<char>>
    decreases s.len(),
{
    let t = strip_slashes(s);
    proof {
        lemma_strip_slashes(s);
        lemma_last_start(t, t.len() as int);
    }
    if t.len() == 0 {
        None
    } else {
        let a = last_start(t, t.len() as int);
        let seg = t.skip(a);
        if seg == "."@ {
            if a == 0 {
                None
            } else {
                file_name(t.take(a))
            }
        } else if seg == ".."@ {
            None
        } else {
            Some(seg)
        }
    }
}

/// The text of an optional string.
pub open spec fn opt_text(s: Option<String>) -> Option<Seq<char>> {
    match s {
        Some(x) => Some(x@),
        None => None,
    }
}

/// The last component of a path, if it has one.
pub fn file_name_of(path: &str) -> (res: Option<String>)
    ensures
        opt_text(res) == file_name(path@),
{
    let v = text::chars_of(path);
    let mut n: usize = v.len();
    assert(v@.take(n as int) =~= v@);
    loop
        invariant
            n <= v.len(),
            v@ == path@,
            file_name(path@) == file_name(v@.take(n as int)),
        decreases n,
    {
        let ghost s = v@.take(n as int);
        let mut m: usize = n;
        assert(s.take(n as int) =~= s);
        while m > 0 && v[m - 1] == '/'
            invariant
                m <= n <= v.len(),
                s == v@.take(n as int),
                strip_slashes(s) == strip_slashes(s.take(m as int)),
            decreases m,
        {
            assert(s.take(m as int).drop_last() =~= s.take(m - 1));
            m = m - 1;
        }
        let ghost t = s.take(m as int);
        assert(strip_slashes(s) == t);
        if m == 0 {
            return None;
        }
        let mut a: usize = m;
        while a > 0 && v[a - 1] != '/'
            invariant
                a <= m <= n <= v.len(),
                t == v@.take(m as int),
                last_start(t, m as int) == last_start(t, a as int),
            decreases a,
        {
            a = a - 1;
        }
        proof {
            lemma_last_start(t, m as int);
        }
        let seg = text::slice_string(&v, a, m);
        assert(seg@ =~= t.skip(a as int));
        if text::same(seg.as_str(), ".") {
            if a == 0 {
                return None;
            }
            assert(t.take(a as int) =~= v@.take(a as int));
            n = a;
        } else if text::same(seg.as_str(), "..") {
            return None;
        } else {
            return Some(seg);
        }
    }
}

// ── one path under another ─────────────────────────────────────────

/// Whether what starts at `j` is no component of its own: a slash, or a dot that stands for
/// the directory before it.
pub open spec fn is_filler(s: Seq<char>, j: int) -> bool {
    s[j] == '/' || (j > 0 && s[j] == '.' && (j + 1 >= s.len() || s[j + 1] == '/'))
}

/// Where the next component starts, from `j` on; the length where there is none.
pub open spec fn part_start(s: Seq<char>, j: int) -> int
    decreases s.len() - j,
{
    if j < 0 || j >= s.len() {
        s.len() as int
    } else if is_filler(s, j) {
        part_start(s, j + 1)
    } else {
        j
    }
}

/// Where the component that starts at `j` ends.
pub open spec fn part_end(s: Seq<char>, j: int) -> int
    decreases s.len() - j,
{
    if j < 0 || j >= s.len() {
        s.len() as int
    } else if s[j] == '/' {
        j
    } else {
        part_end(s, j + 1)
    }
}

/// Where what is left of `s` starts after the components of `r`, if it begins with them.
pub open spec fn after_parts(s: Seq<char>, i: int, r: Seq<char>, k: int) -> Option<int>
    decreases s.len() - i,
    when 0 <= i <= s.len() && 0 <= k <= r.len()
    via after_parts_ends
{
    let a = part_start(s, i);
    let b = part_start(r, k);
    if b >= r.len() {
        Some(a)
    } else if a >= s.len() {
        None
    } else if s.subrange(a, part_end(s, a)) == r.subrange(b, part_end(r, b)) {
        after_parts(s, part_end(s, a), r, part_end(r, b))
    } else {
        None
    }
}

proof fn lemma_part_start(s: Seq<char>, j: int)
    requires
        0 <= j <= s.len(),
    ensures
        j <= part_start(s, j) <= s.len(),
        part_start(s, j) < s.len() ==> !is_filler(s, part_start(s, j)),
    decreases s.len() - j,
{
    if j < s.len() && is_filler(s, j) {
        lemma_part_start(s, j + 1);
    }
}

proof fn lemma_part_end(s: Seq<char>, j: int)
    requires
        0 <= j <= s.len(),
    ensures
        j <= part_end(s, j) <= s.len(),
        j < s.len() && s[j] != '/' ==> j < part_end(s, j),
    decreases s.len() - j,
{
    if j < s.len() && s[j] != '/' {
        lemma_part_end(s, j + 1);
    }
}

#[via_fn]
proof fn after_parts_ends(s: Seq<char>, i: int, r: Seq<char>, k: int) {
    lemma_part_start(s, i);
    lemma_part_start(r, k);
    if part_start(s, i) < s.len() {
        lemma_part_end(s, part_start(s, i));
    }
    if part_start(r, k) < r.len() {
        lemma_part_end(r, part_start(r, k));
    }
}

/// `s` without the slashes, and the dots behind slashes, at its end; what stands before
/// `low` stays.
pub open spec fn strip_fillers(s: Seq<char>, low: int) -> Seq<char>
    decreases s.len(),
{
    if s.len() > 0 && s.len() > low && (s.last() == '/' || (s.last() == '.' && s.len() > 1
        && s[s.len() - 2] == '/')) {
        strip_fillers(s.drop_last(), low)
    } else {
        s
    }
}

/// What is left of `path` behind `root`, if it lies under it.
pub open spec fn relative(root: Seq<char>, path: Seq<char>) -> Option<Seq<char>> {
    let rooted = root.len() > 0 && root[0] == '/';
    let absolute = path.len() > 0 && path[0] == '/';
    if rooted && !absolute {
        None
    } else if !rooted && absolute {
        if part_start(root, 0) >= root.len() {
            Some(strip_fillers(path, 1))
        } else {
            None
        }
    } else {
        match after_parts(path, 0, root, 0) {
            Some(a) => Some(strip_fillers(path, a).skip(a)),
            None => None,
        }
    }
}

fn start_of_part(v: &Vec<char>, from: usize) -> (res: usize)
    requires
        from <= v@.len(),
    ensures
        res == part_start(v@, from as int),
        from <= res <= v@.len(),
        res < v@.len() ==> !is_filler(v@, res as int),
{
    let n: usize = v.len();
    let mut j: usize = from;
    while j < n && (v[j] == '/' || (j > 0 && v[j] == '.' && (j + 1 >= n || v[j + 1] == '/')))
        invariant
            from <= j <= n,
            n == v@.len(),
            part_start(v@, from as int) == part_start(v@, j as int),
        decreases n - j,
    {
        j = j + 1;
    }
    j
}

fn end_of_part(v: &Vec<char>, from: usize) -> (res: usize)
    requires
        from <= v@.len(),
    ensures
        res == part_end(v@, from as int),
        from <= res <= v@.len(),
        from < v@.len() && v@[from as int] != '/' ==> from < res,
{
    let n: usize = v.len();
    let mut j: usize = from;
    while j < n && v[j] != '/'
        invariant
            from <= j <= n,
            n == v@.len(),
            part_end(v@, from as int) == part_end(v@, j as int),
            j > from || (from < n && v@[from as int] != '/') || j == from,
        decreases n - j,
    {
        j = j + 1;
    }
    proof {
        lemma_part_end(v@, from as int);
    }
    j
}

fn skip_parts(s: &Vec<char>, r: &Vec<char>) -> (res: Option<usize>)
    ensures
        (match res {
            Some(a) => Some(a as int),
            None => None,
        }) == after_parts(s@, 0, r@, 0),
        res matches Some(a) ==> a <= s@.len(),
{
    let mut i: usize = 0;
    let mut k: usize = 0;
    loop
        invariant
            i <= s@.len(),
            k <= r@.len(),
            after_parts(s@, 0, r@, 0) == after_parts(s@, i as int, r@, k as int),
        decreases s@.len() - i,
    {
        let a: usize = start_of_part(s, i);
        let b: usize = start_of_part(r, k);
        if b >= r.len() {
            return Some(a);
        }
        if a >= s.len() {
            return None;
        }
        let ae: usize = end_of_part(s, a);
        let be: usize = end_of_part(r, b);
        let x = text::slice_string(s, a, ae);
        let y = text::slice_string(r, b, be);
        if !text::same(x.as_str(), y.as_str()) {
            return None;
        }
        i = ae;
        k = be;
    }
}

fn without_fillers(v: &Vec<char>, low: usize) -> (res: usize)
    requires
        low <= v@.len(),
    ensures
        low <= res <= v@.len(),
        v@.take(res as int) == strip_fillers(v@, low as int),
{
    let mut n: usize = v.len();
    assert(v@.take(n as int) =~= v@);
    while n > low && (v[n - 1] == '/' || (v[n - 1] == '.' && n > 1 && v[n - 2] == '/'))
        invariant
            low <= n <= v@.len(),
            strip_fillers(v@, low as int) == strip_fillers(v@.take(n as int), low as int),
        decreases n,
    {
        let ghost t = v@.take(n as int);
        assert(t.drop_last() =~= v@.take(n - 1));
        n = n - 1;
    }
    n
}

/// Finds what is left of `path` behind `root`, if it lies under it.
pub fn relative_to(root: &str, path: &str) -> (res: Option<String>)
    ensures
        opt_text(res) == relative(root@, path@),
{
    let r = text::chars_of(root);
    let p = text::chars_of(path);
    let rooted: bool = r.len() > 0 && r[0] == '/';
    let absolute: bool = p.len() > 0 && p[0] == '/';
    if rooted && !absolute {
        return None;
    }
    if !rooted && absolute {
        if start_of_part(&r, 0) < r.len() {
            return None;
        }
        let e: usize = without_fillers(&p, 1);
        assert(p@.subrange(0, e as int) =~= p@.take(e as int));
        return Some(text::slice_string(&p, 0, e));
    }
    match skip_parts(&p, &r) {
        None => None,
        Some(a) => {
            let e: usize = without_fillers(&p, a);
            assert(p@.subrange(a as int, e as int) =~= p@.take(e as int).skip(a as int));
            Some(text::slice_string(&p, a, e))
        },
    }
}

} // verus!
