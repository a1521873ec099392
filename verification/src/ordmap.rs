//! A map from names to values, walked in the order of the names.

use crate::text;
use vstd::prelude::*;
use vstd::string::*;

verus! {

/// Lexicographic order of names, by character code.
pub open spec fn name_lt(a: Seq<char>, b: Seq<char>) -> bool
    decreases a.len(),
{
    if b.len() == 0 {
        false
    } else if a.len() == 0 {
        true
    } else if a[0] != b[0] {
        a[0] < b[0]
    } else {
        name_lt(a.skip(1), b.skip(1))
    }
}

/// The order of names is total and strict.
pub proof fn names_are_totally_ordered(a: Seq<char>, b: Seq<char>)
    ensures
        !name_lt(a, a),
        name_lt(a, b) || a == b || name_lt(b, a),
        !(name_lt(a, b) && name_lt(b, a)),
    decreases a.len(),
{
    if a.len() > 0 && b.len() > 0 {
        names_are_totally_ordered(a.skip(1), b.skip(1));
        if a[0] == b[0] && a.skip(1) == b.skip(1) {
            assert(a =~= seq![a[0]] + a.skip(1));
            assert(b =~= seq![b[0]] + b.skip(1));
        }
    } else if a.len() > 0 {
        names_are_totally_ordered(a.skip(1), a.skip(1));
    } else if b.len() == 0 {
        assert(a =~= b);
    }
}

/// The order of names is transitive.
pub proof fn name_order_is_transitive(a: Seq<char>, b: Seq<char>, c: Seq<char>)
    requires
        name_lt(a, b),
        name_lt(b, c),
    ensures
        name_lt(a, c),
    decreases a.len(),
{
    if a.len() > 0 && b.len() > 0 && c.len() > 0 && a[0] == b[0] && b[0] == c[0] {
        name_order_is_transitive(a.skip(1), b.skip(1), c.skip(1));
    }
}

/// Whether name `a` comes before name `b`.
pub fn comes_before(a: &str, b: &str) -> (res: bool)
    ensures
        res == name_lt(a@, b@),
{
    let x = text::chars_of(a);
    let y = text::chars_of(b);
    let mut i: usize = 0;
    assert(x@.skip(0) =~= x@);
    assert(y@.skip(0) =~= y@);
    while i < x.len() && i < y.len() && x[i] == y[i]
        invariant
            i <= x.len(),
            i <= y.len(),
            name_lt(x@, y@) == name_lt(x@.skip(i as int), y@.skip(i as int)),
        decreases x.len() - i,
    {
        assert(x@.skip(i as int).skip(1) =~= x@.skip(i + 1));
        assert(y@.skip(i as int).skip(1) =~= y@.skip(i + 1));
        i = i + 1;
    }
    if i >= y.len() {
        false
    } else if i >= x.len() {
        true
    } else {
        x[i] < y[i]
    }
}

/// Names in strictly ascending order.
pub open spec fn ascending<V>(s: Seq<(String, V)>) -> bool {
    forall|i: int, j: int| 0 <= i < j < s.len() ==> name_lt(#[trigger] s[i].0@, #[trigger] s[j].0@)
}

/// Whether some entry has the name `k`.
pub open spec fn has_name<V>(s: Seq<(String, V)>, k: Seq<char>) -> bool {
    exists|i: int| 0 <= i < s.len() && #[trigger] s[i].0@ == k
}

/// Position of the entry named `k`.
pub open spec fn position<V>(s: Seq<(String, V)>, k: Seq<char>) -> int {
    choose|i: int| 0 <= i < s.len() && #[trigger] s[i].0@ == k
}

/// The map that a list of entries stands for.
pub open spec fn entries_map<V>(s: Seq<(String, V)>) -> Map<Seq<char>, V> {
    Map::new(|k: Seq<char>| has_name(s, k), |k: Seq<char>| s[position(s, k)].1)
}

/// The names of the entries, in order.
pub open spec fn entry_names<V>(s: Seq<(String, V)>) -> Seq<Seq<char>> {
    s.map_values(|e: (String, V)| e.0@)
}

/// A map from names to values, kept in the order of the names.
#[derive(Debug)]
pub struct NameMap<V> {
    entries: Vec<(String, V)>,
}

impl<V> View for NameMap<V> {
    type V = Map<Seq<char>, V>;

    closed spec fn view(&self) -> Map<Seq<char>, V> {
        entries_map(self.entries@)
    }
}

impl<V> NameMap<V> {
    #[verifier::type_invariant]
    spec fn sorted(self) -> bool {
        ascending(self.entries@)
    }

    /// The entries in the order of their names.
    pub closed spec fn listing(self) -> Seq<(String, V)> {
        self.entries@
    }
}

impl<V> NameMap<V> {
    pub fn new() -> (res: Self)
        ensures
            res@ == Map::<Seq<char>, V>::empty(),
            res.listing().len() == 0,
    {
        let res = NameMap { entries: Vec::new() };
        assert(res@ =~= Map::<Seq<char>, V>::empty());
        res
    }

    /// Number of entries. The listing holds them in ascending order of names.
    pub fn len(&self) -> (res: usize)
        ensures
            res == self.listing().len(),
            ascending(self.listing()),
            self@ == entries_map(self.listing()),
    {
        proof {
            use_type_invariant(&*self);
        }
        self.entries.len()
    }

    /// The `i`-th name.
    pub fn name_at(&self, i: usize) -> (res: &String)
        requires
            i < self.listing().len(),
        ensures
            res@ == self.listing()[i as int].0@,
    {
        &self.entries[i].0
    }

    /// The `i`-th value.
    pub fn entry_at(&self, i: usize) -> (res: &V)
        requires
            i < self.listing().len(),
        ensures
            *res == self.listing()[i as int].1,
    {
        &self.entries[i].1
    }

    /// What stands under a name.
    pub fn find(&self, name: &str) -> (res: Option<&V>)
        ensures
            match res {
                Some(v) => self@.contains_key(name@) && self@[name@] == *v,
                None => !self@.contains_key(name@),
            },
    {
        proof {
            use_type_invariant(&*self);
        }
        let mut i: usize = 0;
        while i < self.entries.len()
            invariant
                i <= self.entries.len(),
                ascending(self.entries@),
                forall|j: int| 0 <= j < i ==> #[trigger] self.entries@[j].0@ != name@,
            decreases self.entries.len() - i,
        {
            if text::same(self.entries[i].0.as_str(), name) {
                proof {
                    assert(self.entries@[i as int].0@ == name@);
                    let p = position(self.entries@, name@);
                    names_are_totally_ordered(name@, name@);
                    if p < i {
                        assert(name_lt(self.entries@[p].0@, self.entries@[i as int].0@));
                    } else if i < p {
                        assert(name_lt(self.entries@[i as int].0@, self.entries@[p].0@));
                    }
                }
                return Some(&self.entries[i].1);
            }
            i = i + 1;
        }
        None
    }

    pub fn contains_key(&self, name: &str) -> (res: bool)
        ensures
            res == self@.contains_key(name@),
    {
        self.find(name).is_some()
    }

    /// This map with `value` under `name`, whatever stood there before.
    pub fn with(self, name: &str, value: V) -> (res: Self)
        ensures
            res@ == self@.insert(name@, value),
    {
        proof {
            use_type_invariant(&self);
        }
        let mut entries = self.entries;
        let ghost before = entries@;
        let mut i: usize = 0;
        while i < entries.len() && comes_before(entries[i].0.as_str(), name)
            invariant
                i <= entries.len(),
                entries@ == before,
                forall|j: int| 0 <= j < i ==> name_lt(#[trigger] before[j].0@, name@),
            decreases entries.len() - i,
        {
            i = i + 1;
        }
        if i < entries.len() && text::same(entries[i].0.as_str(), name) {
            entries.set(i, (name.to_owned(), value));
            proof {
                lemma_replace(before, entries@, i as int, name@, value);
            }
        } else {
            proof {
                assert forall|j: int| i <= j < before.len() implies name_lt(
                    name@,
                    #[trigger] before[j].0@,
                ) by {
                    names_are_totally_ordered(before[i as int].0@, name@);
                    assert(name_lt(name@, before[i as int].0@));
                    if i < j {
                        name_order_is_transitive(name@, before[i as int].0@, before[j].0@);
                    }
                }
            }
            entries.insert(i, (name.to_owned(), value));
            proof {
                lemma_insert(before, entries@, i as int, name@, value);
            }
        }
        NameMap { entries }
    }

    /// Puts `value` under `name`, whatever stood there before.
    pub fn set(&mut self, name: &str, value: V)
        ensures
            final(self)@ == old(self)@.insert(name@, value),
    {
        let mut taken: NameMap<V> = NameMap::new();
        std::mem::swap(&mut taken, self);
        let mut next = taken.with(name, value);
        std::mem::swap(&mut next, self);
    }
}

impl<V: Copy> NameMap<V> {
    /// The `i`-th value.
    pub fn value_at(&self, i: usize) -> (res: V)
        requires
            i < self.listing().len(),
        ensures
            res == self.listing()[i as int].1,
    {
        self.entries[i].1
    }

    /// A map that holds the same entries.
    pub fn duplicate(&self) -> (res: Self)
        ensures
            res.listing() == self.listing(),
            res@ == self@,
    {
        proof {
            use_type_invariant(&*self);
        }
        let mut entries: Vec<(String, V)> = Vec::new();
        let mut i: usize = 0;
        while i < self.entries.len()
            invariant
                i <= self.entries.len(),
                entries@ == self.entries@.take(i as int),
            decreases self.entries.len() - i,
        {
            entries.push((self.entries[i].0.clone(), self.entries[i].1));
            i = i + 1;
            assert(entries@ =~= self.entries@.take(i as int));
        }
        assert(entries@ =~= self.entries@);
        NameMap { entries }
    }

    /// What stands under a name.
    pub fn get(&self, name: &str) -> (res: Option<V>)
        ensures
            match res {
                Some(v) => self@.contains_key(name@) && self@[name@] == v,
                None => !self@.contains_key(name@),
            },
    {
        match self.find(name) {
            Some(v) => Some(*v),
            None => None,
        }
    }
}

pub proof fn lemma_map_at<V>(s: Seq<(String, V)>, i: int)
    requires
        ascending(s),
        0 <= i < s.len(),
    ensures
        position(s, s[i].0@) == i,
        has_name(s, s[i].0@),
{
    let k = s[i].0@;
    assert(s[i].0@ == k);
    let p = position(s, k);
    names_are_totally_ordered(k, k);
    if p < i {
        assert(name_lt(s[p].0@, s[i].0@));
    } else if i < p {
        assert(name_lt(s[i].0@, s[p].0@));
    }
}

proof fn lemma_replace<V>(
    before: Seq<(String, V)>,
    after: Seq<(String, V)>,
    i: int,
    k: Seq<char>,
    v: V,
)
    requires
        ascending(before),
        0 <= i < before.len(),
        before[i].0@ == k,
        after.len() == before.len(),
        after[i].0@ == k,
        after[i].1 == v,
        forall|j: int| 0 <= j < before.len() && j != i ==> after[j] == before[j],
    ensures
        ascending(after),
        entries_map(after) == entries_map(before).insert(k, v),
{
    assert forall|a: int, b: int| 0 <= a < b < after.len() implies name_lt(
        #[trigger] after[a].0@,
        #[trigger] after[b].0@,
    ) by {
        assert(name_lt(before[a].0@, before[b].0@));
    }
    let m = entries_map(before).insert(k, v);
    assert forall|x: Seq<char>| has_name(after, x) <==> m.contains_key(x) by {
        if has_name(after, x) {
            let p = position(after, x);
            assert(before[p].0@ == x);
        }
        if has_name(before, x) {
            let p = position(before, x);
            assert(after[p].0@ == x);
        }
        if x == k {
            assert(after[i].0@ == x);
        }
    }
    assert forall|x: Seq<char>| has_name(after, x) implies entries_map(after)[x] == m[x] by {
        let p = position(after, x);
        lemma_map_at(before, p);
        lemma_map_at(before, i);
        assert(before[p].0@ == x);
    }
    assert(entries_map(after) =~= m);
}

proof fn lemma_insert<V>(
    before: Seq<(String, V)>,
    after: Seq<(String, V)>,
    i: int,
    k: Seq<char>,
    v: V,
)
    requires
        ascending(before),
        0 <= i <= before.len(),
        after.len() == before.len() + 1,
        after[i].0@ == k,
        after[i].1 == v,
        forall|j: int| 0 <= j < i ==> after[j] == before[j],
        forall|j: int| i <= j < before.len() ==> #[trigger] after[j + 1] == before[j],
        forall|j: int| 0 <= j < i ==> name_lt(#[trigger] before[j].0@, k),
        forall|j: int| i <= j < before.len() ==> name_lt(k, #[trigger] before[j].0@),
    ensures
        ascending(after),
        entries_map(after) == entries_map(before).insert(k, v),
{
    assert forall|a: int, b: int| 0 <= a < b < after.len() implies name_lt(
        #[trigger] after[a].0@,
        #[trigger] after[b].0@,
    ) by {
        let x = if a < i {
            a
        } else {
            a - 1
        };
        let y = if b < i {
            b
        } else {
            b - 1
        };
        if a != i && b != i {
            assert(after[a] == before[x] && after[b] == before[y]) by {
                if a > i {
                    assert(after[x + 1] == before[x]);
                }
                if b > i {
                    assert(after[y + 1] == before[y]);
                }
            }
            assert(name_lt(before[x].0@, before[y].0@));
        } else if a == i {
            assert(after[y + 1] == before[y]);
            assert(name_lt(k, before[y].0@));
        } else {
            assert(name_lt(before[a].0@, k));
        }
    }
    let m = entries_map(before).insert(k, v);
    assert forall|x: Seq<char>| has_name(after, x) <==> m.contains_key(x) by {
        if has_name(after, x) {
            let p = position(after, x);
            if p < i {
                assert(before[p].0@ == x);
            } else if p > i {
                assert(after[(p - 1) + 1] == before[p - 1]);
                assert(before[p - 1].0@ == x);
            }
        }
        if has_name(before, x) {
            let p = position(before, x);
            if p < i {
                assert(after[p].0@ == x);
            } else {
                assert(after[p + 1].0@ == x);
            }
        }
        if x == k {
            assert(after[i].0@ == x);
        }
    }
    assert forall|x: Seq<char>| has_name(after, x) implies entries_map(after)[x] == m[x] by {
        let p = position(after, x);
        lemma_map_at(after, p);
        lemma_map_at(after, i);
        if p < i {
            lemma_map_at(before, p);
            assert(before[p].0@ == x);
        } else if p > i {
            assert(after[(p - 1) + 1] == before[p - 1]);
            lemma_map_at(before, p - 1);
            assert(before[p - 1].0@ == x);
        }
        if p != i {
            assert(x != k) by {
                names_are_totally_ordered(k, k);
            }
        }
    }
    assert(entries_map(after) =~= m);
}

/// No name is listed twice.
pub proof fn names_are_listed_once<V>(s: Seq<(String, V)>, i: int, j: int)
    requires
        ascending(s),
        0 <= i < j < s.len(),
    ensures
        s[i].0@ != s[j].0@,
{
    names_are_totally_ordered(s[i].0@, s[i].0@);
    assert(name_lt(s[i].0@, s[j].0@));
}

} // verus!
