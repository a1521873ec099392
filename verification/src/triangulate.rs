//! Two simulators, or a layout and its model, held against each other node by node.

use crate::double::Real;
use crate::numfmt;
use crate::ordmap;
use crate::ordmap::NameMap;
use crate::text;
use crate::validate;
use vstd::prelude::*;
use vstd::string::*;

verus! {

/// Both values of a node and how far they are apart.
pub open spec fn apart(a: Real, b: Real) -> (Real, Real, Real) {
    (a, b, a.sub_spec(b).abs_spec())
}

/// The sum of the squares of some numbers, from the first on.
pub open spec fn sum_of_squares(ds: Seq<Real>) -> Real
    decreases ds.len(),
{
    if ds.len() == 0 {
        Real { bits: 0 }
    } else {
        sum_of_squares(ds.drop_last()).add_spec(ds.last().mul_spec(ds.last()))
    }
}

/// The root of the mean of the squares of some numbers.
pub open spec fn root_mean_square(ds: Seq<Real>) -> Real {
    sum_of_squares(ds).div_spec(Real::of_nat(ds.len())).sqrt_spec()
}

/// The largest of the first `n` differences and its name, the first of several.
pub open spec fn worst_of(names: Seq<Seq<char>>, ds: Seq<Real>, n: int) -> Option<
    (Seq<char>, Real),
>
    decreases n,
{
    if n <= 0 {
        None
    } else {
        match worst_of(names, ds, n - 1) {
            None => Some((names[n - 1], ds[n - 1])),
            Some((name, d)) => if d.below(ds[n - 1]) {
                Some((names[n - 1], ds[n - 1]))
            } else {
                Some((name, d))
            },
        }
    }
}

pub open spec fn worst_model(w: Option<(String, Real)>) -> Option<(Seq<char>, Real)> {
    match w {
        Some((n, d)) => Some((n@, d)),
        None => None,
    }
}

fn worse(worst: Option<(String, Real)>, name: &String, d: Real) -> (res: Option<(String, Real)>)
    ensures
        worst_model(res) == (match worst_model(worst) {
            None => Some((name@, d)),
            Some((n, w)) => if w.below(d) {
                Some((name@, d))
            } else {
                Some((n, w))
            },
        }),
{
    match worst {
        None => Some((name.clone(), d)),
        Some((n, w)) => {
            if w.lt(d) {
                Some((name.clone(), d))
            } else {
                Some((n, w))
            }
        },
    }
}

// ── operating points ───────────────────────────────────────────────

/// How two operating points differ, node by node.
#[derive(Debug)]
pub struct DcDiffReport {
    /// Both values of each node and how far they are apart.
    pub per_node: NameMap<(Real, Real, Real)>,
    pub worst: Option<(String, Real)>,
    /// The root of the mean square of the differences.
    pub rms: Real,
}

/// How far apart the values of the first `n` nodes are, in the order of their names.
pub open spec fn dc_differences(
    a: Seq<(String, Real)>,
    b: Map<Seq<char>, Real>,
    n: int,
) -> Seq<Real> {
    Seq::new(n as nat, |i: int| a[i].1.sub_spec(b[a[i].0@]).abs_spec())
}

/// Whether two lists of nodes name the same ones.
pub open spec fn same_nodes<V, W>(a: NameMap<V>, b: NameMap<W>) -> bool {
    &&& a.listing().len() == b.listing().len()
    &&& forall|k: Seq<char>| #[trigger] a@.contains_key(k) ==> b@.contains_key(k)
}

/// Compares two operating points of the same nodes.
pub fn compare_dc_voltages(a: &NameMap<Real>, b: &NameMap<Real>) -> (res: DcDiffReport)
    requires
        a.listing().len() > 0,
        same_nodes(*a, *b),
    ensures
        res.per_node@ == Map::new(
            |k: Seq<char>| a@.contains_key(k),
            |k: Seq<char>| apart(a@[k], b@[k]),
        ),
        ({
            let ds = dc_differences(a.listing(), b@, a.listing().len() as int);
            let names = ordmap::entry_names(a.listing());
            worst_model(res.worst) == worst_of(names, ds, ds.len() as int) && res.rms
                == root_mean_square(ds)
        }),
{
    let n: usize = a.len();
    let ghost list = a.listing();
    let ghost names = ordmap::entry_names(list);
    let ghost all = dc_differences(list, b@, n as int);
    let mut per_node: NameMap<(Real, Real, Real)> = NameMap::new();
    let mut sum = Real { bits: 0 };
    let mut worst: Option<(String, Real)> = None;
    let mut i: usize = 0;
    assert(all.take(0) =~= Seq::empty());
    while i < n
        invariant
            i <= n,
            n == list.len(),
            list == a.listing(),
            ordmap::ascending(list),
            a@ == ordmap::entries_map(list),
            names == ordmap::entry_names(list),
            all == dc_differences(list, b@, n as int),
            same_nodes(*a, *b),
            sum == sum_of_squares(all.take(i as int)),
            worst_model(worst) == worst_of(names, all, i as int),
            forall|k: Seq<char>| #[trigger]
                per_node@.contains_key(k) <==> exists|j: int| 0 <= j < i && #[trigger] list[j].0@ == k,
            forall|j: int|
                0 <= j < i ==> per_node@[#[trigger] list[j].0@] == apart(
                    list[j].1,
                    b@[list[j].0@],
                ),
        decreases n - i,
    {
        let name: &String = a.name_at(i);
        let av: Real = a.value_at(i);
        proof {
            ordmap::lemma_map_at(list, i as int);
            assert(a@.contains_key(list[i as int].0@));
            assert(b@.contains_key(name@));
        }
        let bv: Real = b.get(name.as_str()).unwrap();
        let d = av.sub(bv).abs();
        sum = sum.add(d.mul(d));
        worst = worse(worst, name, d);
        let ghost before = per_node@;
        per_node.set(name.as_str(), (av, bv, d));
        proof {
            assert(all[i as int] == d);
            assert(all.take(i + 1).drop_last() =~= all.take(i as int));
            assert(names[i as int] == name@);
            assert forall|k: Seq<char>| #[trigger] per_node@.contains_key(k) <==> exists|j: int|
                0 <= j < i + 1 && #[trigger] list[j].0@ == k by {
                if before.contains_key(k) {
                    let j = choose|j: int| 0 <= j < i && #[trigger] list[j].0@ == k;
                    assert(list[j].0@ == k && j < i + 1);
                }
                if k == name@ {
                    assert(list[i as int].0@ == k);
                }
            }
            assert forall|j: int| 0 <= j < i + 1 implies per_node@[#[trigger] list[j].0@] == apart(
                list[j].1,
                b@[list[j].0@],
            ) by {
                if j < i {
                    ordmap::names_are_totally_ordered(name@, name@);
                    assert(ordmap::name_lt(list[j].0@, list[i as int].0@));
                }
            }
        }
        i = i + 1;
    }
    let rms = sum.div(Real::from_u64(n as u64)).sqrt();
    proof {
        assert(all.take(n as int) =~= all);
        assert forall|k: Seq<char>| #[trigger] a@.contains_key(k) implies per_node@.contains_key(k)
            && per_node@[k] == apart(a@[k], b@[k]) by {
            let p = ordmap::position(list, k);
            assert(list[p].0@ == k);
        }
        assert forall|k: Seq<char>| #[trigger] per_node@.contains_key(k) implies a@.contains_key(
            k,
        ) by {
            let j = choose|j: int| 0 <= j < n && #[trigger] list[j].0@ == k;
            ordmap::lemma_map_at(list, j);
        }
        assert(per_node@ =~= Map::new(
            |k: Seq<char>| a@.contains_key(k),
            |k: Seq<char>| apart(a@[k], b@[k]),
        ));
    }
    DcDiffReport { per_node, worst, rms }
}

/// The first node from the `i`-th on that is not within tolerance.
pub open spec fn first_breach(
    nodes: Seq<(String, (Real, Real, Real))>,
    rtol: Real,
    atol: Real,
    i: int,
) -> int
    decreases nodes.len() - i,
{
    if i < 0 || i >= nodes.len() || !validate::close_f64(
        nodes[i].1.0,
        nodes[i].1.1,
        rtol,
        atol,
    ) {
        i
    } else {
        first_breach(nodes, rtol, atol, i + 1)
    }
}

/// What is said of two values that are not within tolerance.
pub open spec fn breach_numbers(a: Real, b: Real, rtol: Real, atol: Real, rms: Real) -> Seq<char> {
    numfmt::scientific(a.sub_spec(b).abs_spec(), 3) + "  (envelope = "@ + numfmt::scientific(
        validate::envelope_f64(b, rtol, atol),
        3,
    ) + ")\n  rms across nodes = "@ + numfmt::scientific(rms, 3)
}

fn breach_numbers_of(a: Real, b: Real, rtol: Real, atol: Real, rms: Real) -> (res: String)
    ensures
        res@ == breach_numbers(a, b, rtol, atol, rms),
{
    let mut s = numfmt::to_scientific(a.sub(b).abs(), 3);
    s.append("  (envelope = ");
    s.append(numfmt::to_scientific(atol.add(rtol.mul(b.abs())), 3).as_str());
    s.append(")\n  rms across nodes = ");
    s.append(numfmt::to_scientific(rms, 3).as_str());
    s
}

pub open spec fn dc_breach_text(
    label: Seq<char>,
    node: Seq<char>,
    v: (Real, Real, Real),
    rtol: Real,
    atol: Real,
    rms: Real,
) -> Seq<char> {
    "["@ + label + "] DC mismatch at node "@ + text::debug_text(node) + ":\n  a = "@
        + numfmt::signed_scientific(v.0, 9) + "\n  b = "@ + numfmt::signed_scientific(v.1, 9)
        + "\n  |a-b| = "@ + breach_numbers(v.0, v.1, rtol, atol, rms)
}

impl DcDiffReport {
    /// The first node by name that is not within tolerance.
    pub open spec fn breached(self, rtol: Real, atol: Real) -> Option<
        (Seq<char>, (Real, Real, Real)),
    > {
        let i = first_breach(self.per_node.listing(), rtol, atol, 0);
        if i < self.per_node.listing().len() {
            Some((self.per_node.listing()[i].0@, self.per_node.listing()[i].1))
        } else {
            None
        }
    }

    fn find_breach(&self, rtol: Real, atol: Real) -> (res: Option<(&String, (Real, Real, Real))>)
        ensures
            match res {
                None => self.breached(rtol, atol) is None,
                Some((n, v)) => self.breached(rtol, atol) == Some((n@, v)),
            },
    {
        let n: usize = self.per_node.len();
        let ghost list = self.per_node.listing();
        let mut i: usize = 0;
        while i < n
            invariant
                i <= n,
                n == list.len(),
                list == self.per_node.listing(),
                first_breach(list, rtol, atol, 0) == first_breach(list, rtol, atol, i as int),
            decreases n - i,
        {
            let v: (Real, Real, Real) = self.per_node.value_at(i);
            if !validate::is_close_f64(v.0, v.1, rtol, atol) {
                return Some((self.per_node.name_at(i), v));
            }
            i = i + 1;
        }
        None
    }

    /// What is wrong with the first node by name that is not within tolerance.
    pub fn breach(&self, rtol: Real, atol: Real, label: &str) -> (res: Option<String>)
        ensures
            match res {
                None => self.breached(rtol, atol) is None,
                Some(m) => self.breached(rtol, atol) is Some && m@ == dc_breach_text(
                    label@,
                    (self.breached(rtol, atol)->0).0,
                    (self.breached(rtol, atol)->0).1,
                    rtol,
                    atol,
                    self.rms,
                ),
            },
    {
        match self.find_breach(rtol, atol) {
            None => None,
            Some((node, v)) => {
                let mut s = "[".to_owned();
                s.append(label);
                s.append("] DC mismatch at node ");
                s.append(text::quoted(node.as_str()).as_str());
                s.append(":\n  a = ");
                s.append(numfmt::to_signed_scientific(v.0, 9).as_str());
                s.append("\n  b = ");
                s.append(numfmt::to_signed_scientific(v.1, 9).as_str());
                s.append("\n  |a-b| = ");
                s.append(breach_numbers_of(v.0, v.1, rtol, atol, self.rms).as_str());
                Some(s)
            },
        }
    }
}

/// All nodes are within tolerance exactly where no breach is reported.
pub proof fn no_breach_means_all_close(r: DcDiffReport, rtol: Real, atol: Real, i: int)
    requires
        r.breached(rtol, atol) is None,
        0 <= i < r.per_node.listing().len(),
    ensures
        validate::close_f64(
            r.per_node.listing()[i].1.0,
            r.per_node.listing()[i].1.1,
            rtol,
            atol,
        ),
{
    lemma_no_breach(r.per_node.listing(), rtol, atol, 0, i);
}

proof fn lemma_no_breach(
    nodes: Seq<(String, (Real, Real, Real))>,
    rtol: Real,
    atol: Real,
    k: int,
    i: int,
)
    requires
        0 <= k <= i < nodes.len(),
        first_breach(nodes, rtol, atol, k) >= nodes.len(),
    ensures
        validate::close_f64(nodes[i].1.0, nodes[i].1.1, rtol, atol),
    decreases i - k,
{
    if k < i {
        lemma_no_breach(nodes, rtol, atol, k + 1, i);
    }
}

// ── a layout against its model ─────────────────────────────────────

/// How the operating point of a layout differs from that of its model.
#[derive(Debug)]
pub struct LayoutVsBehavioralReport {
    pub inner: DcDiffReport,
}

pub open spec fn layout_breach_text(
    label: Seq<char>,
    node: Seq<char>,
    v: (Real, Real, Real),
    rtol: Real,
    atol: Real,
    rms: Real,
) -> Seq<char> {
    "["@ + label + "] layout-vs-behavioral mismatch at node "@ + text::debug_text(node)
        + ":\n\n  extracted-deck: "@ + numfmt::signed_scientific(v.0, 9)
        + "\n  behavioral:     "@ + numfmt::signed_scientific(v.1, 9) + "\n  |Δ|           = "@
        + breach_numbers(v.0, v.1, rtol, atol, rms)
        + "\n\nLikely causes (in order):\n  1. missing wire in Layout::layout — extraction split a net\n  2. DeviceRecognizer returned the wrong value for this block\n  3. behavioral model and layout PDK rules drifted (e.g. sheet ρ)"@
}

impl LayoutVsBehavioralReport {
    /// Compares the operating point of a layout with that of its model.
    pub fn dc(extracted: &NameMap<Real>, behavioral: &NameMap<Real>) -> (res: Self)
        requires
            extracted.listing().len() > 0,
            same_nodes(*extracted, *behavioral),
        ensures
            res.inner.per_node@ == Map::new(
                |k: Seq<char>| extracted@.contains_key(k),
                |k: Seq<char>| apart(extracted@[k], behavioral@[k]),
            ),
            ({
                let ds = dc_differences(
                    extracted.listing(),
                    behavioral@,
                    extracted.listing().len() as int,
                );
                let names = ordmap::entry_names(extracted.listing());
                worst_model(res.inner.worst) == worst_of(names, ds, ds.len() as int)
                    && res.inner.rms == root_mean_square(ds)
            }),
    {
        LayoutVsBehavioralReport { inner: compare_dc_voltages(extracted, behavioral) }
    }

    /// The node whose values are furthest apart, and how far they are.
    pub fn worst(&self) -> (res: Option<(&str, Real)>)
        ensures
            match res {
                None => self.inner.worst is None,
                Some((n, d)) => worst_model(self.inner.worst) == Some((n@, d)),
            },
    {
        match &self.inner.worst {
            Some((n, d)) => Some((n.as_str(), *d)),
            None => None,
        }
    }

    /// What is wrong with the first node by name that is not within tolerance.
    pub fn breach(&self, rtol: Real, atol: Real, label: &str) -> (res: Option<String>)
        ensures
            match res {
                None => self.inner.breached(rtol, atol) is None,
                Some(m) => self.inner.breached(rtol, atol) is Some && m@ == layout_breach_text(
                    label@,
                    (self.inner.breached(rtol, atol)->0).0,
                    (self.inner.breached(rtol, atol)->0).1,
                    rtol,
                    atol,
                    self.inner.rms,
                ),
            },
    {
        match self.inner.find_breach(rtol, atol) {
            None => None,
            Some((node, v)) => {
                let mut s = "[".to_owned();
                s.append(label);
                s.append("] layout-vs-behavioral mismatch at node ");
                s.append(text::quoted(node.as_str()).as_str());
                s.append(":\n\n  extracted-deck: ");
                s.append(numfmt::to_signed_scientific(v.0, 9).as_str());
                s.append("\n  behavioral:     ");
                s.append(numfmt::to_signed_scientific(v.1, 9).as_str());
                s.append("\n  |Δ|           = ");
                s.append(breach_numbers_of(v.0, v.1, rtol, atol, self.inner.rms).as_str());
                s.append(
                    "\n\nLikely causes (in order):\n  1. missing wire in Layout::layout — extraction split a net\n  2. DeviceRecognizer returned the wrong value for this block\n  3. behavioral model and layout PDK rules drifted (e.g. sheet ρ)",
                );
                Some(s)
            },
        }
    }
}

// ── transients ─────────────────────────────────────────────────────

/// How two transients differ, node by node.
#[derive(Debug)]
pub struct TransientDiffReport {
    /// The largest difference of each node, and the root of the mean square of all.
    pub per_node: NameMap<(Real, Real)>,
    pub worst: Option<(String, Real)>,
}

/// The differences of two traces at the first `n` times of the first, where they overlap.
pub open spec fn trace_differences(
    ta: Seq<Real>,
    ya: Seq<Real>,
    tb: Seq<Real>,
    yb: Seq<Real>,
    n: int,
) -> Seq<Real>
    decreases n,
{
    if n <= 0 {
        Seq::empty()
    } else {
        let before = trace_differences(ta, ya, tb, yb, n - 1);
        if validate::outside(ta[n - 1], validate::overlap(ta, tb)) {
            before
        } else {
            before.push(
                ya[n - 1].sub_spec(validate::interpolated(tb, yb, ta[n - 1])).abs_spec(),
            )
        }
    }
}

/// The largest of some differences, at least zero.
pub open spec fn largest(ds: Seq<Real>) -> Real
    decreases ds.len(),
{
    if ds.len() == 0 {
        Real { bits: 0 }
    } else {
        let before = largest(ds.drop_last());
        if before.below(ds.last()) {
            ds.last()
        } else {
            before
        }
    }
}

/// The largest difference of two traces and the root of the mean square of all.
pub open spec fn trace_spread(ta: Seq<Real>, ya: Seq<Real>, tb: Seq<Real>, yb: Seq<Real>) -> (
    Real,
    Real,
) {
    let ds = trace_differences(ta, ya, tb, yb, ta.len() as int);
    (
        largest(ds),
        if ds.len() > 0 {
            root_mean_square(ds)
        } else {
            Real { bits: 0 }
        },
    )
}

fn spread_of(t_a: &[Real], ya: &Vec<Real>, t_b: &[Real], yb: &Vec<Real>) -> (res: (Real, Real))
    requires
        t_a@.len() == ya@.len(),
        t_b@.len() == yb@.len(),
        t_a@.len() > 0,
        t_b@.len() > 0,
        validate::ascends(t_a@),
        validate::ascends(t_b@),
    ensures
        res == trace_spread(t_a@, ya@, t_b@, yb@),
{
    let low = t_a[0].max(t_b[0]);
    let high = t_a[t_a.len() - 1].min(t_b[t_b.len() - 1]);
    let mut max = Real { bits: 0 };
    let mut sum = Real { bits: 0 };
    let mut count: usize = 0;
    let mut i: usize = 0;
    while i < t_a.len()
        invariant
            count <= i <= t_a@.len(),
            t_a@.len() == ya@.len(),
            t_b@.len() == yb@.len(),
            t_b@.len() > 0,
            validate::ascends(t_a@),
            validate::ascends(t_b@),
            (low, high) == validate::overlap(t_a@, t_b@),
            count == trace_differences(t_a@, ya@, t_b@, yb@, i as int).len(),
            max == largest(trace_differences(t_a@, ya@, t_b@, yb@, i as int)),
            sum == sum_of_squares(trace_differences(t_a@, ya@, t_b@, yb@, i as int)),
        decreases t_a@.len() - i,
    {
        let t: Real = t_a[i];
        assert(!t_a@[i as int].nan());
        if !(t.lt(low) || high.lt(t)) {
            let other = validate::lerp(t_b, yb.as_slice(), t);
            let d = ya[i].sub(other).abs();
            proof {
                let before = trace_differences(t_a@, ya@, t_b@, yb@, i as int);
                assert(before.push(d).drop_last() =~= before);
            }
            if max.lt(d) {
                max = d;
            }
            sum = sum.add(d.mul(d));
            count = count + 1;
        }
        i = i + 1;
    }
    let rms = if count > 0 {
        sum.div(Real::from_u64(count as u64)).sqrt()
    } else {
        Real { bits: 0 }
    };
    (max, rms)
}

/// The largest differences of the first `n` nodes, in the order of their names.
pub open spec fn peak_differences(
    ta: Seq<Real>,
    a: Seq<(String, Vec<Real>)>,
    tb: Seq<Real>,
    b: Map<Seq<char>, Vec<Real>>,
    n: int,
) -> Seq<Real> {
    Seq::new(n as nat, |i: int| trace_spread(ta, a[i].1@, tb, b[a[i].0@]@).0)
}

/// Whether every trace has a value for each time.
pub open spec fn all_sampled(m: NameMap<Vec<Real>>, n: nat) -> bool {
    forall|k: Seq<char>| #[trigger] m@.contains_key(k) ==> m@[k]@.len() == n
}

/// Compares two transients of the same nodes, on the grid of the first.
pub fn compare_transient_traces(
    t_a: &[Real],
    a: &NameMap<Vec<Real>>,
    t_b: &[Real],
    b: &NameMap<Vec<Real>>,
) -> (res: TransientDiffReport)
    requires
        a.listing().len() > 0,
        same_nodes(*a, *b),
        t_a@.len() > 0,
        t_b@.len() > 0,
        validate::ascends(t_a@),
        validate::ascends(t_b@),
        all_sampled(*a, t_a@.len()),
        all_sampled(*b, t_b@.len()),
    ensures
        res.per_node@ == Map::new(
            |k: Seq<char>| a@.contains_key(k),
            |k: Seq<char>| trace_spread(t_a@, a@[k]@, t_b@, b@[k]@),
        ),
        ({
            let ds = peak_differences(t_a@, a.listing(), t_b@, b@, a.listing().len() as int);
            worst_model(res.worst) == worst_of(
                ordmap::entry_names(a.listing()),
                ds,
                ds.len() as int,
            )
        }),
{
    let n: usize = a.len();
    let ghost list = a.listing();
    let ghost names = ordmap::entry_names(list);
    let ghost all = peak_differences(t_a@, list, t_b@, b@, n as int);
    let mut per_node: NameMap<(Real, Real)> = NameMap::new();
    let mut worst: Option<(String, Real)> = None;
    let mut i: usize = 0;
    while i < n
        invariant
            i <= n,
            n == list.len(),
            list == a.listing(),
            ordmap::ascending(list),
            a@ == ordmap::entries_map(list),
            names == ordmap::entry_names(list),
            all == peak_differences(t_a@, list, t_b@, b@, n as int),
            same_nodes(*a, *b),
            t_a@.len() > 0,
            t_b@.len() > 0,
            validate::ascends(t_a@),
            validate::ascends(t_b@),
            all_sampled(*a, t_a@.len()),
            all_sampled(*b, t_b@.len()),
            worst_model(worst) == worst_of(names, all, i as int),
            forall|k: Seq<char>| #[trigger]
                per_node@.contains_key(k) <==> exists|j: int| 0 <= j < i && #[trigger] list[j].0@ == k,
            forall|j: int|
                0 <= j < i ==> per_node@[#[trigger] list[j].0@] == trace_spread(
                    t_a@,
                    list[j].1@,
                    t_b@,
                    b@[list[j].0@]@,
                ),
        decreases n - i,
    {
        let name: &String = a.name_at(i);
        let ya: &Vec<Real> = a.entry_at(i);
        proof {
            ordmap::lemma_map_at(list, i as int);
            assert(a@.contains_key(list[i as int].0@));
            assert(a@[list[i as int].0@] == list[i as int].1);
            assert(b@.contains_key(name@));
        }
        let yb: &Vec<Real> = b.find(name.as_str()).unwrap();
        let s: (Real, Real) = spread_of(t_a, ya, t_b, yb);
        worst = worse(worst, name, s.0);
        let ghost before = per_node@;
        per_node.set(name.as_str(), s);
        proof {
            assert(all[i as int] == s.0);
            assert(names[i as int] == name@);
            assert forall|k: Seq<char>| #[trigger] per_node@.contains_key(k) <==> exists|j: int|
                0 <= j < i + 1 && #[trigger] list[j].0@ == k by {
                if before.contains_key(k) {
                    let j = choose|j: int| 0 <= j < i && #[trigger] list[j].0@ == k;
                    assert(list[j].0@ == k && j < i + 1);
                }
                if k == name@ {
                    assert(list[i as int].0@ == k);
                }
            }
            assert forall|j: int| 0 <= j < i + 1 implies per_node@[#[trigger] list[j].0@]
                == trace_spread(t_a@, list[j].1@, t_b@, b@[list[j].0@]@) by {
                if j < i {
                    ordmap::names_are_totally_ordered(name@, name@);
                    assert(ordmap::name_lt(list[j].0@, list[i as int].0@));
                }
            }
        }
        i = i + 1;
    }
    proof {
        assert forall|k: Seq<char>| #[trigger] a@.contains_key(k) implies per_node@.contains_key(k)
            && per_node@[k] == trace_spread(t_a@, a@[k]@, t_b@, b@[k]@) by {
            let p = ordmap::position(list, k);
            assert(list[p].0@ == k);
        }
        assert forall|k: Seq<char>| #[trigger] per_node@.contains_key(k) implies a@.contains_key(
            k,
        ) by {
            let j = choose|j: int| 0 <= j < n && #[trigger] list[j].0@ == k;
            ordmap::lemma_map_at(list, j);
        }
        assert(per_node@ =~= Map::new(
            |k: Seq<char>| a@.contains_key(k),
            |k: Seq<char>| trace_spread(t_a@, a@[k]@, t_b@, b@[k]@),
        ));
    }
    TransientDiffReport { per_node, worst }
}

/// How far a transient may be off, given the peak of its values.
pub open spec fn transient_envelope(rtol: Real, atol: Real, peak: Real) -> Real {
    atol.add_spec(rtol.mul_spec(peak))
}

/// The first node from the `i`-th on whose largest difference is beyond a bound.
pub open spec fn first_beyond(nodes: Seq<(String, (Real, Real))>, bound: Real, i: int) -> int
    decreases nodes.len() - i,
{
    if i < 0 || i >= nodes.len() || bound.below(nodes[i].1.0) {
        i
    } else {
        first_beyond(nodes, bound, i + 1)
    }
}

pub open spec fn transient_breach_text(
    label: Seq<char>,
    node: Seq<char>,
    v: (Real, Real),
    bound: Real,
) -> Seq<char> {
    "["@ + label + "] transient mismatch at node "@ + text::debug_text(node)
        + ":\n  max|a-b| = "@ + numfmt::scientific(v.0, 3) + "\n  rms      = "@
        + numfmt::scientific(v.1, 3) + "\n  envelope = "@ + numfmt::scientific(bound, 3)
}

impl TransientDiffReport {
    /// What is wrong with the first node by name that is not within tolerance.
    pub fn breach(&self, rtol: Real, atol: Real, peak_per_node: Real, label: &str) -> (res: Option<
        String,
    >)
        ensures
            ({
                let bound = transient_envelope(rtol, atol, peak_per_node);
                let list = self.per_node.listing();
                let i = first_beyond(list, bound, 0);
                match res {
                    None => i >= list.len(),
                    Some(m) => i < list.len() && m@ == transient_breach_text(
                        label@,
                        list[i].0@,
                        list[i].1,
                        bound,
                    ),
                }
            }),
    {
        let bound = atol.add(rtol.mul(peak_per_node));
        let n: usize = self.per_node.len();
        let ghost list = self.per_node.listing();
        let mut i: usize = 0;
        while i < n
            invariant
                i <= n,
                n == list.len(),
                list == self.per_node.listing(),
                bound == transient_envelope(rtol, atol, peak_per_node),
                first_beyond(list, bound, 0) == first_beyond(list, bound, i as int),
            decreases n - i,
        {
            let v: (Real, Real) = self.per_node.value_at(i);
            if bound.lt(v.0) {
                let node: &String = self.per_node.name_at(i);
                let mut s = "[".to_owned();
                s.append(label);
                s.append("] transient mismatch at node ");
                s.append(text::quoted(node.as_str()).as_str());
                s.append(":\n  max|a-b| = ");
                s.append(numfmt::to_scientific(v.0, 3).as_str());
                s.append("\n  rms      = ");
                s.append(numfmt::to_scientific(v.1, 3).as_str());
                s.append("\n  envelope = ");
                s.append(numfmt::to_scientific(bound, 3).as_str());
                return Some(s);
            }
            i = i + 1;
        }
        None
    }
}

// ── what the reports say ───────────────────────────────────────────

/// The worst of some differences is one of them under its own name, none is larger, and
/// none before it is as large. There is one as soon as there is a difference.
pub proof fn worst_is_the_largest(names: Seq<Seq<char>>, ds: Seq<Real>, n: int)
    requires
        0 <= n <= ds.len(),
        names.len() == ds.len(),
    ensures
        match worst_of(names, ds, n) {
            None => n == 0,
            Some((name, d)) => exists|k: int|
                0 <= k < n && #[trigger] ds[k] == d && names[k] == name && (forall|j: int|
                    0 <= j < n ==> !d.below(#[trigger] ds[j])) && (forall|j: int|
                    0 <= j < k && !d.nan() && !ds[0].nan() ==> (#[trigger] ds[j]).nan()
                        || ds[j].rank() < d.rank()),
        },
    decreases n,
{
    if n > 0 {
        worst_is_the_largest(names, ds, n - 1);
        match worst_of(names, ds, n - 1) {
            None => {
                assert(ds[n - 1] == ds[0]);
            },
            Some((name, d)) => {
                if d.below(ds[n - 1]) {
                    assert(ds[n - 1] == ds[n - 1]);
                } else {
                    let k = choose|k: int|
                        0 <= k < n - 1 && #[trigger] ds[k] == d && names[k] == name && (forall|j: int|
                            0 <= j < n - 1 ==> !d.below(#[trigger] ds[j])) && (forall|j: int|
                            0 <= j < k && !d.nan() && !ds[0].nan() ==> (#[trigger] ds[j]).nan()
                                || ds[j].rank() < d.rank());
                    assert(ds[k] == d);
                }
            },
        }
    }
}

/// How far two traces are apart at a time of the first.
pub open spec fn gap_at(
    ta: Seq<Real>,
    ya: Seq<Real>,
    tb: Seq<Real>,
    yb: Seq<Real>,
    i: int,
) -> Real {
    ya[i].sub_spec(validate::interpolated(tb, yb, ta[i])).abs_spec()
}

/// Whether two traces are a number apart at one of the first `n` times of the first, one
/// that both cover.
pub open spec fn is_gap(
    ta: Seq<Real>,
    ya: Seq<Real>,
    tb: Seq<Real>,
    yb: Seq<Real>,
    n: int,
    d: Real,
) -> bool {
    exists|i: int|
        #![trigger ta[i]]
        0 <= i < n && validate::in_both(ta[i], ta, tb) && gap_at(ta, ya, tb, yb, i) == d
}

proof fn lemma_largest(ds: Seq<Real>)
    ensures
        forall|j: int| 0 <= j < ds.len() ==> !largest(ds).below(#[trigger] ds[j]),
        largest(ds) == (Real { bits: 0 }) || ds.contains(largest(ds)),
        !largest(ds).nan(),
    decreases ds.len(),
{
    if ds.len() > 0 {
        let less = ds.drop_last();
        lemma_largest(less);
        assert forall|j: int| 0 <= j < ds.len() implies !largest(ds).below(#[trigger] ds[j]) by {
            if j < ds.len() - 1 {
                assert(!largest(less).below(less[j]));
            }
        }
        if largest(less).below(ds.last()) {
            assert(ds[ds.len() - 1] == largest(ds));
        } else if less.contains(largest(less)) {
            let j = choose|j: int| 0 <= j < less.len() && less[j] == largest(less);
            assert(ds[j] == largest(ds));
        }
    }
}

/// The differences of two traces are those at the times of the first that both cover.
proof fn lemma_differences(
    ta: Seq<Real>,
    ya: Seq<Real>,
    tb: Seq<Real>,
    yb: Seq<Real>,
    n: int,
)
    requires
        0 <= n <= ta.len(),
        ta.len() == ya.len(),
        tb.len() > 0,
        validate::ascends(ta),
        validate::ascends(tb),
    ensures
        forall|i: int|
            #![trigger ta[i]]
            0 <= i < n && validate::in_both(ta[i], ta, tb) ==> trace_differences(
                ta,
                ya,
                tb,
                yb,
                n,
            ).contains(gap_at(ta, ya, tb, yb, i)),
        forall|k: int|
            0 <= k < trace_differences(ta, ya, tb, yb, n).len() ==> is_gap(
                ta,
                ya,
                tb,
                yb,
                n,
                #[trigger] trace_differences(ta, ya, tb, yb, n)[k],
            ),
    decreases n,
{
    if n > 0 {
        lemma_differences(ta, ya, tb, yb, n - 1);
        let before = trace_differences(ta, ya, tb, yb, n - 1);
        let now = trace_differences(ta, ya, tb, yb, n);
        assert(!ta[n - 1].nan());
        validate::overlap_is_what_both_cover(ta[n - 1], ta, tb);
        assert forall|i: int|
            #![trigger ta[i]]
            0 <= i < n && validate::in_both(ta[i], ta, tb) implies now.contains(
            gap_at(ta, ya, tb, yb, i),
        ) by {
            if i < n - 1 {
                let k = choose|k: int|
                    0 <= k < before.len() && before[k] == gap_at(ta, ya, tb, yb, i);
                assert(now[k] == before[k]);
            } else {
                assert(now[now.len() - 1] == gap_at(ta, ya, tb, yb, i));
            }
        }
        assert forall|k: int| 0 <= k < now.len() implies is_gap(
            ta,
            ya,
            tb,
            yb,
            n,
            #[trigger] now[k],
        ) by {
            if k < before.len() {
                assert(is_gap(ta, ya, tb, yb, n - 1, before[k]));
            } else {
                assert(validate::in_both(ta[n - 1], ta, tb) && gap_at(ta, ya, tb, yb, n - 1)
                    == now[k]);
            }
        }
    }
}

/// The largest difference of two traces is the difference at some time of the first that
/// both cover, or zero, and at no such time do they differ by more.
pub proof fn peak_is_over_common_times(
    ta: Seq<Real>,
    ya: Seq<Real>,
    tb: Seq<Real>,
    yb: Seq<Real>,
)
    requires
        ta.len() == ya.len(),
        tb.len() == yb.len(),
        ta.len() > 0,
        tb.len() > 0,
        validate::ascends(ta),
        validate::ascends(tb),
    ensures
        ({
            let peak = trace_spread(ta, ya, tb, yb).0;
            &&& !peak.nan()
            &&& forall|i: int|
                #![trigger ta[i]]
                0 <= i < ta.len() && validate::in_both(ta[i], ta, tb) ==> !peak.below(
                    gap_at(ta, ya, tb, yb, i),
                )
            &&& peak == (Real { bits: 0 }) || is_gap(ta, ya, tb, yb, ta.len() as int, peak)
        }),
{
    let n = ta.len() as int;
    let ds = trace_differences(ta, ya, tb, yb, n);
    lemma_differences(ta, ya, tb, yb, n);
    lemma_largest(ds);
    assert forall|i: int|
        #![trigger ta[i]]
        0 <= i < n && validate::in_both(ta[i], ta, tb) implies !largest(ds).below(
        gap_at(ta, ya, tb, yb, i),
    ) by {
        let k = choose|k: int| 0 <= k < ds.len() && ds[k] == gap_at(ta, ya, tb, yb, i);
        assert(!largest(ds).below(ds[k]));
    }
}

proof fn lemma_same_differences(
    ta: Seq<Real>,
    ya: Seq<Real>,
    za: Seq<Real>,
    tb: Seq<Real>,
    yb: Seq<Real>,
    n: int,
)
    requires
        0 <= n <= ta.len(),
        ta.len() == ya.len() == za.len(),
        tb.len() > 0,
        validate::ascends(ta),
        validate::ascends(tb),
        forall|i: int|
            #![trigger ta[i]]
            0 <= i < ta.len() && validate::in_both(ta[i], ta, tb) ==> ya[i] == za[i],
    ensures
        trace_differences(ta, ya, tb, yb, n) == trace_differences(ta, za, tb, yb, n),
    decreases n,
{
    if n > 0 {
        lemma_same_differences(ta, ya, za, tb, yb, n - 1);
        assert(!ta[n - 1].nan());
        validate::overlap_is_what_both_cover(ta[n - 1], ta, tb);
    }
}

/// Values at times that only one of two traces covers count for nothing.
pub proof fn spread_ignores_what_one_trace_lacks(
    ta: Seq<Real>,
    ya: Seq<Real>,
    za: Seq<Real>,
    tb: Seq<Real>,
    yb: Seq<Real>,
)
    requires
        ta.len() == ya.len() == za.len(),
        tb.len() == yb.len(),
        ta.len() > 0,
        tb.len() > 0,
        validate::ascends(ta),
        validate::ascends(tb),
        forall|i: int|
            #![trigger ta[i]]
            0 <= i < ta.len() && validate::in_both(ta[i], ta, tb) ==> ya[i] == za[i],
    ensures
        trace_spread(ta, ya, tb, yb) == trace_spread(ta, za, tb, yb),
{
    lemma_same_differences(ta, ya, za, tb, yb, ta.len() as int);
}

/// The first node beyond a bound is beyond it, and none before it is.
pub proof fn first_beyond_is_first(nodes: Seq<(String, (Real, Real))>, bound: Real, i: int)
    requires
        0 <= i <= nodes.len(),
    ensures
        i <= first_beyond(nodes, bound, i) <= nodes.len(),
        forall|j: int|
            i <= j < first_beyond(nodes, bound, i) ==> !bound.below((#[trigger] nodes[j]).1.0),
        first_beyond(nodes, bound, i) < nodes.len() ==> bound.below(
            nodes[first_beyond(nodes, bound, i)].1.0,
        ),
    decreases nodes.len() - i,
{
    if i < nodes.len() && !bound.below(nodes[i].1.0) {
        first_beyond_is_first(nodes, bound, i + 1);
    }
}

} // verus!
