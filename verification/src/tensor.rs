//! What expressions over tensors come to, entry by entry, in exact arithmetic.

use crate::ad;
use crate::graph;
use crate::graph::{Activation, BinaryOp, Expr, OpModel};
use crate::single::Single;
use vstd::prelude::*;

verus! {

/// What numbers, names and functions stand for.
pub struct Meaning {
    pub number: spec_fn(Single) -> real,
    /// The entries of what is given under a name.
    pub given: spec_fn(Seq<char>, Seq<int>) -> real,
    pub apply: spec_fn(Activation, real) -> real,
}

// ── indices ────────────────────────────────────────────────────────

/// The place of an entry when all are listed row by row.
pub open spec fn place(dims: Seq<usize>, ix: Seq<int>) -> int
    decreases ix.len(),
{
    if ix.len() == 0 {
        0
    } else {
        place(dims.drop_last(), ix.drop_last()) * dims.last() + ix.last()
    }
}

/// The entry at a place.
pub open spec fn index(dims: Seq<usize>, k: int) -> Seq<int>
    decreases dims.len(),
{
    if dims.len() == 0 {
        Seq::empty()
    } else {
        index(dims.drop_last(), k / (dims.last() as int)).push(k % (dims.last() as int))
    }
}

/// The entry that is repeated along axes of extent one, the last axes of both being the
/// same.
pub open spec fn source(dims: Seq<usize>, ix: Seq<int>) -> Seq<int> {
    Seq::new(
        dims.len(),
        |k: int|
            if dims[k] == 1 {
                0
            } else {
                ix[k + ix.len() - dims.len()]
            },
    )
}

// ── values ─────────────────────────────────────────────────────────

/// The number that four bytes are, lowest first.
pub open spec fn number_of(b: Seq<u8>) -> Single {
    Single { bits: (b[0] + b[1] * 0x100 + b[2] * 0x1_0000 + b[3] * 0x100_0000) as u32 }
}

/// The value of an entry. Pieces that are put together have one entry each along that
/// axis, and sums go along the last axes.
#[verifier::opaque]
pub open spec fn entry(e: Expr, ix: Seq<int>, m: Meaning) -> real
    decreases e, 0int, 0int,
{
    match e.op {
        OpModel::Constant(b) => {
            let k = 4 * place(e.dims, ix);
            (m.number)(number_of(b.subrange(k, k + 4)))
        },
        OpModel::Param(name) => (m.given)(name, ix),
        OpModel::Input(name) => (m.given)(name, ix),
        OpModel::Binary(op) => if e.args.len() == 2 {
            let a = entry(e.args[0], ix, m);
            let b = entry(e.args[1], ix, m);
            match op {
                BinaryOp::Add => a + b,
                BinaryOp::Sub => a - b,
                BinaryOp::Mul => a * b,
                BinaryOp::Div => a / b,
            }
        } else {
            arbitrary()
        },
        OpModel::Activation(f) => if e.args.len() == 1 {
            (m.apply)(f, entry(e.args[0], ix, m))
        } else {
            arbitrary()
        },
        OpModel::Reshape(_) => if e.args.len() == 1 {
            entry(e.args[0], index(e.args[0].dims, place(e.dims, ix)), m)
        } else {
            arbitrary()
        },
        OpModel::Expand(_) => if e.args.len() == 1 {
            entry(e.args[0], source(e.args[0].dims, ix), m)
        } else {
            arbitrary()
        },
        OpModel::Narrow(axis, start, _) => if e.args.len() == 1 {
            entry(e.args[0], ix.update(axis as int, ix[axis as int] + start), m)
        } else {
            arbitrary()
        },
        OpModel::Concat(axis) => if 0 <= ix[axis as int] < e.args.len() {
            entry(e.args[ix[axis as int]], ix.update(axis as int, 0), m)
        } else {
            arbitrary()
        },
        OpModel::Sum(axes) => if e.args.len() == 1 {
            sum_behind(e.args[0], ix.take(axes[0] as int), m)
        } else {
            arbitrary()
        },
        OpModel::Other => arbitrary(),
    }
}

/// The sum of all entries whose indices start in a given way.
#[verifier::opaque]
pub open spec fn sum_behind(a: Expr, start: Seq<int>, m: Meaning) -> real
    decreases a, a.dims.len() - start.len() + 1, 0int,
{
    if start.len() == a.dims.len() {
        entry(a, start, m)
    } else if start.len() < a.dims.len() {
        sum_along(a, start, m, a.dims[start.len() as int] as int)
    } else {
        arbitrary()
    }
}

/// The sum over the first `n` indices along the next axis.
#[verifier::opaque]
pub open spec fn sum_along(a: Expr, start: Seq<int>, m: Meaning, n: int) -> real
    decreases a, a.dims.len() - start.len(), n,
    when start.len() < a.dims.len()
{
    if n <= 0 {
        0 as real
    } else {
        sum_along(a, start, m, n - 1) + sum_behind(a, start.push(n - 1), m)
    }
}

// ── operations ─────────────────────────────────────────────────────

pub open spec fn combined(op: BinaryOp, a: real, b: real) -> real {
    match op {
        BinaryOp::Add => a + b,
        BinaryOp::Sub => a - b,
        BinaryOp::Mul => a * b,
        BinaryOp::Div => a / b,
    }
}

pub proof fn lemma_bin(op: BinaryOp, a: Expr, b: Expr, s: Seq<usize>, ix: Seq<int>, m: Meaning)
    ensures
        entry(graph::bin(op, a, b, s), ix, m) == combined(op, entry(a, ix, m), entry(b, ix, m)),
{
    reveal(entry);
    let e = graph::bin(op, a, b, s);
    assert(e.args[0] == a);
    assert(e.args[1] == b);
}

pub proof fn lemma_act(f: Activation, a: Expr, s: Seq<usize>, ix: Seq<int>, m: Meaning)
    ensures
        entry(graph::act(f, a, s), ix, m) == (m.apply)(f, entry(a, ix, m)),
{
    reveal(entry);
    assert(graph::act(f, a, s).args[0] == a);
}

pub proof fn lemma_given(name: Seq<char>, s: Seq<usize>, ix: Seq<int>, m: Meaning)
    ensures
        entry(graph::given(name, s), ix, m) == (m.given)(name, ix),
        entry(graph::parameter(name, s), ix, m) == (m.given)(name, ix),
{
    reveal(entry);
}

pub proof fn lemma_reshaped(a: Expr, s: Seq<usize>, ix: Seq<int>, m: Meaning)
    ensures
        entry(graph::reshaped(a, s), ix, m) == entry(a, index(a.dims, place(s, ix)), m),
{
    reveal(entry);
    assert(graph::reshaped(a, s).args[0] == a);
}

pub proof fn lemma_expand(a: Expr, s: Seq<usize>, ix: Seq<int>, m: Meaning)
    ensures
        entry(graph::expand(a, s), ix, m) == entry(a, source(a.dims, ix), m),
{
    reveal(entry);
    assert(graph::expand(a, s).args[0] == a);
}

pub proof fn lemma_narrow(
    axis: usize,
    start: usize,
    a: Expr,
    s: Seq<usize>,
    ix: Seq<int>,
    m: Meaning,
)
    ensures
        entry(graph::narrow(axis, start, 1, a, s), ix, m) == entry(
            a,
            ix.update(axis as int, ix[axis as int] + start),
            m,
        ),
{
    reveal(entry);
    assert(graph::narrow(axis, start, 1, a, s).args[0] == a);
}

pub proof fn lemma_joined(args: Seq<Expr>, axis: usize, s: Seq<usize>, ix: Seq<int>, m: Meaning)
    requires
        0 <= ix[axis as int] < args.len(),
    ensures
        entry(graph::joined(args, axis, s), ix, m) == entry(
            args[ix[axis as int]],
            ix.update(axis as int, 0),
            m,
        ),
{
    reveal(entry);
}

pub proof fn lemma_summed(a: Expr, axes: Seq<usize>, s: Seq<usize>, ix: Seq<int>, m: Meaning)
    ensures
        entry(graph::summed(a, axes, s), ix, m) == sum_behind(a, ix.take(axes[0] as int), m),
{
    reveal(entry);
    reveal(sum_behind);
    assert(graph::summed(a, axes, s).args[0] == a);
}

// ── numbers ────────────────────────────────────────────────────────

proof fn lemma_number_of(v: Single)
    ensures
        number_of(ad::le_bytes(v)) == v,
{
    reveal(ad::le_bytes);
    let x = v.bits as int;
    assert(x % 256 + (x / 256 % 256) * 0x100 + (x / 0x1_0000 % 256) * 0x1_0000 + (x / 0x100_0000)
        * 0x100_0000 == x);
}

proof fn lemma_bytes_len(vs: Seq<Single>)
    ensures
        ad::bytes_of(vs).len() == 4 * vs.len(),
    decreases vs.len(),
{
    if vs.len() > 0 {
        lemma_bytes_len(vs.drop_last());
        reveal(ad::le_bytes);
    }
}

proof fn lemma_bytes_at(vs: Seq<Single>, k: int)
    requires
        0 <= k < vs.len(),
    ensures
        ad::bytes_of(vs).subrange(4 * k, 4 * k + 4) == ad::le_bytes(vs[k]),
    decreases vs.len(),
{
    reveal(ad::le_bytes);
    let before = ad::bytes_of(vs.drop_last());
    let all = ad::bytes_of(vs);
    lemma_bytes_len(vs.drop_last());
    lemma_bytes_len(vs);
    assert(all == before + ad::le_bytes(vs.last()));
    if k < vs.len() - 1 {
        lemma_bytes_at(vs.drop_last(), k);
        assert(all.subrange(4 * k, 4 * k + 4) =~= before.subrange(4 * k, 4 * k + 4));
    } else {
        assert(all.subrange(4 * k, 4 * k + 4) =~= ad::le_bytes(vs.last()));
    }
}

/// An entry of a table of numbers is what the number stands for.
pub proof fn lemma_numbers(vs: Seq<Single>, s: Seq<usize>, ix: Seq<int>, m: Meaning)
    requires
        0 <= place(s, ix) < vs.len(),
    ensures
        entry(ad::numbers(vs, s), ix, m) == (m.number)(vs[place(s, ix)]),
{
    reveal(entry);
    let k = place(s, ix);
    lemma_bytes_at(vs, k);
    lemma_number_of(vs[k]);
}

/// A single number is what it stands for.
pub proof fn lemma_number(v: Single, m: Meaning)
    ensures
        entry(ad::number(v, ad::scalar()), seq![0int], m) == (m.number)(v),
{
    reveal(entry);
    reveal_with_fuel(place, 2);
    let b = ad::le_bytes(v);
    assert(place(ad::scalar(), seq![0int]) == 0) by {
        assert(seq![0int].drop_last() =~= Seq::empty());
    }
    assert(b.len() == 4) by {
        reveal(ad::le_bytes);
    }
    assert(b.subrange(0, 4) =~= b);
    lemma_number_of(v);
}

// ── places ─────────────────────────────────────────────────────────

pub proof fn lemma_place1(a: usize, i: int)
    ensures
        place(seq![a], seq![i]) == i,
{
    reveal_with_fuel(place, 2);
    assert(seq![i].drop_last() =~= Seq::empty());
    assert(0 * (a as int) == 0);
}

pub proof fn lemma_place2(a: usize, b: usize, i: int, j: int)
    ensures
        place(seq![a, b], seq![i, j]) == i * b + j,
{
    assert(seq![a, b].drop_last() =~= seq![a]);
    assert(seq![i, j].drop_last() =~= seq![i]);
    lemma_place1(a, i);
}

pub proof fn lemma_place3(a: usize, b: usize, c: usize, p: int, i: int, j: int)
    ensures
        place(seq![a, b, c], seq![p, i, j]) == (p * b + i) * c + j,
{
    assert(seq![a, b, c].drop_last() =~= seq![a, b]);
    assert(seq![p, i, j].drop_last() =~= seq![p, i]);
    lemma_place2(a, b, p, i);
}

proof fn lemma_split(q: int, d: int, r: int)
    requires
        0 <= r < d,
    ensures
        (q * d + r) / d == q,
        (q * d + r) % d == r,
{
    assert((q * d + r) / d == q && (q * d + r) % d == r) by (nonlinear_arith)
        requires
            0 <= r < d,
    ;
}

pub proof fn lemma_index1(a: usize, i: int)
    requires
        0 <= i < a,
    ensures
        index(seq![a], i) == seq![i],
{
    reveal_with_fuel(index, 2);
    assert(seq![a].drop_last() =~= Seq::empty());
    lemma_split(0, a as int, i);
    assert(index(seq![a], i) =~= seq![i]);
}

pub proof fn lemma_index2(a: usize, b: usize, i: int, j: int)
    requires
        0 <= i < a,
        0 <= j < b,
    ensures
        index(seq![a, b], i * b + j) == seq![i, j],
{
    assert(seq![a, b].drop_last() =~= seq![a]);
    lemma_split(i, b as int, j);
    lemma_index1(a, i);
    assert(index(seq![a, b], i * b + j) =~= seq![i, j]);
}

// ── sums ───────────────────────────────────────────────────────────

/// The sum of the first `n` values of a function.
pub open spec fn total(f: spec_fn(int) -> real, n: int) -> real
    decreases n,
{
    if n <= 0 {
        0 as real
    } else {
        total(f, n - 1) + f(n - 1)
    }
}

pub proof fn lemma_total_same(f: spec_fn(int) -> real, g: spec_fn(int) -> real, n: int)
    requires
        forall|i: int| 0 <= i < n ==> #[trigger] f(i) == g(i),
    ensures
        total(f, n) == total(g, n),
    decreases n,
{
    if n > 0 {
        lemma_total_same(f, g, n - 1);
        assert(f(n - 1) == g(n - 1));
    }
}

pub proof fn lemma_total_adds(
    f: spec_fn(int) -> real,
    g: spec_fn(int) -> real,
    h: spec_fn(int) -> real,
    n: int,
)
    requires
        forall|i: int| 0 <= i < n ==> #[trigger] f(i) == g(i) + h(i),
    ensures
        total(f, n) == total(g, n) + total(h, n),
    decreases n,
{
    if n > 0 {
        lemma_total_adds(f, g, h, n - 1);
        assert(f(n - 1) == g(n - 1) + h(n - 1));
    }
}

proof fn lemma_sum_along(a: Expr, start: Seq<int>, m: Meaning, n: int)
    requires
        start.len() < a.dims.len(),
    ensures
        sum_along(a, start, m, n) == total(|j: int| sum_behind(a, start.push(j), m), n),
    decreases n,
{
    reveal(sum_along);
    reveal(sum_behind);
    if n > 0 {
        lemma_sum_along(a, start, m, n - 1);
    }
}

proof fn lemma_sum_full(a: Expr, ix: Seq<int>, m: Meaning)
    requires
        ix.len() == a.dims.len(),
    ensures
        sum_behind(a, ix, m) == entry(a, ix, m),
{
    reveal(sum_behind);
    reveal(entry);
}

proof fn lemma_sum_next(a: Expr, start: Seq<int>, m: Meaning)
    requires
        start.len() < a.dims.len(),
    ensures
        sum_behind(a, start, m) == total(
            |j: int| sum_behind(a, start.push(j), m),
            a.dims[start.len() as int] as int,
        ),
{
    reveal(sum_behind);
    reveal(sum_along);
    lemma_sum_along(a, start, m, a.dims[start.len() as int] as int);
}

/// A sum along the last axis.
pub proof fn lemma_sum_row(a: Expr, start: Seq<int>, m: Meaning)
    requires
        start.len() + 1 == a.dims.len(),
    ensures
        sum_behind(a, start, m) == total(
            |j: int| entry(a, start.push(j), m),
            a.dims.last() as int,
        ),
{
    let n = a.dims.last() as int;
    lemma_sum_next(a, start, m);
    let f = |j: int| sum_behind(a, start.push(j), m);
    let g = |j: int| entry(a, start.push(j), m);
    assert forall|j: int| 0 <= j < n implies #[trigger] f(j) == g(j) by {
        lemma_sum_full(a, start.push(j), m);
    }
    lemma_total_same(f, g, n);
}

/// A sum along the last two axes.
pub proof fn lemma_sum_grid(a: Expr, start: Seq<int>, m: Meaning)
    requires
        start.len() + 2 == a.dims.len(),
    ensures
        sum_behind(a, start, m) == total(
            |i: int|
                total(
                    |j: int| entry(a, start.push(i).push(j), m),
                    a.dims.last() as int,
                ),
            a.dims[start.len() as int] as int,
        ),
{
    let n = a.dims[start.len() as int] as int;
    lemma_sum_next(a, start, m);
    let f = |i: int| sum_behind(a, start.push(i), m);
    let g = |i: int|
        total(|j: int| entry(a, start.push(i).push(j), m), a.dims.last() as int);
    assert forall|i: int| 0 <= i < n implies #[trigger] f(i) == g(i) by {
        lemma_sum_row(a, start.push(i), m);
    }
    lemma_total_same(f, g, n);
}

/// The sum of a symmetric function over all pairs of different indices is twice that
/// over the pairs in ascending order.
pub proof fn lemma_both_halves(f: spec_fn(int, int) -> real, n: int)
    requires
        0 <= n,
        forall|i: int, j: int| #[trigger] f(i, j) == f(j, i),
    ensures
        total(|i: int| total(|j: int| off_diagonal(f, i, j), n), n) == 2 as real * upper(f, n),
    decreases n,
{
    let all = |i: int| total(|j: int| off_diagonal(f, i, j), n);
    if n > 0 {
        lemma_both_halves(f, n - 1);
        let less = |i: int| total(|j: int| off_diagonal(f, i, j), n - 1);
        let column = |i: int| off_diagonal(f, i, n - 1);
        assert forall|i: int| 0 <= i < n - 1 implies #[trigger] all(i) == less(i) + column(i) by {
            lemma_total_same(
                |j: int| off_diagonal(f, i, j),
                |j: int| off_diagonal(f, i, j),
                n - 1,
            );
        }
        lemma_total_adds(all, less, column, n - 1);
        let last = |j: int| off_diagonal(f, n - 1, j);
        let pairs = |i: int| f(i, n - 1);
        assert forall|i: int| 0 <= i < n - 1 implies #[trigger] column(i) == pairs(i) by {}
        assert forall|j: int| 0 <= j < n - 1 implies #[trigger] last(j) == pairs(j) by {
            assert(f(n - 1, j) == f(j, n - 1));
        }
        lemma_total_same(column, pairs, n - 1);
        lemma_total_same(last, pairs, n - 1);
        assert(all(n - 1) == total(last, n - 1) + last(n - 1));
        assert(last(n - 1) == 0 as real);
    }
}

/// A function of pairs without those of equal indices.
pub open spec fn off_diagonal(f: spec_fn(int, int) -> real, i: int, j: int) -> real {
    if i == j {
        0 as real
    } else {
        f(i, j)
    }
}

/// The sum of a function over all pairs below `n` in ascending order.
pub open spec fn upper(f: spec_fn(int, int) -> real, n: int) -> real
    decreases n,
{
    if n <= 0 {
        0 as real
    } else {
        upper(f, n - 1) + total(|i: int| f(i, n - 1), n - 1)
    }
}

} // verus!
