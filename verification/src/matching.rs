//! What is to be paid for matching cells: in exact arithmetic, nothing where they match
//! and more elsewhere.

use crate::ad;
use crate::graph;
use crate::graph::{BinaryOp, Expr};
use crate::netlist::{MatchGroup, MatchKind, Netlist, SymmetryAxis};
use crate::same_loss;
use crate::same_loss::{only, value};
use crate::single::{Single, TWO_BITS};
use crate::tensor;
use crate::tensor::Meaning;
use vstd::prelude::*;

verus! {

proof fn lemma_number(v: Single, m: Meaning)
    ensures
        value(ad::number(v, ad::scalar()), m) == (m.number)(v),
{
    tensor::lemma_number(v, m);
}

proof fn lemma_bin(op: BinaryOp, a: Expr, b: Expr, m: Meaning)
    ensures
        value(graph::bin(op, a, b, ad::scalar()), m) == tensor::combined(
            op,
            value(a, m),
            value(b, m),
        ),
{
    tensor::lemma_bin(op, a, b, ad::scalar(), only(), m);
}

proof fn lemma_square(x: real)
    ensures
        x * x >= (0 as real),
        x * x == (0 as real) <==> x == (0 as real),
{
    assert(x * x >= (0 as real) && (x * x == (0 as real) <==> x == (0 as real)))
        by (nonlinear_arith);
}

proof fn lemma_square_of_difference(a: Expr, b: Expr, m: Meaning)
    ensures
        value(ad::square_of_difference(a, b, ad::scalar()), m) >= (0 as real),
        value(ad::square_of_difference(a, b, ad::scalar()), m) == (0 as real) <==> value(a, m)
            == value(b, m),
{
    let d = graph::bin(BinaryOp::Sub, a, b, ad::scalar());
    lemma_bin(BinaryOp::Sub, a, b, m);
    lemma_bin(BinaryOp::Mul, d, d, m);
    lemma_square(value(a, m) - value(b, m));
}

/// Two cells mirror each other exactly where nothing is to be paid for it. About a
/// vertical line, their horizontal positions add up to twice that of the line and their
/// vertical ones are equal; about a horizontal line it is the other way round.
pub proof fn mirrored_cells_match(
    p: (Expr, Expr),
    q: (Expr, Expr),
    axis: SymmetryAxis,
    coord: Single,
    m: Meaning,
)
    ensures
        value(ad::mirror(p, q, axis, coord, ad::scalar()), m) >= (0 as real),
        axis is Vertical ==> (value(ad::mirror(p, q, axis, coord, ad::scalar()), m) == (0 as real)
            <==> value(p.0, m) + value(q.0, m) == (m.number)(
            (Single { bits: TWO_BITS }).mul_spec(coord),
        ) && value(p.1, m) == value(q.1, m)),
        axis is Horizontal ==> (value(ad::mirror(p, q, axis, coord, ad::scalar()), m) == (
        0 as real) <==> value(p.1, m) + value(q.1, m) == (m.number)(
            (Single { bits: TWO_BITS }).mul_spec(coord),
        ) && value(p.0, m) == value(q.0, m)),
{
    let a = ad::along(p, axis);
    let b = ad::along(q, axis);
    let sum = graph::bin(BinaryOp::Add, a.0, b.0, ad::scalar());
    let twice = (Single { bits: TWO_BITS }).mul_spec(coord);
    lemma_bin(BinaryOp::Add, a.0, b.0, m);
    lemma_number(twice, m);
    lemma_square_of_difference(sum, ad::number(twice, ad::scalar()), m);
    lemma_square_of_difference(a.1, b.1, m);
    lemma_bin(
        BinaryOp::Add,
        ad::square_of_difference(sum, ad::number(twice, ad::scalar()), ad::scalar()),
        ad::square_of_difference(a.1, b.1, ad::scalar()),
        m,
    );
}

/// The sum of the values of the first `n` of some expressions.
pub open spec fn sum_of_values(es: Seq<Expr>, m: Meaning, n: int) -> real
    decreases n,
{
    if n <= 0 {
        0 as real
    } else {
        sum_of_values(es, m, n - 1) + value(es[n - 1], m)
    }
}

proof fn lemma_sum(es: Seq<Expr>, m: Meaning, n: int)
    requires
        0 < n <= es.len(),
    ensures
        ad::sum_of(es, ad::scalar(), n) is Some,
        value(ad::sum_of(es, ad::scalar(), n)->0, m) == sum_of_values(es, m, n),
    decreases n,
{
    reveal_with_fuel(sum_of_values, 2);
    reveal_with_fuel(ad::sum_of, 2);
    if n > 1 {
        lemma_sum(es, m, n - 1);
        lemma_bin(BinaryOp::Add, ad::sum_of(es, ad::scalar(), n - 1)->0, es[n - 1], m);
    }
}

/// Cells have a given mean position exactly where nothing is to be paid for it: the sum
/// of their positions is that many times the position.
pub proof fn centred_cells_match(
    xs: Seq<Expr>,
    ys: Seq<Expr>,
    center: (Single, Single),
    m: Meaning,
)
    requires
        xs.len() > 0,
        ys.len() == xs.len(),
    ensures
        value(ad::centroid(xs, ys, center, ad::scalar()), m) >= (0 as real),
        value(ad::centroid(xs, ys, center, ad::scalar()), m) == (0 as real) <==> (sum_of_values(
            xs,
            m,
            xs.len() as int,
        ) == (m.number)(Single::of_nat(xs.len()).mul_spec(center.0)) && sum_of_values(
            ys,
            m,
            ys.len() as int,
        ) == (m.number)(Single::of_nat(xs.len()).mul_spec(center.1))),
{
    let n = Single::of_nat(xs.len());
    let sx = ad::sum_of(xs, ad::scalar(), xs.len() as int)->0;
    let sy = ad::sum_of(ys, ad::scalar(), ys.len() as int)->0;
    lemma_sum(xs, m, xs.len() as int);
    lemma_sum(ys, m, ys.len() as int);
    lemma_number(n.mul_spec(center.0), m);
    lemma_number(n.mul_spec(center.1), m);
    let cx = ad::number(n.mul_spec(center.0), ad::scalar());
    let cy = ad::number(n.mul_spec(center.1), ad::scalar());
    let dx = ad::square_of_difference(sx, cx, ad::scalar());
    let dy = ad::square_of_difference(sy, cy, ad::scalar());
    lemma_square_of_difference(sx, cx, m);
    lemma_square_of_difference(sy, cy, m);
    lemma_bin(BinaryOp::Add, dx, dy, m);
}

/// Whether the first `n` cells of a row are at their places.
pub open spec fn in_place(
    es: Seq<Expr>,
    origin: Single,
    pitch: Single,
    m: Meaning,
    n: int,
) -> bool {
    forall|k: int|
        #![trigger es[k]]
        0 <= k < n ==> value(es[k], m) == (m.number)(ad::slot(origin, pitch, k))
}

/// Whether the first `n` cells of a row are level with the first one.
pub open spec fn level(es: Seq<Expr>, m: Meaning, n: int) -> bool {
    forall|k: int| #![trigger es[k]] 0 <= k < n ==> value(es[k], m) == value(es[0], m)
}

proof fn lemma_row_deviation(
    es: Seq<Expr>,
    origin: Single,
    pitch: Single,
    m: Meaning,
    n: int,
)
    requires
        0 < n <= es.len(),
    ensures
        ad::row_deviation(es, origin, pitch, ad::scalar(), n) is Some,
        value(ad::row_deviation(es, origin, pitch, ad::scalar(), n)->0, m) >= (0 as real),
        value(ad::row_deviation(es, origin, pitch, ad::scalar(), n)->0, m) == (0 as real)
            <==> in_place(es, origin, pitch, m, n),
    decreases n,
{
    reveal_with_fuel(ad::row_deviation, 2);
    let place = ad::slot(origin, pitch, n - 1);
    let d = ad::square_of_difference(es[n - 1], ad::number(place, ad::scalar()), ad::scalar());
    lemma_number(place, m);
    lemma_square_of_difference(es[n - 1], ad::number(place, ad::scalar()), m);
    if n > 1 {
        let before = ad::row_deviation(es, origin, pitch, ad::scalar(), n - 1)->0;
        lemma_row_deviation(es, origin, pitch, m, n - 1);
        lemma_bin(BinaryOp::Add, before, d, m);
    }
}

proof fn lemma_row_bend(acc: Expr, es: Seq<Expr>, m: Meaning, n: int)
    requires
        value(acc, m) >= (0 as real),
        0 < n <= es.len(),
    ensures
        ad::row_bend(Some(acc), es, ad::scalar(), n) is Some,
        value(ad::row_bend(Some(acc), es, ad::scalar(), n)->0, m) >= (0 as real),
        value(ad::row_bend(Some(acc), es, ad::scalar(), n)->0, m) == (0 as real) <==> (value(
            acc,
            m,
        ) == (0 as real) && level(es, m, n)),
    decreases n,
{
    if n > 1 {
        let before = ad::row_bend(Some(acc), es, ad::scalar(), n - 1)->0;
        let d = ad::square_of_difference(es[n - 1], es[0], ad::scalar());
        lemma_row_bend(acc, es, m, n - 1);
        lemma_square_of_difference(es[n - 1], es[0], m);
        lemma_bin(BinaryOp::Add, before, d, m);
    }
}

/// Cells stand in a row exactly where nothing is to be paid for it: each is at its place
/// along the row and level with the first one.
pub proof fn cells_in_a_row_match(
    lengthwise: Seq<Expr>,
    crosswise: Seq<Expr>,
    origin: Single,
    pitch: Single,
    m: Meaning,
)
    requires
        lengthwise.len() > 0,
        crosswise.len() == lengthwise.len(),
    ensures
        value(ad::row(lengthwise, crosswise, origin, pitch, ad::scalar()), m) >= (0 as real),
        value(ad::row(lengthwise, crosswise, origin, pitch, ad::scalar()), m) == (0 as real) <==> (
        in_place(lengthwise, origin, pitch, m, lengthwise.len() as int) && level(
            crosswise,
            m,
            crosswise.len() as int,
        )),
{
    let n = lengthwise.len() as int;
    lemma_row_deviation(lengthwise, origin, pitch, m, n);
    let off = ad::row_deviation(lengthwise, origin, pitch, ad::scalar(), n)->0;
    lemma_row_bend(off, crosswise, m, n);
}

/// The sum of the first `n` of some values.
pub open spec fn sum_of_reals(vs: Seq<real>, n: int) -> real
    decreases n,
{
    if n <= 0 {
        0 as real
    } else {
        sum_of_reals(vs, n - 1) + vs[n - 1]
    }
}

/// The values under some numbers, without the numbers that are too large.
pub open spec fn values_under(vs: Seq<real>, ids: Seq<usize>) -> Seq<real> {
    ids.filter(|i: usize| i < vs.len()).map_values(|i: usize| vs[i as int])
}

/// Whether the cells of a group match, by their horizontal and vertical positions. A
/// group of fewer than two cells does, and so does a cell that mirrors itself.
pub open spec fn group_matches(kind: MatchKind, xs: Seq<real>, ys: Seq<real>, m: Meaning) -> bool {
    let n = xs.len();
    match kind {
        MatchKind::Mirror { a, b, axis, axis_coord } => a >= n || b >= n || a == b || ({
            let twice = (m.number)((Single { bits: TWO_BITS }).mul_spec(axis_coord));
            let (i, j) = (a as int, b as int);
            match axis {
                SymmetryAxis::Vertical => xs[i] + xs[j] == twice && ys[i] == ys[j],
                SymmetryAxis::Horizontal => ys[i] + ys[j] == twice && xs[i] == xs[j],
            }
        }),
        MatchKind::CommonCentroid { instances, center } => {
            let us = values_under(xs, instances@);
            let vs = values_under(ys, instances@);
            let k = us.len();
            k < 2 || (sum_of_reals(us, k as int) == (m.number)(
                Single::of_nat(k).mul_spec(center.0),
            ) && sum_of_reals(vs, k as int) == (m.number)(Single::of_nat(k).mul_spec(center.1)))
        },
        MatchKind::Interdigitated { instances, axis, origin, pitch } => {
            let us = values_under(xs, instances@);
            let vs = values_under(ys, instances@);
            us.len() < 2 || (match axis {
                SymmetryAxis::Vertical => in_a_row(us, vs, origin, pitch, m),
                SymmetryAxis::Horizontal => in_a_row(vs, us, origin, pitch, m),
            })
        },
    }
}

/// Whether values in one direction are a pitch apart from an origin on, and those in the
/// other direction all the same.
pub open spec fn in_a_row(
    lengthwise: Seq<real>,
    crosswise: Seq<real>,
    origin: Single,
    pitch: Single,
    m: Meaning,
) -> bool {
    &&& forall|k: int|
        #![trigger lengthwise[k]]
        0 <= k < lengthwise.len() ==> lengthwise[k] == (m.number)(
            origin.add_spec(Single::of_nat(k as nat).mul_spec(pitch)),
        )
    &&& forall|k: int|
        #![trigger crosswise[k]]
        0 <= k < crosswise.len() ==> crosswise[k] == crosswise[0]
}

proof fn lemma_valid(ids: Seq<usize>, n: nat, k: int)
    requires
        0 <= k <= ids.len(),
    ensures
        ad::valid(ids, n, k) == ids.take(k).filter(|i: usize| i < n),
    decreases k,
{
    let f = |i: usize| i < n;
    reveal(Seq::filter);
    if k > 0 {
        lemma_valid(ids, n, k - 1);
        assert(ids.take(k).drop_last() =~= ids.take(k - 1));
        assert(ids.take(k).last() == ids[k - 1]);
    }
}

proof fn lemma_values_under(es: Seq<Expr>, ids: Seq<usize>, m: Meaning)
    ensures
        ({
            let ps = ad::picked(es, ad::valid(ids, es.len(), ids.len() as int));
            &&& ps.len() == ad::valid(ids, es.len(), ids.len() as int).len()
            &&& same_loss::values(ps, m) == values_under(same_loss::values(es, m), ids)
        }),
{
    let n = es.len();
    let vs = same_loss::values(es, m);
    lemma_valid(ids, n, ids.len() as int);
    assert(ids.take(ids.len() as int) =~= ids);
    assert((|i: usize| i < n) =~= (|i: usize| i < vs.len()));
    let f = |i: usize| i < n;
    let kept = ids.filter(f);
    lemma_kept(ids, f);
    assert forall|k: int| 0 <= k < kept.len() implies #[trigger] kept[k] < n by {
        assert(f(kept[k]));
    }
    assert(same_loss::values(ad::picked(es, kept), m) =~= kept.map_values(|i: usize| vs[i as int]));
}

proof fn lemma_kept(ids: Seq<usize>, f: spec_fn(usize) -> bool)
    ensures
        forall|k: int| 0 <= k < ids.filter(f).len() ==> f(#[trigger] ids.filter(f)[k]),
    decreases ids.len(),
{
    reveal(Seq::filter);
    if ids.len() > 0 {
        lemma_kept(ids.drop_last(), f);
    }
}

proof fn lemma_sum_of_reals(es: Seq<Expr>, m: Meaning, n: int)
    requires
        0 <= n <= es.len(),
    ensures
        sum_of_values(es, m, n) == sum_of_reals(same_loss::values(es, m), n),
    decreases n,
{
    if n > 0 {
        lemma_sum_of_reals(es, m, n - 1);
        assert(same_loss::values(es, m)[n - 1] == value(es[n - 1], m));
    }
}

proof fn lemma_in_a_row(
    lengthwise: Seq<Expr>,
    crosswise: Seq<Expr>,
    origin: Single,
    pitch: Single,
    m: Meaning,
)
    requires
        lengthwise.len() > 0,
        crosswise.len() == lengthwise.len(),
    ensures
        (in_place(lengthwise, origin, pitch, m, lengthwise.len() as int) && level(
            crosswise,
            m,
            crosswise.len() as int,
        )) == in_a_row(
            same_loss::values(lengthwise, m),
            same_loss::values(crosswise, m),
            origin,
            pitch,
            m,
        ),
{
    let us = same_loss::values(lengthwise, m);
    let vs = same_loss::values(crosswise, m);
    let n = lengthwise.len() as int;
    assert(forall|k: int| 0 <= k < n ==> #[trigger] us[k] == value(lengthwise[k], m));
    assert(forall|k: int| 0 <= k < n ==> #[trigger] vs[k] == value(crosswise[k], m));
    if in_a_row(us, vs, origin, pitch, m) {
        assert forall|k: int| #![trigger lengthwise[k]] 0 <= k < n implies value(lengthwise[k], m)
            == (m.number)(ad::slot(origin, pitch, k)) by {
            assert(us[k] == value(lengthwise[k], m));
        }
        assert forall|k: int| #![trigger crosswise[k]] 0 <= k < n implies value(crosswise[k], m)
            == value(crosswise[0], m) by {
            assert(vs[k] == value(crosswise[k], m));
            assert(vs[0] == value(crosswise[0], m));
        }
    }
    if in_place(lengthwise, origin, pitch, m, n) && level(crosswise, m, n) {
        assert forall|k: int| #![trigger us[k]] 0 <= k < n implies us[k] == (m.number)(
            origin.add_spec(Single::of_nat(k as nat).mul_spec(pitch)),
        ) by {
            assert(value(lengthwise[k], m) == (m.number)(ad::slot(origin, pitch, k)));
        }
        assert forall|k: int| #![trigger vs[k]] 0 <= k < n implies vs[k] == vs[0] by {
            assert(value(crosswise[k], m) == value(crosswise[0], m));
        }
    }
}

proof fn lemma_group(
    kind: MatchKind,
    xs: Seq<Expr>,
    ys: Seq<Expr>,
    m: Meaning,
)
    requires
        xs.len() == ys.len(),
    ensures
        match ad::mismatch(kind, xs, ys, ad::scalar()) {
            None => group_matches(kind, same_loss::values(xs, m), same_loss::values(ys, m), m),
            Some(e) => value(e, m) >= (0 as real) && (value(e, m) == (0 as real) <==> group_matches(
                kind,
                same_loss::values(xs, m),
                same_loss::values(ys, m),
                m,
            )),
        },
{
    let n = xs.len();
    match kind {
        MatchKind::Mirror { a, b, axis, axis_coord } => {
            if a < n && b < n && a != b {
                mirrored_cells_match(
                    (xs[a as int], ys[a as int]),
                    (xs[b as int], ys[b as int]),
                    axis,
                    axis_coord,
                    m,
                );
            }
        },
        MatchKind::CommonCentroid { instances, center } => {
            let ids = ad::valid(instances@, n, instances@.len() as int);
            lemma_values_under(xs, instances@, m);
            lemma_values_under(ys, instances@, m);
            if ids.len() >= 2 {
                let (us, vs) = (ad::picked(xs, ids), ad::picked(ys, ids));
                centred_cells_match(us, vs, center, m);
                lemma_sum_of_reals(us, m, us.len() as int);
                lemma_sum_of_reals(vs, m, vs.len() as int);
            }
        },
        MatchKind::Interdigitated { instances, axis, origin, pitch } => {
            let ids = ad::valid(instances@, n, instances@.len() as int);
            lemma_values_under(xs, instances@, m);
            lemma_values_under(ys, instances@, m);
            if ids.len() >= 2 {
                let es = ad::along_all(ad::picked(xs, ids), ad::picked(ys, ids), axis);
                cells_in_a_row_match(es.0, es.1, origin, pitch, m);
                lemma_in_a_row(es.0, es.1, origin, pitch, m);
            }
        },
    }
}

proof fn lemma_groups(
    groups: Seq<MatchGroup>,
    xs: Seq<Expr>,
    ys: Seq<Expr>,
    m: Meaning,
    n: int,
)
    requires
        xs.len() == ys.len(),
        0 <= n <= groups.len(),
        forall|i: int|
            0 <= i < groups.len() ==> (m.number)((#[trigger] groups[i]).weight) > (0 as real),
    ensures
        ({
            let all = forall|i: int|
                0 <= i < n ==> group_matches(
                    (#[trigger] groups[i]).kind,
                    same_loss::values(xs, m),
                    same_loss::values(ys, m),
                    m,
                );
            match ad::mismatches(groups, xs, ys, ad::scalar(), n) {
                None => all,
                Some(e) => value(e, m) >= (0 as real) && (value(e, m) == (0 as real) <==> all),
            }
        }),
    decreases n,
{
    if n > 0 {
        let g = groups[n - 1];
        let before = ad::mismatches(groups, xs, ys, ad::scalar(), n - 1);
        lemma_groups(groups, xs, ys, m, n - 1);
        lemma_group(g.kind, xs, ys, m);
        match ad::mismatch(g.kind, xs, ys, ad::scalar()) {
            None => {},
            Some(e) => {
                let w = ad::weighted(e, g.weight, ad::scalar());
                lemma_number(g.weight, m);
                lemma_bin(BinaryOp::Mul, e, ad::number(g.weight, ad::scalar()), m);
                lemma_scaled(value(e, m), (m.number)(g.weight));
                assert(value(w, m) >= (0 as real));
                assert(value(w, m) == (0 as real) <==> group_matches(
                    g.kind,
                    same_loss::values(xs, m),
                    same_loss::values(ys, m),
                    m,
                ));
                match before {
                    None => {},
                    Some(b) => {
                        lemma_bin(BinaryOp::Add, b, w, m);
                    },
                }
            },
        }
    }
}

proof fn lemma_scaled(x: real, w: real)
    requires
        x >= (0 as real),
        w > (0 as real),
    ensures
        x * w >= (0 as real),
        x * w == (0 as real) <==> x == (0 as real),
{
    assert(x * w >= (0 as real) && (x * w == (0 as real) <==> x == (0 as real)))
        by (nonlinear_arith)
        requires
            x >= (0 as real),
            w > (0 as real),
    ;
}

/// With positive weights, nothing is to be paid for matching exactly where the cells of
/// every group match, and never less than nothing.
pub proof fn matched_designs_cost_nothing(
    nl: Netlist,
    seed: ad::DifferentiablePlacement,
    m: Meaning,
)
    requires
        same_loss::plain_numbers(m),
        forall|i: int|
            0 <= i < nl.match_groups@.len() ==> (m.number)(
                (#[trigger] nl.match_groups@[i]).weight,
            ) > (0 as real),
    ensures
        ({
            let ps = ad::all_coordinates(nl, seed, false, nl.instances@.len());
            &&& value(ad::symmetry_loss(nl, seed), m) >= (0 as real)
            &&& value(ad::symmetry_loss(nl, seed), m) == (0 as real) <==> (forall|i: int|
                0 <= i < nl.match_groups@.len() ==> group_matches(
                    (#[trigger] nl.match_groups@[i]).kind,
                    same_loss::values(ad::firsts(ps), m),
                    same_loss::values(ad::seconds(ps), m),
                    m,
                ))
        }),
{
    let ps = ad::all_coordinates(nl, seed, false, nl.instances@.len());
    lemma_groups(
        nl.match_groups@,
        ad::firsts(ps),
        ad::seconds(ps),
        m,
        nl.match_groups@.len() as int,
    );
    lemma_number(Single { bits: 0 }, m);
}

/// What is paid for matching goes by where the cells are: nothing exactly where those of
/// every group match there. A cell is where its two parameters say, or, if it must not
/// move, where the placement has it.
pub proof fn designs_match_by_where_cells_are(
    nl: Netlist,
    seed: ad::DifferentiablePlacement,
    at: Seq<(real, real)>,
    m: Meaning,
)
    requires
        same_loss::plain_numbers(m),
        same_loss::are_at(nl, seed, at, m),
        forall|i: int|
            0 <= i < nl.match_groups@.len() ==> (m.number)(
                (#[trigger] nl.match_groups@[i]).weight,
            ) > (0 as real),
    ensures
        value(ad::symmetry_loss(nl, seed), m) >= (0 as real),
        value(ad::symmetry_loss(nl, seed), m) == (0 as real) <==> (forall|i: int|
            0 <= i < nl.match_groups@.len() ==> group_matches(
                (#[trigger] nl.match_groups@[i]).kind,
                at.map_values(|p: (real, real)| p.0),
                at.map_values(|p: (real, real)| p.1),
                m,
            )),
{
    let ps = ad::all_coordinates(nl, seed, false, nl.instances@.len());
    matched_designs_cost_nothing(nl, seed, m);
    same_loss::cells_are_where_given(nl, seed, at, m);
    assert(same_loss::values(ad::firsts(ps), m) =~= at.map_values(|p: (real, real)| p.0)) by {
        assert forall|i: int| 0 <= i < at.len() implies same_loss::values(ad::firsts(ps), m)[i]
            == at[i].0 by {
            assert(same_loss::places(ps, m)[i] == at[i]);
        }
    }
    assert(same_loss::values(ad::seconds(ps), m) =~= at.map_values(|p: (real, real)| p.1)) by {
        assert forall|i: int| 0 <= i < at.len() implies same_loss::values(ad::seconds(ps), m)[i]
            == at[i].1 by {
            assert(same_loss::places(ps, m)[i] == at[i]);
        }
    }
}

} // verus!
