//! What the losses of a placement come to in exact arithmetic, and that it is the same
//! whether cells are taken one by one, all together, or in many placements at once.

use crate::ad;
use crate::ad::{
    DifferentiablePlacement, DENSITY_BETA_INPUT, HPWL_BETA_INPUT, POSITIONS_X_PARAM,
    POSITIONS_Y_PARAM,
};
use crate::ad_batch;
use crate::ad_batch::GridModel;
use crate::ad_parallel;
use crate::graph;
use crate::graph::{Activation, BinaryOp, Expr};
use crate::layout::CellModel;
use crate::netlist;
use crate::netlist::{NetModel, Netlist, PinModel};
use crate::single::{Single, HALF_BITS, MINUS_ONE_BITS, ONE_BITS};
use crate::tensor;
use crate::tensor::{entry, total, Meaning};
use vstd::prelude::*;

verus! {

/// Whether the numbers zero, one half and one stand for themselves.
pub open spec fn plain_numbers(m: Meaning) -> bool {
    &&& (m.number)(Single { bits: 0 }) == 0 as real
    &&& (m.number)(Single { bits: ONE_BITS }) == 1 as real
    &&& 2 as real * (m.number)(Single { bits: HALF_BITS }) == 1 as real
}

/// The index of a single number.
pub open spec fn only() -> Seq<int> {
    seq![0int]
}

// ── the lengths of nets ────────────────────────────────────────────

/// The sum of the exponentials of some values times `b`.
pub open spec fn exp_total(xs: Seq<real>, b: real, m: Meaning) -> real {
    total(|i: int| (m.apply)(Activation::Exp, xs[i] * b), xs.len() as int)
}

/// A smooth stand-in for the distance from the least to the greatest of some values.
pub open spec fn span_value(xs: Seq<real>, beta: real, m: Meaning) -> real {
    let minus = (m.number)(Single { bits: MINUS_ONE_BITS });
    let inv = (m.number)(Single { bits: ONE_BITS }) / beta;
    (m.apply)(Activation::Log, exp_total(xs, beta, m)) * inv - (m.apply)(
        Activation::Log,
        exp_total(xs, beta * minus, m),
    ) * (inv * minus)
}

/// Where the pins of a net are, given where cells are.
pub open spec fn pin_xs(
    pins: Seq<PinModel>,
    cells: Seq<CellModel>,
    at: Seq<(real, real)>,
    m: Meaning,
) -> Seq<real> {
    Seq::new(
        pins.len(),
        |k: int|
            at[pins[k].instance as int].0 + (m.number)((ad::pin_offset(pins[k], cells)->0).0),
    )
}

pub open spec fn pin_ys(
    pins: Seq<PinModel>,
    cells: Seq<CellModel>,
    at: Seq<(real, real)>,
    m: Meaning,
) -> Seq<real> {
    Seq::new(
        pins.len(),
        |k: int|
            at[pins[k].instance as int].1 + (m.number)((ad::pin_offset(pins[k], cells)->0).1),
    )
}

/// The length of a net, with its weight.
pub open spec fn net_value(
    net: NetModel,
    cells: Seq<CellModel>,
    at: Seq<(real, real)>,
    beta: real,
    m: Meaning,
) -> real {
    let v = span_value(pin_xs(net.pins, cells, at, m), beta, m) + span_value(
        pin_ys(net.pins, cells, at, m),
        beta,
        m,
    );
    if ad::near_one(net.weight) {
        v
    } else {
        v * (m.number)(net.weight)
    }
}

/// The sum of the lengths of the first `n` nets. Nets of fewer than two pins, or with a
/// pin on no port, do not count.
pub open spec fn lengths_value(
    nets: Seq<NetModel>,
    cells: Seq<CellModel>,
    at: Seq<(real, real)>,
    beta: real,
    m: Meaning,
    n: int,
) -> real
    decreases n,
{
    if n <= 0 {
        0 as real
    } else if nets[n - 1].pins.len() < 2 || !ad::resolves(nets[n - 1].pins, cells) {
        lengths_value(nets, cells, at, beta, m, n - 1)
    } else {
        lengths_value(nets, cells, at, beta, m, n - 1) + net_value(
            nets[n - 1],
            cells,
            at,
            beta,
            m,
        )
    }
}

// ── the overlaps of cells ──────────────────────────────────────────

/// How far two cells overlap in one direction.
pub open spec fn overlap_value_1d(a: real, b: real, reach: Single, beta: real, m: Meaning) -> real {
    let d = a - b;
    let z = (m.number)(reach) - (m.apply)(
        Activation::Sqrt,
        d * d + (m.number)(Single { bits: ONE_BITS }),
    );
    z * (m.apply)(Activation::Sigmoid, z * beta)
}

/// The overlap of two cells.
pub open spec fn overlap_value(
    at: Seq<(real, real)>,
    hs: Seq<(Single, Single)>,
    beta: real,
    m: Meaning,
    i: int,
    j: int,
) -> real {
    overlap_value_1d(at[i].0, at[j].0, hs[i].0.add_spec(hs[j].0), beta, m) * overlap_value_1d(
        at[i].1,
        at[j].1,
        hs[i].1.add_spec(hs[j].1),
        beta,
        m,
    )
}

pub open spec fn overlap_of(
    at: Seq<(real, real)>,
    hs: Seq<(Single, Single)>,
    beta: real,
    m: Meaning,
) -> spec_fn(int, int) -> real {
    |i: int, j: int| overlap_value(at, hs, beta, m, i, j)
}

/// The loss of a placement: the lengths of its nets, and the overlaps of all pairs of
/// cells with a weight.
pub open spec fn loss_value(
    nl: Netlist,
    cells: Seq<CellModel>,
    at: Seq<(real, real)>,
    density_weight: Single,
    m: Meaning,
) -> real {
    lengths_value(
        netlist::net_models(nl.nets@),
        cells,
        at,
        (m.given)(HPWL_BETA_INPUT@, only()),
        m,
        nl.nets@.len() as int,
    ) + tensor::upper(
        overlap_of(at, ad::all_half_dims(cells), (m.given)(DENSITY_BETA_INPUT@, only()), m),
        cells.len() as int,
    ) * (m.number)(density_weight)
}

// ── single numbers ─────────────────────────────────────────────────

/// The value of a single number.
pub open spec fn value(e: Expr, m: Meaning) -> real {
    entry(e, only(), m)
}

pub open spec fn values(es: Seq<Expr>, m: Meaning) -> Seq<real> {
    es.map_values(|e: Expr| value(e, m))
}

/// The values of positions.
pub open spec fn places(ps: Seq<(Expr, Expr)>, m: Meaning) -> Seq<(real, real)> {
    ps.map_values(|p: (Expr, Expr)| (value(p.0, m), value(p.1, m)))
}

proof fn lemma_exp_sum(xs: Seq<Expr>, b: Expr, m: Meaning, n: int)
    requires
        0 < n <= xs.len(),
    ensures
        ad::exp_sum(xs, b, ad::scalar(), n) is Some,
        value(ad::exp_sum(xs, b, ad::scalar(), n)->0, m) == total(
            |i: int| (m.apply)(Activation::Exp, values(xs, m)[i] * value(b, m)),
            n,
        ),
    decreases n,
{
    let s = ad::scalar();
    let f = |i: int| (m.apply)(Activation::Exp, values(xs, m)[i] * value(b, m));
    let x = graph::bin(BinaryOp::Mul, xs[n - 1], b, s);
    let e = graph::act(Activation::Exp, x, s);
    tensor::lemma_bin(BinaryOp::Mul, xs[n - 1], b, s, only(), m);
    tensor::lemma_act(Activation::Exp, x, s, only(), m);
    assert(value(e, m) == f(n - 1));
    reveal_with_fuel(total, 2);
    reveal_with_fuel(ad::exp_sum, 2);
    if n > 1 {
        lemma_exp_sum(xs, b, m, n - 1);
        tensor::lemma_bin(BinaryOp::Add, ad::exp_sum(xs, b, s, n - 1)->0, e, s, only(), m);
    }
}

proof fn lemma_log_sum(xs: Seq<Expr>, b: Expr, k: Expr, m: Meaning)
    requires
        xs.len() > 0,
    ensures
        value(ad::log_sum(xs, b, k, ad::scalar()), m) == (m.apply)(
            Activation::Log,
            exp_total(values(xs, m), value(b, m), m),
        ) * value(k, m),
{
    let s = ad::scalar();
    let n = xs.len() as int;
    let e = ad::exp_sum(xs, b, s, n)->0;
    lemma_exp_sum(xs, b, m, n);
    tensor::lemma_act(Activation::Log, e, s, only(), m);
    tensor::lemma_bin(BinaryOp::Mul, graph::act(Activation::Log, e, s), k, s, only(), m);
}

proof fn lemma_span(xs: Seq<Expr>, beta: Expr, m: Meaning)
    requires
        xs.len() > 0,
    ensures
        value(ad::span(xs, beta, ad::scalar()), m) == span_value(
            values(xs, m),
            value(beta, m),
            m,
        ),
{
    let s = ad::scalar();
    let one = ad::number(Single { bits: ONE_BITS }, s);
    let minus = ad::number(Single { bits: MINUS_ONE_BITS }, s);
    let neg_beta = graph::bin(BinaryOp::Mul, beta, minus, s);
    let inv = graph::bin(BinaryOp::Div, one, beta, s);
    let neg_inv = graph::bin(BinaryOp::Mul, inv, minus, s);
    tensor::lemma_number(Single { bits: ONE_BITS }, m);
    tensor::lemma_number(Single { bits: MINUS_ONE_BITS }, m);
    tensor::lemma_bin(BinaryOp::Mul, beta, minus, s, only(), m);
    tensor::lemma_bin(BinaryOp::Div, one, beta, s, only(), m);
    tensor::lemma_bin(BinaryOp::Mul, inv, minus, s, only(), m);
    lemma_log_sum(xs, beta, inv, m);
    lemma_log_sum(xs, neg_beta, neg_inv, m);
    tensor::lemma_bin(
        BinaryOp::Sub,
        ad::log_sum(xs, beta, inv, s),
        ad::log_sum(xs, neg_beta, neg_inv, s),
        s,
        only(),
        m,
    );
}

proof fn lemma_pins(
    pins: Seq<PinModel>,
    cells: Seq<CellModel>,
    ps: Seq<(Expr, Expr)>,
    m: Meaning,
)
    requires
        ps.len() == cells.len(),
        ad::resolves(pins, cells),
    ensures
        values(ad::pins_x(pins, cells, ps, ad::scalar(), pins.len()), m) == pin_xs(
            pins,
            cells,
            places(ps, m),
            m,
        ),
        values(ad::pins_y(pins, cells, ps, ad::scalar(), pins.len()), m) == pin_ys(
            pins,
            cells,
            places(ps, m),
            m,
        ),
{
    let s = ad::scalar();
    let xs = ad::pins_x(pins, cells, ps, s, pins.len());
    let ys = ad::pins_y(pins, cells, ps, s, pins.len());
    assert forall|k: int| 0 <= k < pins.len() implies values(xs, m)[k] == pin_xs(
        pins,
        cells,
        places(ps, m),
        m,
    )[k] && values(ys, m)[k] == pin_ys(pins, cells, places(ps, m), m)[k] by {
        let pin = pins[k];
        assert(ad::pin_offset(pin, cells) is Some);
        let o = ad::pin_offset(pin, cells)->0;
        let p = ps[pin.instance as int];
        assert(places(ps, m)[pin.instance as int] == (value(p.0, m), value(p.1, m)));
        tensor::lemma_number(o.0, m);
        tensor::lemma_number(o.1, m);
        tensor::lemma_bin(BinaryOp::Add, p.0, ad::number(o.0, s), s, only(), m);
        tensor::lemma_bin(BinaryOp::Add, p.1, ad::number(o.1, s), s, only(), m);
    }
    assert(values(xs, m) =~= pin_xs(pins, cells, places(ps, m), m));
    assert(values(ys, m) =~= pin_ys(pins, cells, places(ps, m), m));
}

proof fn lemma_net(
    net: NetModel,
    cells: Seq<CellModel>,
    ps: Seq<(Expr, Expr)>,
    beta: Expr,
    m: Meaning,
)
    requires
        ps.len() == cells.len(),
        ad::resolves(net.pins, cells),
        net.pins.len() >= 2,
    ensures
        value(
            ad::weighted(
                ad::net_length(net.pins, cells, ps, beta, ad::scalar()),
                net.weight,
                ad::scalar(),
            ),
            m,
        ) == net_value(net, cells, places(ps, m), value(beta, m), m),
{
    let s = ad::scalar();
    let xs = ad::pins_x(net.pins, cells, ps, s, net.pins.len());
    let ys = ad::pins_y(net.pins, cells, ps, s, net.pins.len());
    let e = ad::net_length(net.pins, cells, ps, beta, s);
    lemma_pins(net.pins, cells, ps, m);
    lemma_span(xs, beta, m);
    lemma_span(ys, beta, m);
    tensor::lemma_bin(BinaryOp::Add, ad::span(xs, beta, s), ad::span(ys, beta, s), s, only(), m);
    tensor::lemma_number(net.weight, m);
    tensor::lemma_bin(BinaryOp::Mul, e, ad::number(net.weight, s), s, only(), m);
}

/// The value of a sum so far.
pub open spec fn sum_value(e: Option<Expr>, m: Meaning) -> real {
    match e {
        Some(x) => value(x, m),
        None => 0 as real,
    }
}

proof fn lemma_plus(acc: Option<Expr>, e: Expr, m: Meaning)
    ensures
        value(ad::plus(acc, e, ad::scalar()), m) == sum_value(acc, m) + value(e, m),
{
    match acc {
        Some(a) => {
            tensor::lemma_bin(BinaryOp::Add, a, e, ad::scalar(), only(), m);
        },
        None => {},
    }
}

proof fn lemma_lengths(
    nets: Seq<NetModel>,
    cells: Seq<CellModel>,
    ps: Seq<(Expr, Expr)>,
    beta: Expr,
    m: Meaning,
    n: int,
)
    requires
        ps.len() == cells.len(),
        n <= nets.len(),
    ensures
        sum_value(ad::lengths(nets, cells, ps, beta, ad::scalar(), true, n), m) == lengths_value(
            nets,
            cells,
            places(ps, m),
            value(beta, m),
            m,
            n,
        ),
    decreases n,
{
    if n > 0 {
        let s = ad::scalar();
        let net = nets[n - 1];
        lemma_lengths(nets, cells, ps, beta, m, n - 1);
        if net.pins.len() >= 2 && ad::resolves(net.pins, cells) {
            let e = ad::weighted(ad::net_length(net.pins, cells, ps, beta, s), net.weight, s);
            lemma_net(net, cells, ps, beta, m);
            lemma_plus(ad::lengths(nets, cells, ps, beta, s, true, n - 1), e, m);
        }
    }
}

proof fn lemma_or_zero(e: Option<Expr>, m: Meaning)
    requires
        plain_numbers(m),
    ensures
        value(ad::or_zero(e, ad::scalar()), m) == sum_value(e, m),
{
    tensor::lemma_number(Single { bits: 0 }, m);
}

// ── overlaps, one pair after the other ─────────────────────────────

proof fn lemma_overlap_1d(a: Expr, b: Expr, reach: Single, beta: Expr, m: Meaning)
    ensures
        value(ad::overlap_1d(a, b, reach, beta, ad::scalar()), m) == overlap_value_1d(
            value(a, m),
            value(b, m),
            reach,
            value(beta, m),
            m,
        ),
{
    let s = ad::scalar();
    let one = ad::number(Single { bits: ONE_BITS }, s);
    let d = graph::bin(BinaryOp::Sub, a, b, s);
    let dd = graph::bin(BinaryOp::Mul, d, d, s);
    let sum = graph::bin(BinaryOp::Add, dd, one, s);
    let dist = graph::act(Activation::Sqrt, sum, s);
    let z = graph::bin(BinaryOp::Sub, ad::number(reach, s), dist, s);
    let zb = graph::bin(BinaryOp::Mul, z, beta, s);
    let sig = graph::act(Activation::Sigmoid, zb, s);
    tensor::lemma_number(Single { bits: ONE_BITS }, m);
    tensor::lemma_number(reach, m);
    tensor::lemma_bin(BinaryOp::Sub, a, b, s, only(), m);
    tensor::lemma_bin(BinaryOp::Mul, d, d, s, only(), m);
    tensor::lemma_bin(BinaryOp::Add, dd, one, s, only(), m);
    tensor::lemma_act(Activation::Sqrt, sum, s, only(), m);
    tensor::lemma_bin(BinaryOp::Sub, ad::number(reach, s), dist, s, only(), m);
    tensor::lemma_bin(BinaryOp::Mul, z, beta, s, only(), m);
    tensor::lemma_act(Activation::Sigmoid, zb, s, only(), m);
    tensor::lemma_bin(BinaryOp::Mul, z, sig, s, only(), m);
}

proof fn lemma_overlap(
    ps: Seq<(Expr, Expr)>,
    hs: Seq<(Single, Single)>,
    beta: Expr,
    m: Meaning,
    i: int,
    j: int,
)
    requires
        0 <= i < ps.len(),
        0 <= j < ps.len(),
    ensures
        value(ad::overlap(ps, hs, beta, ad::scalar(), i, j), m) == overlap_value(
            places(ps, m),
            hs,
            value(beta, m),
            m,
            i,
            j,
        ),
{
    let s = ad::scalar();
    let wx = hs[i].0.add_spec(hs[j].0);
    let wy = hs[i].1.add_spec(hs[j].1);
    lemma_overlap_1d(ps[i].0, ps[j].0, wx, beta, m);
    lemma_overlap_1d(ps[i].1, ps[j].1, wy, beta, m);
    tensor::lemma_bin(
        BinaryOp::Mul,
        ad::overlap_1d(ps[i].0, ps[j].0, wx, beta, s),
        ad::overlap_1d(ps[i].1, ps[j].1, wy, beta, s),
        s,
        only(),
        m,
    );
    assert(places(ps, m)[i] == (value(ps[i].0, m), value(ps[i].1, m)));
    assert(places(ps, m)[j] == (value(ps[j].0, m), value(ps[j].1, m)));
}

/// A function of pairs without those in descending order.
pub open spec fn ascending(f: spec_fn(int, int) -> real, i: int, j: int) -> real {
    if i < j {
        f(i, j)
    } else {
        0 as real
    }
}

proof fn lemma_zeros(f: spec_fn(int) -> real, n: int)
    requires
        forall|i: int| 0 <= i < n ==> #[trigger] f(i) == 0 as real,
    ensures
        total(f, n) == 0 as real,
    decreases n,
{
    if n > 0 {
        lemma_zeros(f, n - 1);
        assert(f(n - 1) == 0 as real);
    }
}

proof fn lemma_row_overlaps(
    acc: Option<Expr>,
    ps: Seq<(Expr, Expr)>,
    hs: Seq<(Single, Single)>,
    beta: Expr,
    m: Meaning,
    i: int,
    j: int,
)
    requires
        0 <= i < ps.len(),
        0 <= j <= ps.len(),
    ensures
        sum_value(ad::row_overlaps(acc, ps, hs, beta, ad::scalar(), i, j), m) == sum_value(acc, m)
            + total(
            |k: int| ascending(overlap_of(places(ps, m), hs, value(beta, m), m), i, k),
            j,
        ),
    decreases j - i,
{
    let s = ad::scalar();
    let f = overlap_of(places(ps, m), hs, value(beta, m), m);
    let g = |k: int| ascending(f, i, k);
    if j <= i + 1 {
        lemma_zeros(g, j);
    } else {
        lemma_row_overlaps(acc, ps, hs, beta, m, i, j - 1);
        lemma_overlap(ps, hs, beta, m, i, j - 1);
        lemma_plus(
            ad::row_overlaps(acc, ps, hs, beta, s, i, j - 1),
            ad::overlap(ps, hs, beta, s, i, j - 1),
            m,
        );
        assert(g(j - 1) == f(i, j - 1));
    }
}

proof fn lemma_overlaps(
    ps: Seq<(Expr, Expr)>,
    hs: Seq<(Single, Single)>,
    beta: Expr,
    m: Meaning,
    i: int,
)
    requires
        0 <= i <= ps.len(),
    ensures
        sum_value(ad::overlaps(ps, hs, beta, ad::scalar(), ps.len() as int, i), m) == total(
            |r: int|
                total(
                    |k: int| ascending(overlap_of(places(ps, m), hs, value(beta, m), m), r, k),
                    ps.len() as int,
                ),
            i,
        ),
    decreases i,
{
    if i > 0 {
        let before = ad::overlaps(ps, hs, beta, ad::scalar(), ps.len() as int, i - 1);
        lemma_overlaps(ps, hs, beta, m, i - 1);
        lemma_row_overlaps(before, ps, hs, beta, m, i - 1, ps.len() as int);
    }
}

/// Adding up rows comes to the same as adding up columns.
proof fn lemma_rows(f: spec_fn(int, int) -> real, n: int)
    requires
        0 <= n,
    ensures
        total(|r: int| total(|k: int| ascending(f, r, k), n), n) == tensor::upper(f, n),
    decreases n,
{
    if n > 0 {
        lemma_rows(f, n - 1);
        let all = |r: int| total(|k: int| ascending(f, r, k), n);
        let less = |r: int| total(|k: int| ascending(f, r, k), n - 1);
        let last = |r: int| f(r, n - 1);
        assert forall|r: int| 0 <= r < n - 1 implies #[trigger] all(r) == less(r) + last(r) by {
            let row = |k: int| ascending(f, r, k);
            assert(total(row, n) == total(row, n - 1) + row(n - 1));
        }
        tensor::lemma_total_adds(all, less, last, n - 1);
        lemma_zeros(|k: int| ascending(f, n - 1, k), n);
    }
}

/// Whether cells are at given places: where their two parameters say, or, if they must
/// not move, where the placement has them, which is the origin if it has them nowhere.
pub open spec fn are_at(
    nl: Netlist,
    seed: DifferentiablePlacement,
    at: Seq<(real, real)>,
    m: Meaning,
) -> bool {
    &&& at.len() == nl.instances@.len()
    &&& forall|i: int|
        #![trigger at[i]]
        0 <= i < at.len() ==> {
            let inst = nl.instances@[i];
            let zero = Single { bits: 0 };
            let name = nl.name@ + "."@ + inst.name@;
            if !inst.fixed {
                at[i] == ((m.given)(name + ".x"@, only()), (m.given)(name + ".y"@, only()))
            } else if i < seed.instance_xy@.len() {
                at[i] == (
                    (m.number)(seed.instance_xy@[i].0),
                    (m.number)(seed.instance_xy@[i].1),
                )
            } else {
                at[i] == ((m.number)(zero), (m.number)(zero))
            }
        }
}

/// The coordinates of cells stand for where the cells are.
pub proof fn cells_are_where_given(
    nl: Netlist,
    seed: DifferentiablePlacement,
    at: Seq<(real, real)>,
    m: Meaning,
)
    requires
        are_at(nl, seed, at, m),
    ensures
        places(ad::all_coordinates(nl, seed, false, nl.instances@.len()), m) == at,
{
    let s = ad::scalar();
    let ps = ad::all_coordinates(nl, seed, false, nl.instances@.len());
    assert forall|i: int| 0 <= i < at.len() implies places(ps, m)[i] == at[i] by {
        let inst = nl.instances@[i];
        if !inst.fixed {
            tensor::lemma_given(ad::position_name(nl.name@, inst.name@, ".x"@), s, only(), m);
            tensor::lemma_given(ad::position_name(nl.name@, inst.name@, ".y"@), s, only(), m);
        } else {
            tensor::lemma_number(seed.xy(i).0, m);
            tensor::lemma_number(seed.xy(i).1, m);
        }
    }
    assert(places(ps, m) =~= at);
}

/// The loss of cells taken one by one, with what is to be paid for matching.
pub proof fn combined_loss_is(
    nl: Netlist,
    cells: Seq<CellModel>,
    seed: DifferentiablePlacement,
    density_weight: Single,
    symmetry_weight: Single,
    m: Meaning,
)
    requires
        plain_numbers(m),
        cells.len() == nl.instances@.len(),
    ensures
        value(ad::combined_loss(nl, cells, seed, density_weight, symmetry_weight), m)
            == loss_value(
            nl,
            cells,
            places(ad::all_coordinates(nl, seed, false, cells.len()), m),
            density_weight,
            m,
        ) + value(ad::symmetry_loss(nl, seed), m) * (m.number)(symmetry_weight),
{
    let s = ad::scalar();
    let ps = ad::all_coordinates(nl, seed, false, cells.len());
    let hs = ad::all_half_dims(cells);
    let n = cells.len() as int;
    let nets = netlist::net_models(nl.nets@);
    let hb = graph::given(HPWL_BETA_INPUT@, s);
    let db = graph::given(DENSITY_BETA_INPUT@, s);
    tensor::lemma_given(HPWL_BETA_INPUT@, s, only(), m);
    tensor::lemma_given(DENSITY_BETA_INPUT@, s, only(), m);
    lemma_lengths(nets, cells, ps, hb, m, nets.len() as int);
    lemma_or_zero(ad::lengths(nets, cells, ps, hb, s, true, nets.len() as int), m);
    lemma_overlaps(ps, hs, db, m, n);
    lemma_rows(overlap_of(places(ps, m), hs, value(db, m), m), n);
    lemma_or_zero(ad::overlaps(ps, hs, db, s, n, n), m);
    let a = ad::length_loss(nl, cells, seed);
    let b = ad::density_loss(nl, cells, seed);
    let c = ad::symmetry_loss(nl, seed);
    let bw = graph::bin(BinaryOp::Mul, b, ad::number(density_weight, s), s);
    let cw = graph::bin(BinaryOp::Mul, c, ad::number(symmetry_weight, s), s);
    tensor::lemma_number(density_weight, m);
    tensor::lemma_number(symmetry_weight, m);
    tensor::lemma_bin(BinaryOp::Mul, b, ad::number(density_weight, s), s, only(), m);
    tensor::lemma_bin(BinaryOp::Mul, c, ad::number(symmetry_weight, s), s, only(), m);
    tensor::lemma_bin(BinaryOp::Add, a, bw, s, only(), m);
    tensor::lemma_bin(BinaryOp::Add, graph::bin(BinaryOp::Add, a, bw, s), cw, s, only(), m);
}

// ── overlaps, all pairs at once ────────────────────────────────────

proof fn lemma_pair_table(h: Seq<Single>, n: int, i: int, j: int)
    requires
        0 <= i < n,
        0 <= j < h.len(),
    ensures
        ad_batch::pair_table(h, n).len() == n * h.len(),
        0 <= i * h.len() + j < n * h.len(),
        ad_batch::pair_table(h, n)[i * h.len() + j] == h[i].add_spec(h[j]),
    decreases n,
{
    let w = h.len() as int;
    let before = ad_batch::pair_table(h, n - 1);
    let row = Seq::new(h.len(), |k: int| h[n - 1].add_spec(h[k]));
    assert(n * w == (n - 1) * w + w) by (nonlinear_arith);
    lemma_pair_len(h, n - 1);
    assert(ad_batch::pair_table(h, n) == before + row);
    if i < n - 1 {
        lemma_pair_table(h, n - 1, i, j);
    } else {
        assert((before + row)[i * w + j] == row[j]);
    }
    assert(0 <= i * w) by (nonlinear_arith)
        requires
            0 <= i,
            0 <= w,
    ;
}

proof fn lemma_pair_len(h: Seq<Single>, n: int)
    requires
        0 <= n,
    ensures
        ad_batch::pair_table(h, n).len() == n * h.len(),
    decreases n,
{
    let w = h.len() as int;
    if n > 0 {
        lemma_pair_len(h, n - 1);
        assert(n * w == (n - 1) * w + w) by (nonlinear_arith);
    } else {
        assert(0 * w == 0);
    }
}

proof fn lemma_mask_len(w: nat, n: int)
    requires
        0 <= n,
    ensures
        ad_batch::mask_table(w, n).len() == n * w,
    decreases n,
{
    if n > 0 {
        lemma_mask_len(w, n - 1);
        assert(n * w == (n - 1) * w + w) by (nonlinear_arith);
    } else {
        assert(0 * w == 0);
    }
}

proof fn lemma_mask_table(w: nat, n: int, i: int, j: int)
    requires
        0 <= i < n,
        0 <= j < w,
    ensures
        ad_batch::mask_table(w, n).len() == n * w,
        0 <= i * w + j < n * w,
        ad_batch::mask_table(w, n)[i * w + j] == (if i == j {
            Single { bits: 0 }
        } else {
            Single { bits: ONE_BITS }
        }),
    decreases n,
{
    let before = ad_batch::mask_table(w, n - 1);
    let row = Seq::new(
        w,
        |k: int|
            if k == n - 1 {
                Single { bits: 0 }
            } else {
                Single { bits: ONE_BITS }
            },
    );
    assert(n * w == (n - 1) * w + w) by (nonlinear_arith);
    lemma_mask_len(w, n - 1);
    assert(ad_batch::mask_table(w, n) == before + row);
    if i < n - 1 {
        lemma_mask_table(w, n - 1, i, j);
    } else {
        assert((before + row)[i * w + j] == row[j]);
    }
    assert(0 <= i * w) by (nonlinear_arith)
        requires
            0 <= i,
            0 <= w,
    ;
}

/// What an entry of the overlaps in one direction comes to, given what it is made of.
proof fn lemma_grid_1d(
    p: Expr,
    reach: Expr,
    sharp: Expr,
    d: GridModel,
    ix: Seq<int>,
    m: Meaning,
    a: real,
    b: real,
    w: Single,
    beta: real,
)
    requires
        entry(graph::expand(graph::reshaped(p, d.column), d.full), ix, m) == a,
        entry(graph::expand(graph::reshaped(p, d.row), d.full), ix, m) == b,
        entry(reach, ix, m) == (m.number)(w),
        entry(sharp, ix, m) == beta,
        entry(ad::numbers(ad_batch::ones(d.count), d.full), ix, m) == (m.number)(
            Single { bits: ONE_BITS },
        ),
    ensures
        entry(ad_batch::grid_overlap_1d(p, reach, sharp, d), ix, m) == overlap_value_1d(
            a,
            b,
            w,
            beta,
            m,
        ),
{
    let s = d.full;
    let ones = ad::numbers(ad_batch::ones(d.count), s);
    let diff = ad_batch::differences(p, d);
    let dd = graph::bin(BinaryOp::Mul, diff, diff, s);
    let sum = graph::bin(BinaryOp::Add, dd, ones, s);
    let dist = graph::act(Activation::Sqrt, sum, s);
    let z = graph::bin(BinaryOp::Sub, reach, dist, s);
    let zb = graph::bin(BinaryOp::Mul, z, sharp, s);
    let sig = graph::act(Activation::Sigmoid, zb, s);
    tensor::lemma_bin(
        BinaryOp::Sub,
        graph::expand(graph::reshaped(p, d.column), s),
        graph::expand(graph::reshaped(p, d.row), s),
        s,
        ix,
        m,
    );
    tensor::lemma_bin(BinaryOp::Mul, diff, diff, s, ix, m);
    tensor::lemma_bin(BinaryOp::Add, dd, ones, s, ix, m);
    tensor::lemma_act(Activation::Sqrt, sum, s, ix, m);
    tensor::lemma_bin(BinaryOp::Sub, reach, dist, s, ix, m);
    tensor::lemma_bin(BinaryOp::Mul, z, sharp, s, ix, m);
    tensor::lemma_act(Activation::Sigmoid, zb, s, ix, m);
    tensor::lemma_bin(BinaryOp::Mul, z, sig, s, ix, m);
}

/// The pairs of a placement: overlaps off the diagonal, nothing on it.
proof fn lemma_grid(
    px: Expr,
    py: Expr,
    w: Expr,
    h: Expr,
    mask: Expr,
    beta: Expr,
    d: GridModel,
    ix: Seq<int>,
    m: Meaning,
    at: Seq<(real, real)>,
    hs: Seq<(Single, Single)>,
    i: int,
    j: int,
)
    requires
        plain_numbers(m),
        entry(graph::expand(graph::reshaped(px, d.column), d.full), ix, m) == at[i].0,
        entry(graph::expand(graph::reshaped(px, d.row), d.full), ix, m) == at[j].0,
        entry(graph::expand(graph::reshaped(py, d.column), d.full), ix, m) == at[i].1,
        entry(graph::expand(graph::reshaped(py, d.row), d.full), ix, m) == at[j].1,
        entry(w, ix, m) == (m.number)(hs[i].0.add_spec(hs[j].0)),
        entry(h, ix, m) == (m.number)(hs[i].1.add_spec(hs[j].1)),
        entry(mask, ix, m) == (m.number)(
            if i == j {
                Single { bits: 0 }
            } else {
                Single { bits: ONE_BITS }
            },
        ),
        entry(graph::expand(beta, d.full), ix, m) == value(beta, m),
        entry(ad::numbers(ad_batch::ones(d.count), d.full), ix, m) == (m.number)(
            Single { bits: ONE_BITS },
        ),
    ensures
        entry(ad_batch::grid_overlaps(px, py, w, h, mask, beta, d), ix, m)
            == tensor::off_diagonal(overlap_of(at, hs, value(beta, m), m), i, j),
{
    let sharp = graph::expand(beta, d.full);
    let wx = hs[i].0.add_spec(hs[j].0);
    let wy = hs[i].1.add_spec(hs[j].1);
    let be = value(beta, m);
    let ox = ad_batch::grid_overlap_1d(px, w, sharp, d);
    let oy = ad_batch::grid_overlap_1d(py, h, sharp, d);
    lemma_grid_1d(px, w, sharp, d, ix, m, at[i].0, at[j].0, wx, be);
    lemma_grid_1d(py, h, sharp, d, ix, m, at[i].1, at[j].1, wy, be);
    tensor::lemma_bin(BinaryOp::Mul, ox, oy, d.full, ix, m);
    tensor::lemma_bin(
        BinaryOp::Mul,
        graph::bin(BinaryOp::Mul, ox, oy, d.full),
        mask,
        d.full,
        ix,
        m,
    );
    let f = overlap_of(at, hs, be, m);
    assert(f(i, j) == overlap_value(at, hs, be, m, i, j));
    assert(f(i, j) * (1 as real) == f(i, j));
    assert(f(i, j) * (0 as real) == 0 as real);
}

proof fn lemma_sums_commute(a: Single, b: Single)
    ensures
        a.add_spec(b) == b.add_spec(a),
{
}

proof fn lemma_symmetric(
    at: Seq<(real, real)>,
    hs: Seq<(Single, Single)>,
    beta: real,
    m: Meaning,
)
    ensures
        forall|i: int, j: int| #[trigger]
            overlap_of(at, hs, beta, m)(i, j) == overlap_of(at, hs, beta, m)(j, i),
{
    let f = overlap_of(at, hs, beta, m);
    assert forall|i: int, j: int| #[trigger] f(i, j) == f(j, i) by {
        lemma_sums_commute(hs[i].0, hs[j].0);
        lemma_sums_commute(hs[i].1, hs[j].1);
        lemma_square_of_distance(at[i].0, at[j].0);
        lemma_square_of_distance(at[i].1, at[j].1);
    }
}

proof fn lemma_square_of_distance(a: real, b: real)
    ensures
        (a - b) * (a - b) == (b - a) * (b - a),
{
    assert((a - b) * (a - b) == (b - a) * (b - a)) by (nonlinear_arith);
}

proof fn lemma_halved(u: real, h: real)
    requires
        2 as real * h == 1 as real,
    ensures
        (2 as real * u) * h == u,
{
    assert((2 as real * u) * h == u) by (nonlinear_arith)
        requires
            2 as real * h == 1 as real,
    ;
}

// ── cells all together ─────────────────────────────────────────────

/// Where `n` cells are, given the positions of all of them.
pub open spec fn places_in(px: Expr, py: Expr, n: nat, m: Meaning) -> Seq<(real, real)> {
    Seq::new(n, |i: int| (entry(px, seq![i], m), entry(py, seq![i], m)))
}

proof fn lemma_spread(p: Expr, n: usize, i: int, j: int, m: Meaning)
    requires
        p.dims == seq![n],
        n >= 2,
        0 <= i < n,
        0 <= j < n,
    ensures
        entry(
            graph::expand(graph::reshaped(p, seq![n, 1usize]), seq![n, n]),
            seq![i, j],
            m,
        ) == entry(p, seq![i], m),
        entry(
            graph::expand(graph::reshaped(p, seq![1usize, n]), seq![n, n]),
            seq![i, j],
            m,
        ) == entry(p, seq![j], m),
{
    let col = graph::reshaped(p, seq![n, 1usize]);
    let row = graph::reshaped(p, seq![1usize, n]);
    tensor::lemma_expand(col, seq![n, n], seq![i, j], m);
    tensor::lemma_expand(row, seq![n, n], seq![i, j], m);
    assert(tensor::source(col.dims, seq![i, j]) =~= seq![i, 0int]);
    assert(tensor::source(row.dims, seq![i, j]) =~= seq![0int, j]);
    tensor::lemma_reshaped(p, seq![n, 1usize], seq![i, 0int], m);
    tensor::lemma_reshaped(p, seq![1usize, n], seq![0int, j], m);
    tensor::lemma_place2(n, 1, i, 0);
    tensor::lemma_place2(1, n, 0, j);
    tensor::lemma_index1(n, i);
    tensor::lemma_index1(n, j);
}

proof fn lemma_repeat(e: Expr, s: Seq<usize>, ix: Seq<int>, m: Meaning)
    requires
        e.dims == ad::scalar(),
    ensures
        entry(graph::expand(e, s), ix, m) == value(e, m),
{
    tensor::lemma_expand(e, s, ix, m);
    assert(tensor::source(e.dims, ix) =~= only());
}

proof fn lemma_pairs_together(
    px: Expr,
    py: Expr,
    hs: Seq<(Single, Single)>,
    beta: Expr,
    m: Meaning,
    n: usize,
    i: int,
    j: int,
)
    requires
        plain_numbers(m),
        px.dims == seq![n],
        py.dims == seq![n],
        beta.dims == ad::scalar(),
        hs.len() == n,
        2 <= n,
        n * n <= usize::MAX,
        0 <= i < n,
        0 <= j < n,
    ensures
        entry(
            ad_batch::grid_overlaps(
                px,
                py,
                ad::numbers(ad_batch::pair_table(ad_batch::half_widths(hs), n as int), seq![n, n]),
                ad::numbers(ad_batch::pair_table(ad_batch::half_heights(hs), n as int), seq![n, n]),
                ad::numbers(ad_batch::mask_table(n as nat, n as int), seq![n, n]),
                beta,
                GridModel {
                    full: seq![n, n],
                    column: seq![n, 1usize],
                    row: seq![1usize, n],
                    count: (n * n) as nat,
                },
            ),
            seq![i, j],
            m,
        ) == tensor::off_diagonal(
            overlap_of(places_in(px, py, n as nat, m), hs, value(beta, m), m),
            i,
            j,
        ),
{
    let full = seq![n, n];
    let ix = seq![i, j];
    let d = GridModel {
        full,
        column: seq![n, 1usize],
        row: seq![1usize, n],
        count: (n * n) as nat,
    };
    let ws = ad_batch::half_widths(hs);
    let hts = ad_batch::half_heights(hs);
    let tw = ad_batch::pair_table(ws, n as int);
    let th = ad_batch::pair_table(hts, n as int);
    let tm = ad_batch::mask_table(n as nat, n as int);
    let at = places_in(px, py, n as nat, m);
    lemma_spread(px, n, i, j, m);
    lemma_spread(py, n, i, j, m);
    lemma_repeat(beta, full, ix, m);
    tensor::lemma_place2(n, n, i, j);
    lemma_pair_table(ws, n as int, i, j);
    lemma_pair_table(hts, n as int, i, j);
    lemma_mask_table(n as nat, n as int, i, j);
    tensor::lemma_numbers(tw, full, ix, m);
    tensor::lemma_numbers(th, full, ix, m);
    tensor::lemma_numbers(tm, full, ix, m);
    tensor::lemma_numbers(ad_batch::ones(d.count), full, ix, m);
    lemma_grid(
        px,
        py,
        ad::numbers(tw, full),
        ad::numbers(th, full),
        ad::numbers(tm, full),
        beta,
        d,
        ix,
        m,
        at,
        hs,
        i,
        j,
    );
}

proof fn lemma_overlaps_of_all(
    px: Expr,
    py: Expr,
    hs: Seq<(Single, Single)>,
    beta: Expr,
    m: Meaning,
    n: usize,
)
    requires
        plain_numbers(m),
        px.dims == seq![n],
        py.dims == seq![n],
        beta.dims == ad::scalar(),
        hs.len() == n,
        n * n <= usize::MAX,
    ensures
        value(ad_batch::overlaps_of_all(px, py, hs, beta), m) == tensor::upper(
            overlap_of(places_in(px, py, n as nat, m), hs, value(beta, m), m),
            n as int,
        ),
{
    let s = ad::scalar();
    let f = overlap_of(places_in(px, py, n as nat, m), hs, value(beta, m), m);
    if n < 2 {
        tensor::lemma_number(Single { bits: 0 }, m);
        reveal_with_fuel(tensor::upper, 3);
        reveal_with_fuel(total, 2);
    } else {
        let full = seq![n, n];
        let d = GridModel {
            full,
            column: seq![n, 1usize],
            row: seq![1usize, n],
            count: (n * n) as nat,
        };
        let g = ad_batch::grid_overlaps(
            px,
            py,
            ad::numbers(ad_batch::pair_table(ad_batch::half_widths(hs), n as int), full),
            ad::numbers(ad_batch::pair_table(ad_batch::half_heights(hs), n as int), full),
            ad::numbers(ad_batch::mask_table(n as nat, n as int), full),
            beta,
            d,
        );
        let sum = graph::summed(g, seq![0usize, 1usize], s);
        let start = Seq::<int>::empty();
        tensor::lemma_summed(g, seq![0usize, 1usize], s, only(), m);
        assert(only().take(0) =~= start);
        tensor::lemma_sum_grid(g, start, m);
        let rows = |i: int| total(|j: int| entry(g, start.push(i).push(j), m), n as int);
        let offs = |i: int| total(|j: int| tensor::off_diagonal(f, i, j), n as int);
        assert forall|i: int| 0 <= i < n implies #[trigger] rows(i) == offs(i) by {
            let a = |j: int| entry(g, start.push(i).push(j), m);
            let b = |j: int| tensor::off_diagonal(f, i, j);
            assert forall|j: int| 0 <= j < n implies #[trigger] a(j) == b(j) by {
                assert(start.push(i).push(j) =~= seq![i, j]);
                lemma_pairs_together(px, py, hs, beta, m, n, i, j);
            }
            tensor::lemma_total_same(a, b, n as int);
        }
        tensor::lemma_total_same(rows, offs, n as int);
        lemma_symmetric(places_in(px, py, n as nat, m), hs, value(beta, m), m);
        tensor::lemma_both_halves(f, n as int);
        tensor::lemma_number(Single { bits: HALF_BITS }, m);
        tensor::lemma_bin(
            BinaryOp::Mul,
            sum,
            ad::number(Single { bits: HALF_BITS }, s),
            s,
            only(),
            m,
        );
        lemma_halved(tensor::upper(f, n as int), (m.number)(Single { bits: HALF_BITS }));
    }
}

/// The loss of cells taken all together.
pub proof fn batched_loss_is(
    nl: Netlist,
    cells: Seq<CellModel>,
    seed: DifferentiablePlacement,
    density_weight: Single,
    m: Meaning,
)
    requires
        plain_numbers(m),
        cells.len() == nl.instances@.len(),
        cells.len() * cells.len() <= usize::MAX,
        cells.len() <= usize::MAX,
    ensures
        value(ad_batch::batched_loss(nl, cells, seed, density_weight), m) == loss_value(
            nl,
            cells,
            places_in(
                ad_batch::all_positions(nl, seed).0,
                ad_batch::all_positions(nl, seed).1,
                cells.len(),
                m,
            ),
            density_weight,
            m,
        ),
{
    let s = ad::scalar();
    let n = cells.len();
    let (px, py) = ad_batch::all_positions(nl, seed);
    let ps = Seq::new(
        n,
        |i: int| (graph::narrow(0, i as usize, 1, px, s), graph::narrow(0, i as usize, 1, py, s)),
    );
    let at = places_in(px, py, n, m);
    assert forall|i: int| 0 <= i < n implies places(ps, m)[i] == at[i] by {
        tensor::lemma_narrow(0, i as usize, px, s, only(), m);
        tensor::lemma_narrow(0, i as usize, py, s, only(), m);
        assert(only().update(0, only()[0] + (i as usize)) =~= seq![i]);
    }
    assert(places(ps, m) =~= at);
    let nets = netlist::net_models(nl.nets@);
    let hs = ad::all_half_dims(cells);
    let hb = graph::given(HPWL_BETA_INPUT@, s);
    let db = graph::given(DENSITY_BETA_INPUT@, s);
    tensor::lemma_given(HPWL_BETA_INPUT@, s, only(), m);
    tensor::lemma_given(DENSITY_BETA_INPUT@, s, only(), m);
    lemma_lengths(nets, cells, ps, hb, m, nets.len() as int);
    lemma_or_zero(ad::lengths(nets, cells, ps, hb, s, true, nets.len() as int), m);
    lemma_overlaps_of_all(px, py, hs, db, m, n as usize);
    let a = ad::or_zero(ad::lengths(nets, cells, ps, hb, s, true, nets.len() as int), s);
    let b = ad_batch::overlaps_of_all(px, py, hs, db);
    tensor::lemma_number(density_weight, m);
    tensor::lemma_bin(BinaryOp::Mul, b, ad::number(density_weight, s), s, only(), m);
    tensor::lemma_bin(
        BinaryOp::Add,
        a,
        graph::bin(BinaryOp::Mul, b, ad::number(density_weight, s), s),
        s,
        only(),
        m,
    );
}

// ── one by one and all together ────────────────────────────────────

/// Whether each cell that can move has the same position in both: under its own names,
/// and among the positions of all that can move.
pub open spec fn same_positions(nl: Netlist, m: Meaning) -> bool {
    forall|i: int|
        0 <= i < nl.instances@.len() && !(#[trigger] nl.instances@[i]).fixed ==> {
            let k = seq![ad_batch::movable(nl, i) as int];
            let name = nl.instances@[i].name@;
            &&& (m.given)(ad::position_name(nl.name@, name, ".x"@), only()) == (m.given)(
                POSITIONS_X_PARAM@,
                k,
            )
            &&& (m.given)(ad::position_name(nl.name@, name, ".y"@), only()) == (m.given)(
                POSITIONS_Y_PARAM@,
                k,
            )
        }
}

proof fn lemma_movable_bound(nl: Netlist, i: int)
    requires
        0 <= i <= nl.instances@.len(),
    ensures
        ad_batch::movable(nl, i) <= i,
    decreases i,
{
    if i > 0 {
        lemma_movable_bound(nl, i - 1);
    }
}

proof fn lemma_all_movable(nl: Netlist, i: int, n: int)
    requires
        0 <= i <= n <= nl.instances@.len(),
        ad_batch::movable(nl, n) == n,
    ensures
        ad_batch::movable(nl, i) == i,
        i < n ==> !nl.instances@[i].fixed,
    decreases n,
{
    if i < n {
        lemma_movable_bound(nl, n - 1);
        lemma_all_movable(nl, i, n - 1);
    }
}

proof fn lemma_positions(nl: Netlist, seed: DifferentiablePlacement, m: Meaning, i: int)
    requires
        same_positions(nl, m),
        nl.instances@.len() <= usize::MAX,
        0 <= i < nl.instances@.len(),
    ensures
        value(ad::coordinates(nl, seed, false, i).0, m) == entry(
            ad_batch::all_positions(nl, seed).0,
            seq![i],
            m,
        ),
        value(ad::coordinates(nl, seed, false, i).1, m) == entry(
            ad_batch::all_positions(nl, seed).1,
            seq![i],
            m,
        ),
{
    let s = ad::scalar();
    let n = nl.instances@.len();
    let k = ad_batch::movable(nl, n as int);
    let dims = seq![k as usize];
    let px = graph::parameter(POSITIONS_X_PARAM@, dims);
    let py = graph::parameter(POSITIONS_Y_PARAM@, dims);
    let name = nl.instances@[i].name@;
    let c = ad::coordinates(nl, seed, false, i);
    tensor::lemma_given(ad::position_name(nl.name@, name, ".x"@), s, only(), m);
    tensor::lemma_given(ad::position_name(nl.name@, name, ".y"@), s, only(), m);
    let here = seq![ad_batch::movable(nl, i) as int];
    tensor::lemma_given(POSITIONS_X_PARAM@, dims, here, m);
    tensor::lemma_given(POSITIONS_Y_PARAM@, dims, here, m);
    if k == n {
        lemma_all_movable(nl, i, n as int);
    } else {
        let xs = Seq::new(n, |j: int| ad_batch::piece(nl, seed.xy(j).0, px, j));
        let ys = Seq::new(n, |j: int| ad_batch::piece(nl, seed.xy(j).1, py, j));
        tensor::lemma_joined(xs, 0, seq![n as usize], seq![i], m);
        tensor::lemma_joined(ys, 0, seq![n as usize], seq![i], m);
        assert(seq![i].update(0, 0) =~= only());
        if !nl.instances@[i].fixed {
            let q = ad_batch::movable(nl, i) as usize;
            lemma_movable_bound(nl, i);
            tensor::lemma_narrow(0, q, px, s, only(), m);
            tensor::lemma_narrow(0, q, py, s, only(), m);
            assert(only().update(0, only()[0] + q) =~= here);
        }
    }
}

/// The loss is the same whether cells are taken one by one or all together: what is left
/// is what is to be paid for matching.
pub proof fn batched_loss_is_the_same(
    nl: Netlist,
    cells: Seq<CellModel>,
    seed: DifferentiablePlacement,
    density_weight: Single,
    symmetry_weight: Single,
    m: Meaning,
)
    requires
        plain_numbers(m),
        same_positions(nl, m),
        cells.len() == nl.instances@.len(),
        cells.len() * cells.len() <= usize::MAX,
        cells.len() <= usize::MAX,
    ensures
        value(ad::combined_loss(nl, cells, seed, density_weight, symmetry_weight), m) == value(
            ad_batch::batched_loss(nl, cells, seed, density_weight),
            m,
        ) + value(ad::symmetry_loss(nl, seed), m) * (m.number)(symmetry_weight),
{
    let n = cells.len();
    let ps = ad::all_coordinates(nl, seed, false, n);
    let (px, py) = ad_batch::all_positions(nl, seed);
    combined_loss_is(nl, cells, seed, density_weight, symmetry_weight, m);
    batched_loss_is(nl, cells, seed, density_weight, m);
    assert forall|i: int| 0 <= i < n implies places(ps, m)[i] == places_in(px, py, n, m)[i] by {
        lemma_positions(nl, seed, m, i);
    }
    assert(places(ps, m) =~= places_in(px, py, n, m));
}

// ── many placements at once ────────────────────────────────────────

/// The values of some columns of single entries in one placement.
pub open spec fn columns(es: Seq<Expr>, p: int, m: Meaning) -> Seq<real> {
    es.map_values(|e: Expr| entry(e, seq![p, 0int], m))
}

proof fn lemma_for_each(v: Single, b: usize, p: int, m: Meaning)
    ensures
        entry(ad_parallel::for_each(v, b), seq![p], m) == (m.number)(v),
{
    lemma_repeat(ad::number(v, ad::scalar()), seq![b], seq![p], m);
    tensor::lemma_number(v, m);
}

proof fn lemma_pin_in_each(e: Expr, i: usize, offset: Single, b: usize, p: int, m: Meaning)
    ensures
        entry(ad_parallel::pin_in_each(e, i, offset, b), seq![p, 0int], m) == entry(
            e,
            seq![p, i as int],
            m,
        ) + (m.number)(offset),
{
    let d = seq![b, 1usize];
    let ix = seq![p, 0int];
    let unit = seq![1usize, 1usize];
    let k = ad::number(offset, ad::scalar());
    let flat = graph::reshaped(k, unit);
    tensor::lemma_narrow(1, i, e, d, ix, m);
    assert(ix.update(1, ix[1] + i) =~= seq![p, i as int]);
    tensor::lemma_expand(flat, d, ix, m);
    assert(tensor::source(flat.dims, ix) =~= seq![0int, 0int]);
    tensor::lemma_reshaped(k, unit, seq![0int, 0int], m);
    tensor::lemma_place2(1, 1, 0, 0);
    tensor::lemma_index1(1, 0);
    tensor::lemma_number(offset, m);
    tensor::lemma_bin(
        BinaryOp::Add,
        graph::narrow(1, i, 1, e, d),
        graph::expand(flat, d),
        d,
        ix,
        m,
    );
}

proof fn lemma_row_log_sum(
    es: Seq<Expr>,
    beta: Expr,
    factor: Expr,
    b: usize,
    k: usize,
    p: int,
    m: Meaning,
)
    requires
        es.len() == k,
        beta.dims == ad::scalar(),
        factor.dims == ad::scalar(),
    ensures
        entry(
            ad_parallel::row_log_sum(graph::joined(es, 1, seq![b, k]), beta, factor, b, k),
            seq![p],
            m,
        ) == (m.apply)(Activation::Log, exp_total(columns(es, p, m), value(beta, m), m)) * value(
            factor,
            m,
        ),
{
    let bk = seq![b, k];
    let sb = seq![b];
    let xs = graph::joined(es, 1, bk);
    let wide = graph::expand(beta, bk);
    let bx = graph::bin(BinaryOp::Mul, xs, wide, bk);
    let ex = graph::act(Activation::Exp, bx, bk);
    let sum = graph::summed(ex, seq![1usize], sb);
    let lse = graph::act(Activation::Log, sum, sb);
    tensor::lemma_summed(ex, seq![1usize], sb, seq![p], m);
    assert(seq![p].take(1) =~= seq![p]);
    tensor::lemma_sum_row(ex, seq![p], m);
    let f = |j: int| entry(ex, seq![p].push(j), m);
    let g = |j: int| (m.apply)(Activation::Exp, columns(es, p, m)[j] * value(beta, m));
    assert forall|j: int| 0 <= j < k implies #[trigger] f(j) == g(j) by {
        let ix = seq![p, j];
        assert(seq![p].push(j) =~= ix);
        tensor::lemma_joined(es, 1, bk, ix, m);
        assert(ix.update(1, 0) =~= seq![p, 0int]);
        lemma_repeat(beta, bk, ix, m);
        tensor::lemma_bin(BinaryOp::Mul, xs, wide, bk, ix, m);
        tensor::lemma_act(Activation::Exp, bx, bk, ix, m);
    }
    tensor::lemma_total_same(f, g, k as int);
    tensor::lemma_act(Activation::Log, sum, sb, seq![p], m);
    lemma_repeat(factor, sb, seq![p], m);
    tensor::lemma_bin(BinaryOp::Mul, lse, graph::expand(factor, sb), sb, seq![p], m);
}

proof fn lemma_row_span(es: Seq<Expr>, beta: Expr, b: usize, k: usize, p: int, m: Meaning)
    requires
        es.len() == k,
        beta.dims == ad::scalar(),
    ensures
        entry(
            ad_parallel::row_span(graph::joined(es, 1, seq![b, k]), beta, b, k),
            seq![p],
            m,
        ) == span_value(columns(es, p, m), value(beta, m), m),
{
    let s = ad::scalar();
    let xs = graph::joined(es, 1, seq![b, k]);
    let one = ad::number(Single { bits: ONE_BITS }, s);
    let minus = ad::number(Single { bits: MINUS_ONE_BITS }, s);
    let inv = graph::bin(BinaryOp::Div, one, beta, s);
    let neg_beta = graph::bin(BinaryOp::Mul, beta, minus, s);
    let neg_inv = graph::bin(BinaryOp::Mul, inv, minus, s);
    tensor::lemma_number(Single { bits: ONE_BITS }, m);
    tensor::lemma_number(Single { bits: MINUS_ONE_BITS }, m);
    tensor::lemma_bin(BinaryOp::Div, one, beta, s, only(), m);
    tensor::lemma_bin(BinaryOp::Mul, beta, minus, s, only(), m);
    tensor::lemma_bin(BinaryOp::Mul, inv, minus, s, only(), m);
    lemma_row_log_sum(es, beta, inv, b, k, p, m);
    lemma_row_log_sum(es, neg_beta, neg_inv, b, k, p, m);
    tensor::lemma_bin(
        BinaryOp::Sub,
        ad_parallel::row_log_sum(xs, beta, inv, b, k),
        ad_parallel::row_log_sum(xs, neg_beta, neg_inv, b, k),
        seq![b],
        seq![p],
        m,
    );
}

/// Where `n` cells are in one placement of a batch.
pub open spec fn places_of(px: Expr, py: Expr, p: int, n: nat, m: Meaning) -> Seq<(real, real)> {
    Seq::new(n, |i: int| (entry(px, seq![p, i], m), entry(py, seq![p, i], m)))
}

proof fn lemma_net_in_each(
    net: NetModel,
    cells: Seq<CellModel>,
    px: Expr,
    py: Expr,
    beta: Expr,
    b: usize,
    p: int,
    m: Meaning,
)
    requires
        cells.len() <= usize::MAX,
        net.pins.len() <= usize::MAX,
        ad::resolves(net.pins, cells),
        beta.dims == ad::scalar(),
    ensures
        entry(
            ad_parallel::weighted_in_each(
                ad_parallel::net_length_in_each(net.pins, cells, px, py, beta, b),
                net.weight,
                b,
            ),
            seq![p],
            m,
        ) == net_value(net, cells, places_of(px, py, p, cells.len(), m), value(beta, m), m),
{
    let pins = net.pins;
    let k = pins.len() as usize;
    let sb = seq![b];
    let at = places_of(px, py, p, cells.len(), m);
    let xs = ad_parallel::pins_x_in_each(pins, cells, px, b, pins.len());
    let ys = ad_parallel::pins_y_in_each(pins, cells, py, b, pins.len());
    assert forall|j: int| 0 <= j < pins.len() implies columns(xs, p, m)[j] == pin_xs(
        pins,
        cells,
        at,
        m,
    )[j] && columns(ys, p, m)[j] == pin_ys(pins, cells, at, m)[j] by {
        assert(ad::pin_offset(pins[j], cells) is Some);
        let o = ad::pin_offset(pins[j], cells)->0;
        let i = pins[j].instance as usize;
        lemma_pin_in_each(px, i, o.0, b, p, m);
        lemma_pin_in_each(py, i, o.1, b, p, m);
    }
    assert(columns(xs, p, m) =~= pin_xs(pins, cells, at, m));
    assert(columns(ys, p, m) =~= pin_ys(pins, cells, at, m));
    lemma_row_span(xs, beta, b, k, p, m);
    lemma_row_span(ys, beta, b, k, p, m);
    let bk = seq![b, k];
    let e = ad_parallel::net_length_in_each(pins, cells, px, py, beta, b);
    tensor::lemma_bin(
        BinaryOp::Add,
        ad_parallel::row_span(graph::joined(xs, 1, bk), beta, b, k),
        ad_parallel::row_span(graph::joined(ys, 1, bk), beta, b, k),
        sb,
        seq![p],
        m,
    );
    lemma_for_each(net.weight, b, p, m);
    tensor::lemma_bin(
        BinaryOp::Mul,
        e,
        ad_parallel::for_each(net.weight, b),
        sb,
        seq![p],
        m,
    );
}

/// The value of a sum so far in one placement.
pub open spec fn sum_in(e: Option<Expr>, p: int, m: Meaning) -> real {
    match e {
        Some(x) => entry(x, seq![p], m),
        None => 0 as real,
    }
}

proof fn lemma_lengths_in_each(
    nets: Seq<NetModel>,
    cells: Seq<CellModel>,
    px: Expr,
    py: Expr,
    beta: Expr,
    b: usize,
    p: int,
    m: Meaning,
    n: int,
)
    requires
        n <= nets.len(),
        cells.len() <= usize::MAX,
        forall|i: int| 0 <= i < nets.len() ==> (#[trigger] nets[i]).pins.len() <= usize::MAX,
        beta.dims == ad::scalar(),
    ensures
        sum_in(ad_parallel::lengths_in_each(nets, cells, px, py, beta, b, n), p, m)
            == lengths_value(
            nets,
            cells,
            places_of(px, py, p, cells.len(), m),
            value(beta, m),
            m,
            n,
        ),
    decreases n,
{
    if n > 0 {
        let net = nets[n - 1];
        let before = ad_parallel::lengths_in_each(nets, cells, px, py, beta, b, n - 1);
        lemma_lengths_in_each(nets, cells, px, py, beta, b, p, m, n - 1);
        if net.pins.len() >= 2 && ad::resolves(net.pins, cells) {
            let e = ad_parallel::weighted_in_each(
                ad_parallel::net_length_in_each(net.pins, cells, px, py, beta, b),
                net.weight,
                b,
            );
            lemma_net_in_each(net, cells, px, py, beta, b, p, m);
            match before {
                Some(a) => {
                    tensor::lemma_bin(BinaryOp::Add, a, e, seq![b], seq![p], m);
                },
                None => {},
            }
        }
    }
}

proof fn lemma_spread_in_each(e: Expr, b: usize, n: usize, p: int, i: int, j: int, m: Meaning)
    requires
        e.dims == seq![b, n],
        n >= 2,
        0 <= p < b,
        0 <= i < n,
        0 <= j < n,
    ensures
        entry(
            graph::expand(graph::reshaped(e, seq![b, n, 1usize]), seq![b, n, n]),
            seq![p, i, j],
            m,
        ) == entry(e, seq![p, i], m),
        entry(
            graph::expand(graph::reshaped(e, seq![b, 1usize, n]), seq![b, n, n]),
            seq![p, i, j],
            m,
        ) == entry(e, seq![p, j], m),
{
    let full = seq![b, n, n];
    let ix = seq![p, i, j];
    let col = graph::reshaped(e, seq![b, n, 1usize]);
    let row = graph::reshaped(e, seq![b, 1usize, n]);
    tensor::lemma_expand(col, full, ix, m);
    tensor::lemma_expand(row, full, ix, m);
    assert(tensor::source(col.dims, ix) =~= seq![p, i, 0int]);
    assert(tensor::source(row.dims, ix) =~= seq![p, 0int, j]);
    tensor::lemma_reshaped(e, seq![b, n, 1usize], seq![p, i, 0int], m);
    tensor::lemma_reshaped(e, seq![b, 1usize, n], seq![p, 0int, j], m);
    tensor::lemma_place3(b, n, 1, p, i, 0);
    tensor::lemma_place3(b, 1, n, p, 0, j);
    tensor::lemma_index2(b, n, p, i);
    tensor::lemma_index2(b, n, p, j);
    assert((p * n + i) * 1 + 0 == p * n + i);
    assert(p * 1 + 0 == p);
}

proof fn lemma_table_in_each(
    t: Seq<Single>,
    b: usize,
    n: usize,
    p: int,
    i: int,
    j: int,
    m: Meaning,
)
    requires
        n >= 2,
        0 <= i < n,
        0 <= j < n,
        0 <= i * n + j < t.len(),
    ensures
        entry(ad_parallel::table_in_each(t, b, n), seq![p, i, j], m) == (m.number)(t[i * n + j]),
{
    let ix = seq![p, i, j];
    let nn = seq![n, n];
    let lnn = seq![1usize, n, n];
    let flat = ad::numbers(t, nn);
    let deep = graph::reshaped(flat, lnn);
    tensor::lemma_expand(deep, seq![b, n, n], ix, m);
    assert(tensor::source(deep.dims, ix) =~= seq![0int, i, j]);
    tensor::lemma_reshaped(flat, lnn, seq![0int, i, j], m);
    tensor::lemma_place3(1, n, n, 0, i, j);
    assert((0 * n + i) * n + j == i * n + j);
    tensor::lemma_index2(n, n, i, j);
    tensor::lemma_place2(n, n, i, j);
    tensor::lemma_numbers(t, nn, seq![i, j], m);
}

proof fn lemma_inside(b: int, n: int, p: int, i: int, j: int)
    requires
        0 <= p < b,
        0 <= i < n,
        0 <= j < n,
    ensures
        0 <= (p * n + i) * n + j < b * n * n,
{
    assert(0 <= p * n + i < b * n) by (nonlinear_arith)
        requires
            0 <= p < b,
            0 <= i < n,
    ;
    let q = p * n + i;
    assert(0 <= q * n + j < (b * n) * n) by (nonlinear_arith)
        requires
            0 <= q < b * n,
            0 <= j < n,
    ;
}

/// The extents of all pairs in each placement.
pub open spec fn batch_grid(b: usize, n: usize) -> GridModel {
    GridModel {
        full: seq![b, n, n],
        column: seq![b, n, 1usize],
        row: seq![b, 1usize, n],
        count: (b * n * n) as nat,
    }
}

/// The overlaps of all pairs in each placement.
pub open spec fn batch_pairs(
    px: Expr,
    py: Expr,
    hs: Seq<(Single, Single)>,
    beta: Expr,
    b: usize,
    n: usize,
) -> Expr {
    ad_batch::grid_overlaps(
        px,
        py,
        ad_parallel::table_in_each(
            ad_batch::pair_table(ad_batch::half_widths(hs), n as int),
            b,
            n,
        ),
        ad_parallel::table_in_each(
            ad_batch::pair_table(ad_batch::half_heights(hs), n as int),
            b,
            n,
        ),
        ad_parallel::table_in_each(ad_batch::mask_table(n as nat, n as int), b, n),
        beta,
        batch_grid(b, n),
    )
}

proof fn lemma_pairs_in_each(
    px: Expr,
    py: Expr,
    hs: Seq<(Single, Single)>,
    beta: Expr,
    b: usize,
    n: usize,
    p: int,
    m: Meaning,
    i: int,
    j: int,
)
    requires
        plain_numbers(m),
        px.dims == seq![b, n],
        py.dims == seq![b, n],
        beta.dims == ad::scalar(),
        hs.len() == n,
        2 <= n,
        b * n * n <= usize::MAX,
        0 <= p < b,
        0 <= i < n,
        0 <= j < n,
    ensures
        entry(batch_pairs(px, py, hs, beta, b, n), seq![p, i, j], m) == tensor::off_diagonal(
            overlap_of(places_of(px, py, p, n as nat, m), hs, value(beta, m), m),
            i,
            j,
        ),
{
    let d = batch_grid(b, n);
    let ix = seq![p, i, j];
    let ws = ad_batch::half_widths(hs);
    let hts = ad_batch::half_heights(hs);
    let tw = ad_batch::pair_table(ws, n as int);
    let th = ad_batch::pair_table(hts, n as int);
    let tm = ad_batch::mask_table(n as nat, n as int);
    let at = places_of(px, py, p, n as nat, m);
    lemma_spread_in_each(px, b, n, p, i, j, m);
    lemma_spread_in_each(py, b, n, p, i, j, m);
    lemma_repeat(beta, d.full, ix, m);
    lemma_pair_table(ws, n as int, i, j);
    lemma_pair_table(hts, n as int, i, j);
    lemma_mask_table(n as nat, n as int, i, j);
    lemma_table_in_each(tw, b, n, p, i, j, m);
    lemma_table_in_each(th, b, n, p, i, j, m);
    lemma_table_in_each(tm, b, n, p, i, j, m);
    tensor::lemma_place3(b, n, n, p, i, j);
    lemma_inside(b as int, n as int, p, i, j);
    tensor::lemma_numbers(ad_batch::ones(d.count), d.full, ix, m);
    lemma_grid(
        px,
        py,
        ad_parallel::table_in_each(tw, b, n),
        ad_parallel::table_in_each(th, b, n),
        ad_parallel::table_in_each(tm, b, n),
        beta,
        d,
        ix,
        m,
        at,
        hs,
        i,
        j,
    );
}

proof fn lemma_overlaps_in_each(
    px: Expr,
    py: Expr,
    hs: Seq<(Single, Single)>,
    beta: Expr,
    b: usize,
    n: usize,
    p: int,
    m: Meaning,
)
    requires
        plain_numbers(m),
        px.dims == seq![b, n],
        py.dims == seq![b, n],
        beta.dims == ad::scalar(),
        hs.len() == n,
        b * n * n <= usize::MAX,
        0 <= p < b,
    ensures
        entry(ad_parallel::overlaps_in_each(px, py, hs, beta, b), seq![p], m) == tensor::upper(
            overlap_of(places_of(px, py, p, n as nat, m), hs, value(beta, m), m),
            n as int,
        ),
{
    let sb = seq![b];
    let f = overlap_of(places_of(px, py, p, n as nat, m), hs, value(beta, m), m);
    if n < 2 {
        lemma_for_each(Single { bits: 0 }, b, p, m);
        reveal_with_fuel(tensor::upper, 3);
        reveal_with_fuel(total, 2);
    } else {
        let g = batch_pairs(px, py, hs, beta, b, n);
        let sum = graph::summed(g, seq![1usize, 2usize], sb);
        let start = seq![p];
        tensor::lemma_summed(g, seq![1usize, 2usize], sb, start, m);
        assert(start.take(1) =~= start);
        tensor::lemma_sum_grid(g, start, m);
        let rows = |i: int| total(|j: int| entry(g, start.push(i).push(j), m), n as int);
        let offs = |i: int| total(|j: int| tensor::off_diagonal(f, i, j), n as int);
        assert forall|i: int| 0 <= i < n implies #[trigger] rows(i) == offs(i) by {
            let x = |j: int| entry(g, start.push(i).push(j), m);
            let y = |j: int| tensor::off_diagonal(f, i, j);
            assert forall|j: int| 0 <= j < n implies #[trigger] x(j) == y(j) by {
                assert(start.push(i).push(j) =~= seq![p, i, j]);
                lemma_pairs_in_each(px, py, hs, beta, b, n, p, m, i, j);
            }
            tensor::lemma_total_same(x, y, n as int);
        }
        tensor::lemma_total_same(rows, offs, n as int);
        lemma_symmetric(places_of(px, py, p, n as nat, m), hs, value(beta, m), m);
        tensor::lemma_both_halves(f, n as int);
        lemma_for_each(Single { bits: HALF_BITS }, b, p, m);
        tensor::lemma_bin(
            BinaryOp::Mul,
            sum,
            ad_parallel::for_each(Single { bits: HALF_BITS }, b),
            sb,
            start,
            m,
        );
        lemma_halved(tensor::upper(f, n as int), (m.number)(Single { bits: HALF_BITS }));
    }
}

/// The positions of a batch of placements.
pub open spec fn batch_positions(b: usize, n: usize) -> (Expr, Expr) {
    (
        graph::parameter(POSITIONS_X_PARAM@, seq![b, n]),
        graph::parameter(POSITIONS_Y_PARAM@, seq![b, n]),
    )
}

/// The loss of one placement of a batch.
pub proof fn loss_in_each_is(
    nl: Netlist,
    cells: Seq<CellModel>,
    b: usize,
    density_weight: Single,
    p: int,
    m: Meaning,
)
    requires
        plain_numbers(m),
        cells.len() == nl.instances@.len(),
        b * cells.len() * cells.len() <= usize::MAX,
        cells.len() <= usize::MAX,
        0 <= p < b,
    ensures
        entry(ad_parallel::loss_in_each(nl, cells, b, density_weight), seq![p], m) == loss_value(
            nl,
            cells,
            places_of(
                batch_positions(b, cells.len() as usize).0,
                batch_positions(b, cells.len() as usize).1,
                p,
                cells.len(),
                m,
            ),
            density_weight,
            m,
        ),
{
    let s = ad::scalar();
    let sb = seq![b];
    let n = cells.len() as usize;
    let (px, py) = batch_positions(b, n);
    let nets = netlist::net_models(nl.nets@);
    let hs = ad::all_half_dims(cells);
    let hb = graph::given(HPWL_BETA_INPUT@, s);
    let db = graph::given(DENSITY_BETA_INPUT@, s);
    tensor::lemma_given(HPWL_BETA_INPUT@, s, only(), m);
    tensor::lemma_given(DENSITY_BETA_INPUT@, s, only(), m);
    assert forall|i: int| 0 <= i < nets.len() implies (#[trigger] nets[i]).pins.len()
        <= usize::MAX by {
        assert(nets[i] == nl.nets@[i].model());
        assert(nl.nets@[i].pins@.len() == nl.nets@[i].pins.len());
    }
    lemma_lengths_in_each(nets, cells, px, py, hb, b, p, m, nets.len() as int);
    lemma_for_each(Single { bits: 0 }, b, p, m);
    lemma_overlaps_in_each(px, py, hs, db, b, n, p, m);
    lemma_for_each(density_weight, b, p, m);
    let a = match ad_parallel::lengths_in_each(nets, cells, px, py, hb, b, nets.len() as int) {
        Some(e) => e,
        None => ad_parallel::for_each(Single { bits: 0 }, b),
    };
    let o = ad_parallel::overlaps_in_each(px, py, hs, db, b);
    let w = ad_parallel::for_each(density_weight, b);
    tensor::lemma_bin(BinaryOp::Mul, o, w, sb, seq![p], m);
    tensor::lemma_bin(BinaryOp::Add, a, graph::bin(BinaryOp::Mul, o, w, sb), sb, seq![p], m);
}

/// Whether one placement of a batch has the positions of a placement on its own.
pub open spec fn is_slice(p: int, n: nat, m: Meaning) -> bool {
    forall|i: int|
        0 <= i < n ==> (m.given)(POSITIONS_X_PARAM@, #[trigger] seq![p, i]) == (m.given)(
            POSITIONS_X_PARAM@,
            seq![i],
        ) && (m.given)(POSITIONS_Y_PARAM@, seq![p, i]) == (m.given)(POSITIONS_Y_PARAM@, seq![i])
}

/// Each placement of a batch has the loss that it has on its own. All cells can move.
pub proof fn loss_in_each_is_the_same(
    nl: Netlist,
    cells: Seq<CellModel>,
    seed: DifferentiablePlacement,
    b: usize,
    density_weight: Single,
    p: int,
    m: Meaning,
)
    requires
        plain_numbers(m),
        cells.len() == nl.instances@.len(),
        b * cells.len() * cells.len() <= usize::MAX,
        cells.len() * cells.len() <= usize::MAX,
        cells.len() <= usize::MAX,
        0 <= p < b,
        ad_batch::movable(nl, nl.instances@.len() as int) == nl.instances@.len(),
        is_slice(p, cells.len(), m),
    ensures
        entry(ad_parallel::loss_in_each(nl, cells, b, density_weight), seq![p], m) == value(
            ad_batch::batched_loss(nl, cells, seed, density_weight),
            m,
        ),
{
    let n = cells.len();
    let (px, py) = ad_batch::all_positions(nl, seed);
    let (qx, qy) = batch_positions(b, n as usize);
    loss_in_each_is(nl, cells, b, density_weight, p, m);
    batched_loss_is(nl, cells, seed, density_weight, m);
    assert forall|i: int| 0 <= i < n implies places_of(qx, qy, p, n, m)[i] == places_in(
        px,
        py,
        n,
        m,
    )[i] by {
        let two = seq![p, i];
        tensor::lemma_given(POSITIONS_X_PARAM@, qx.dims, two, m);
        tensor::lemma_given(POSITIONS_Y_PARAM@, qy.dims, two, m);
        tensor::lemma_given(POSITIONS_X_PARAM@, px.dims, seq![i], m);
        tensor::lemma_given(POSITIONS_Y_PARAM@, py.dims, seq![i], m);
    }
    assert(places_of(qx, qy, p, n, m) =~= places_in(px, py, n, m));
}

/// The loss of a batch is the sum of the losses of its placements.
pub proof fn batch_loss_adds_up(
    nl: Netlist,
    cells: Seq<CellModel>,
    b: usize,
    density_weight: Single,
    m: Meaning,
)
    ensures
        value(
            graph::summed(
                ad_parallel::loss_in_each(nl, cells, b, density_weight),
                seq![0usize],
                ad::scalar(),
            ),
            m,
        ) == total(
            |p: int| entry(ad_parallel::loss_in_each(nl, cells, b, density_weight), seq![p], m),
            b as int,
        ),
{
    let e = ad_parallel::loss_in_each(nl, cells, b, density_weight);
    let start = Seq::<int>::empty();
    tensor::lemma_summed(e, seq![0usize], ad::scalar(), only(), m);
    assert(only().take(0) =~= start);
    tensor::lemma_sum_row(e, start, m);
    let f = |p: int| entry(e, start.push(p), m);
    let g = |p: int| entry(e, seq![p], m);
    assert forall|p: int| 0 <= p < b implies #[trigger] f(p) == g(p) by {
        assert(start.push(p) =~= seq![p]);
    }
    tensor::lemma_total_same(f, g, b as int);
}

/// Only how cells lie to each other counts for their overlap: moving both by the same makes
/// no difference, and neither does exchanging the two directions with their extents.
pub proof fn overlaps_go_by_differences(
    a: (real, real),
    b: (real, real),
    ha: (Single, Single),
    hb: (Single, Single),
    by: (real, real),
    beta: real,
    m: Meaning,
)
    ensures
        overlap_value(seq![a, b], seq![ha, hb], beta, m, 0, 1) == overlap_value(
            seq![(a.0 + by.0, a.1 + by.1), (b.0 + by.0, b.1 + by.1)],
            seq![ha, hb],
            beta,
            m,
            0,
            1,
        ),
        overlap_value(seq![a, b], seq![ha, hb], beta, m, 0, 1) == overlap_value(
            seq![(a.1, a.0), (b.1, b.0)],
            seq![(ha.1, ha.0), (hb.1, hb.0)],
            beta,
            m,
            0,
            1,
        ),
{
    let x = overlap_value_1d(a.0, b.0, ha.0.add_spec(hb.0), beta, m);
    let y = overlap_value_1d(a.1, b.1, ha.1.add_spec(hb.1), beta, m);
    assert((a.0 + by.0) - (b.0 + by.0) == a.0 - b.0);
    assert((a.1 + by.1) - (b.1 + by.1) == a.1 - b.1);
    assert(x * y == y * x) by (nonlinear_arith);
}

} // verus!
