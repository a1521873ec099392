//! The losses of a batch of placements of one design.

use crate::ad;
use crate::ad::{DENSITY_BETA_INPUT, HPWL_BETA_INPUT, POSITIONS_X_PARAM, POSITIONS_Y_PARAM};
use crate::ad_batch;
use crate::ad_batch::{Grid, GridModel};
use crate::flow;
use crate::graph;
use crate::graph::{Activation, BinaryOp, Expr};
use crate::layout;
use crate::layout::{CellModel, CellView};
use crate::netlist;
use crate::netlist::{Net, NetModel, Netlist, PinModel};
use crate::single::{Single, HALF_BITS, MINUS_ONE_BITS, ONE_BITS};
use crate::text;
use klayout_core::Library;
use rlx_ir::Graph;
use vstd::prelude::*;
use vstd::string::*;

verus! {

/// A number, once for each placement.
pub open spec fn for_each(v: Single, b: usize) -> Expr {
    graph::expand(ad::number(v, ad::scalar()), seq![b])
}

fn put_for_each(g: &mut Graph, v: Single, s: &Vec<usize>) -> (id: u32)
    requires
        graph::sound(*old(g)),
        graph::has_room(*old(g), 2),
        s@.len() == 1,
        graph::dims_fit(s@),
    ensures
        graph::grown(*old(g), *final(g), 2),
        graph::stands(*final(g), id, for_each(v, s@[0])),
{
    let one = ad::dims1(1);
    let k: u32 = ad::put_number(g, v, &one);
    assert(s@ =~= seq![s@[0]]);
    graph::put_expand(g, k, s)
}

// ── the lengths of nets ────────────────────────────────────────────

/// A coordinate of one pin in each placement.
pub open spec fn pin_in_each(p: Expr, i: usize, offset: Single, b: usize) -> Expr {
    let d = seq![b, 1usize];
    graph::bin(
        BinaryOp::Add,
        graph::narrow(1, i, 1, p, d),
        graph::expand(
            graph::reshaped(ad::number(offset, ad::scalar()), seq![1usize, 1usize]),
            d,
        ),
        d,
    )
}

fn put_pin_in_each(g: &mut Graph, p: u32, i: usize, offset: Single, b: usize) -> (id: u32)
    requires
        graph::sound(*old(g)),
        graph::has_room(*old(g), 5),
        graph::is_node(*old(g), p),
        b <= i64::MAX,
    ensures
        graph::grown(*old(g), *final(g), 5),
        graph::stands(*final(g), id, pin_in_each(graph::at(*old(g), p), i, offset, b)),
{
    let d = ad::dims2(b, 1);
    let one = ad::dims1(1);
    let unit = ad::dims2(1, 1);
    let slot: u32 = graph::put_narrow(g, 1, i, 1, p, &d);
    let k: u32 = ad::put_number(g, offset, &one);
    let flat: u32 = graph::put_reshape(g, k, &unit);
    let wide: u32 = graph::put_expand(g, flat, &d);
    graph::put_binary(g, BinaryOp::Add, slot, wide, &d)
}

/// The coordinates of the first `n` pins in each placement.
pub open spec fn pins_x_in_each(
    pins: Seq<PinModel>,
    cells: Seq<CellModel>,
    p: Expr,
    b: usize,
    n: nat,
) -> Seq<Expr> {
    Seq::new(
        n,
        |k: int|
            pin_in_each(p, pins[k].instance as usize, (ad::pin_offset(pins[k], cells)->0).0, b),
    )
}

pub open spec fn pins_y_in_each(
    pins: Seq<PinModel>,
    cells: Seq<CellModel>,
    p: Expr,
    b: usize,
    n: nat,
) -> Seq<Expr> {
    Seq::new(
        n,
        |k: int|
            pin_in_each(p, pins[k].instance as usize, (ad::pin_offset(pins[k], cells)->0).1, b),
    )
}

fn put_pins_in_each(
    g: &mut Graph,
    net: &Net,
    cells: &Vec<CellView>,
    px: u32,
    py: u32,
    b: usize,
) -> (res: Option<(Vec<u32>, Vec<u32>)>)
    requires
        graph::sound(*old(g)),
        graph::has_room(*old(g), 10 * net.pins@.len()),
        graph::is_node(*old(g), px),
        graph::is_node(*old(g), py),
        b <= i64::MAX,
    ensures
        graph::grown(*old(g), *final(g), 10 * net.pins@.len()),
        res is Some <==> ad::resolves(net.model().pins, layout::cell_models(cells@)),
        res matches Some((xs, ys)) ==> {
            let ms = layout::cell_models(cells@);
            let k = net.pins@.len();
            &&& graph::are_nodes(*final(g), xs@)
            &&& graph::are_nodes(*final(g), ys@)
            &&& graph::all_at(*final(g), xs@) == pins_x_in_each(
                net.model().pins,
                ms,
                graph::at(*old(g), px),
                b,
                k,
            )
            &&& graph::all_at(*final(g), ys@) == pins_y_in_each(
                net.model().pins,
                ms,
                graph::at(*old(g), py),
                b,
                k,
            )
        },
{
    let ghost g0 = *g;
    let ghost ms = layout::cell_models(cells@);
    let ghost pins = net.model().pins;
    let ghost ex = graph::at(g0, px);
    let ghost ey = graph::at(g0, py);
    let mut xs: Vec<u32> = Vec::new();
    let mut ys: Vec<u32> = Vec::new();
    let mut k: usize = 0;
    while k < net.pins.len()
        invariant
            k <= net.pins@.len(),
            g0 == *old(g),
            pins == netlist::pin_models(net.pins@),
            pins == net.model().pins,
            ms == layout::cell_models(cells@),
            b <= i64::MAX,
            ex == graph::at(g0, px),
            ey == graph::at(g0, py),
            graph::has_room(g0, 10 * net.pins@.len()),
            graph::is_node(g0, px),
            graph::is_node(g0, py),
            graph::grown(g0, *g, (10 * k) as nat),
            forall|j: int| 0 <= j < k ==> ad::pin_offset(#[trigger] pins[j], ms) is Some,
            graph::are_nodes(*g, xs@),
            graph::are_nodes(*g, ys@),
            graph::all_at(*g, xs@) =~= pins_x_in_each(pins, ms, ex, b, k as nat),
            graph::all_at(*g, ys@) =~= pins_y_in_each(pins, ms, ey, b, k as nat),
        decreases net.pins@.len() - k,
    {
        let ghost g1 = *g;
        assert(pins[k as int] == net.pins@[k as int].model());
        match ad::find_offset(&net.pins[k], cells) {
            None => {
                assert(ad::pin_offset(pins[k as int], ms) is None);
                return None;
            },
            Some((ox, oy)) => {
                let i: usize = net.pins[k].instance;
                let x: u32 = put_pin_in_each(g, px, i, ox, b);
                let ghost g2 = *g;
                assert(graph::at(g2, py) == graph::at(g1, py));
                let y: u32 = put_pin_in_each(g, py, i, oy, b);
                let ghost xs_before = xs@;
                let ghost ys_before = ys@;
                proof {
                    graph::growing_adds_up(g1, g2, *g, 5, 5);
                    graph::growing_adds_up(g0, g1, *g, (10 * k) as nat, 10);
                    ad::lemma_all_at(g1, *g, 10, xs@);
                    ad::lemma_all_at(g1, *g, 10, ys@);
                    assert(graph::at(*g, x) == graph::at(g2, x));
                }
                xs.push(x);
                ys.push(y);
                proof {
                    assert(graph::all_at(*g, xs@) =~= graph::all_at(*g, xs_before).push(
                        graph::at(*g, x),
                    ));
                    assert(graph::all_at(*g, ys@) =~= graph::all_at(*g, ys_before).push(
                        graph::at(*g, y),
                    ));
                }
            },
        }
        k = k + 1;
    }
    Some((xs, ys))
}

/// The logarithm of the sum of exponentials along a row, times a factor.
pub open spec fn row_log_sum(xs: Expr, beta: Expr, factor: Expr, b: usize, k: usize) -> Expr {
    let bk = seq![b, k];
    graph::bin(
        BinaryOp::Mul,
        graph::act(
            Activation::Log,
            graph::summed(
                graph::act(
                    Activation::Exp,
                    graph::bin(BinaryOp::Mul, xs, graph::expand(beta, bk), bk),
                    bk,
                ),
                seq![1usize],
                seq![b],
            ),
            seq![b],
        ),
        graph::expand(factor, seq![b]),
        seq![b],
    )
}

fn axis1() -> (res: Vec<usize>)
    ensures
        res@ == seq![1usize],
{
    let mut v: Vec<usize> = Vec::new();
    v.push(1);
    assert(v@ =~= seq![1usize]);
    v
}

fn put_row_log_sum(g: &mut Graph, xs: u32, beta: u32, factor: u32, b: usize, k: usize) -> (id: u32)
    requires
        graph::sound(*old(g)),
        graph::has_room(*old(g), 7),
        graph::is_node(*old(g), xs),
        graph::is_node(*old(g), beta),
        graph::is_node(*old(g), factor),
        b <= i64::MAX,
        k <= i64::MAX,
    ensures
        graph::grown(*old(g), *final(g), 7),
        graph::stands(
            *final(g),
            id,
            row_log_sum(
                graph::at(*old(g), xs),
                graph::at(*old(g), beta),
                graph::at(*old(g), factor),
                b,
                k,
            ),
        ),
{
    let bk = ad::dims2(b, k);
    let sb = ad::dims1(b);
    let wide: u32 = graph::put_expand(g, beta, &bk);
    let bx: u32 = graph::put_binary(g, BinaryOp::Mul, xs, wide, &bk);
    let ex: u32 = graph::put_activation(g, Activation::Exp, bx, &bk);
    let sum: u32 = graph::put_sum(g, ex, axis1(), &sb);
    let lse: u32 = graph::put_activation(g, Activation::Log, sum, &sb);
    let f: u32 = graph::put_expand(g, factor, &sb);
    graph::put_binary(g, BinaryOp::Mul, lse, f, &sb)
}

/// A smooth span along each row: how far its largest entry lies from its smallest.
pub open spec fn row_span(xs: Expr, beta: Expr, b: usize, k: usize) -> Expr {
    let s = ad::scalar();
    let one = ad::number(Single { bits: ONE_BITS }, s);
    let minus = ad::number(Single { bits: MINUS_ONE_BITS }, s);
    let inv = graph::bin(BinaryOp::Div, one, beta, s);
    graph::bin(
        BinaryOp::Sub,
        row_log_sum(xs, beta, inv, b, k),
        row_log_sum(
            xs,
            graph::bin(BinaryOp::Mul, beta, minus, s),
            graph::bin(BinaryOp::Mul, inv, minus, s),
            b,
            k,
        ),
        seq![b],
    )
}

fn put_row_span(g: &mut Graph, xs: u32, beta: u32, b: usize, k: usize) -> (id: u32)
    requires
        graph::sound(*old(g)),
        graph::has_room(*old(g), 20),
        graph::is_node(*old(g), xs),
        graph::is_node(*old(g), beta),
        b <= i64::MAX,
        k <= i64::MAX,
    ensures
        graph::grown(*old(g), *final(g), 20),
        graph::stands(
            *final(g),
            id,
            row_span(graph::at(*old(g), xs), graph::at(*old(g), beta), b, k),
        ),
{
    let s = ad::dims1(1);
    let sb = ad::dims1(b);
    let one: u32 = ad::put_number(g, Single { bits: ONE_BITS }, &s);
    let minus: u32 = ad::put_number(g, Single { bits: MINUS_ONE_BITS }, &s);
    let inv: u32 = graph::put_binary(g, BinaryOp::Div, one, beta, &s);
    let neg_beta: u32 = graph::put_binary(g, BinaryOp::Mul, beta, minus, &s);
    let neg_inv: u32 = graph::put_binary(g, BinaryOp::Mul, inv, minus, &s);
    let smax: u32 = put_row_log_sum(g, xs, beta, inv, b, k);
    let smin: u32 = put_row_log_sum(g, xs, neg_beta, neg_inv, b, k);
    graph::put_binary(g, BinaryOp::Sub, smax, smin, &sb)
}

/// The length of a net in each placement.
pub open spec fn net_length_in_each(
    pins: Seq<PinModel>,
    cells: Seq<CellModel>,
    px: Expr,
    py: Expr,
    beta: Expr,
    b: usize,
) -> Expr {
    let k = pins.len() as usize;
    graph::bin(
        BinaryOp::Add,
        row_span(
            graph::joined(pins_x_in_each(pins, cells, px, b, pins.len()), 1, seq![b, k]),
            beta,
            b,
            k,
        ),
        row_span(
            graph::joined(pins_y_in_each(pins, cells, py, b, pins.len()), 1, seq![b, k]),
            beta,
            b,
            k,
        ),
        seq![b],
    )
}

/// The same times its weight, where that is not one.
pub open spec fn weighted_in_each(e: Expr, w: Single, b: usize) -> Expr {
    if ad::near_one(w) {
        e
    } else {
        graph::bin(BinaryOp::Mul, e, for_each(w, b), seq![b])
    }
}

/// The sum of the weighted lengths of the first `n` nets, but for those of fewer than two
/// pins and those with a pin on no port.
pub open spec fn lengths_in_each(
    nets: Seq<NetModel>,
    cells: Seq<CellModel>,
    px: Expr,
    py: Expr,
    beta: Expr,
    b: usize,
    n: int,
) -> Option<Expr>
    decreases n,
{
    if n <= 0 {
        None
    } else {
        let net = nets[n - 1];
        let before = lengths_in_each(nets, cells, px, py, beta, b, n - 1);
        if net.pins.len() < 2 || !ad::resolves(net.pins, cells) {
            before
        } else {
            Some(
                ad::plus(
                    before,
                    weighted_in_each(
                        net_length_in_each(net.pins, cells, px, py, beta, b),
                        net.weight,
                        b,
                    ),
                    seq![b],
                ),
            )
        }
    }
}

/// Nodes that the length of a net takes, at most.
pub open spec fn net_cost(net: NetModel) -> nat {
    10 * net.pins.len() + 48
}

pub open spec fn nets_cost(nets: Seq<NetModel>, n: int) -> nat
    decreases n,
{
    if n <= 0 {
        0
    } else {
        nets_cost(nets, n - 1) + net_cost(nets[n - 1])
    }
}

proof fn lemma_nets_cost(nets: Seq<NetModel>, k: int, n: int)
    requires
        0 <= k <= n,
    ensures
        nets_cost(nets, k) <= nets_cost(nets, n),
    decreases n,
{
    if k < n {
        lemma_nets_cost(nets, k, n - 1);
    }
}

fn put_weighted_in_each(g: &mut Graph, e: u32, w: Single, b: usize) -> (id: u32)
    requires
        graph::sound(*old(g)),
        graph::has_room(*old(g), 3),
        graph::is_node(*old(g), e),
        b <= i64::MAX,
    ensures
        graph::grown(*old(g), *final(g), 3),
        graph::stands(*final(g), id, weighted_in_each(graph::at(*old(g), e), w, b)),
{
    let sb = ad::dims1(b);
    if ad::is_near_one(w) {
        e
    } else {
        let k: u32 = put_for_each(g, w, &sb);
        graph::put_binary(g, BinaryOp::Mul, e, k, &sb)
    }
}

fn put_net_in_each(
    g: &mut Graph,
    net: &Net,
    cells: &Vec<CellView>,
    px: u32,
    py: u32,
    beta: u32,
    b: usize,
) -> (res: Option<u32>)
    requires
        graph::sound(*old(g)),
        graph::has_room(*old(g), (net_cost(net.model()) - 1) as nat),
        graph::is_node(*old(g), px),
        graph::is_node(*old(g), py),
        graph::is_node(*old(g), beta),
        b <= i64::MAX,
    ensures
        graph::grown(*old(g), *final(g), (net_cost(net.model()) - 1) as nat),
        ad::opt_node(*final(g), res),
        ad::opt_at(*final(g), res) == (if net.pins@.len() < 2 || !ad::resolves(
            net.model().pins,
            layout::cell_models(cells@),
        ) {
            None
        } else {
            Some(
                weighted_in_each(
                    net_length_in_each(
                        net.model().pins,
                        layout::cell_models(cells@),
                        graph::at(*old(g), px),
                        graph::at(*old(g), py),
                        graph::at(*old(g), beta),
                        b,
                    ),
                    net.weight,
                    b,
                ),
            )
        }),
{
    let ghost g0 = *g;
    assert(net.model().pins.len() == net.pins@.len());
    if net.pins.len() < 2 {
        assert(graph::goes_on(graph::graph_nodes(g0), graph::graph_nodes(g0)));
        return None;
    }
    match put_pins_in_each(g, net, cells, px, py, b) {
        None => None,
        Some((xs, ys)) => {
            let ghost g1 = *g;
            let k: usize = xs.len();
            proof {
                assert(graph::all_at(g1, xs@).len() == xs@.len());
                assert(graph::all_at(g1, ys@).len() == ys@.len());
                assert(k == net.pins@.len());
                assert(10 * k <= 0xffff_ffff);
                assert(graph::at(g1, beta) == graph::at(g0, beta));
            }
            let bk = ad::dims2(b, k);
            let sb = ad::dims1(b);
            let xm: u32 = graph::put_concat(g, &xs, 1, &bk);
            let ghost g2 = *g;
            proof {
                ad::lemma_all_at(g1, g2, 1, ys@);
            }
            let ym: u32 = graph::put_concat(g, &ys, 1, &bk);
            let sx: u32 = put_row_span(g, xm, beta, b, k);
            let sy: u32 = put_row_span(g, ym, beta, b, k);
            let raw: u32 = graph::put_binary(g, BinaryOp::Add, sx, sy, &sb);
            Some(put_weighted_in_each(g, raw, net.weight, b))
        },
    }
}

fn put_lengths_in_each(
    g: &mut Graph,
    netlist: &Netlist,
    cells: &Vec<CellView>,
    px: u32,
    py: u32,
    beta: u32,
    b: usize,
) -> (id: u32)
    requires
        graph::sound(*old(g)),
        graph::has_room(
            *old(g),
            nets_cost(netlist::net_models(netlist.nets@), netlist.nets@.len() as int) + 2,
        ),
        graph::is_node(*old(g), px),
        graph::is_node(*old(g), py),
        graph::is_node(*old(g), beta),
        b <= i64::MAX,
    ensures
        graph::grown(
            *old(g),
            *final(g),
            nets_cost(netlist::net_models(netlist.nets@), netlist.nets@.len() as int) + 2,
        ),
        graph::stands(
            *final(g),
            id,
            match lengths_in_each(
                netlist::net_models(netlist.nets@),
                layout::cell_models(cells@),
                graph::at(*old(g), px),
                graph::at(*old(g), py),
                graph::at(*old(g), beta),
                b,
                netlist.nets@.len() as int,
            ) {
                Some(e) => e,
                None => for_each(Single { bits: 0 }, b),
            },
        ),
{
    let ghost g0 = *g;
    let ghost nets = netlist::net_models(netlist.nets@);
    let ghost ms = layout::cell_models(cells@);
    let ghost ex = graph::at(g0, px);
    let ghost ey = graph::at(g0, py);
    let ghost eb = graph::at(g0, beta);
    let sb = ad::dims1(b);
    let mut acc: Option<u32> = None;
    let mut i: usize = 0;
    while i < netlist.nets.len()
        invariant
            i <= netlist.nets@.len(),
            nets == netlist::net_models(netlist.nets@),
            ms == layout::cell_models(cells@),
            ex == graph::at(g0, px),
            ey == graph::at(g0, py),
            eb == graph::at(g0, beta),
            b <= i64::MAX,
            sb@ == seq![b],
            graph::has_room(g0, nets_cost(nets, netlist.nets@.len() as int) + 2),
            graph::is_node(g0, px),
            graph::is_node(g0, py),
            graph::is_node(g0, beta),
            graph::grown(g0, *g, nets_cost(nets, i as int)),
            ad::opt_node(*g, acc),
            ad::opt_at(*g, acc) == lengths_in_each(nets, ms, ex, ey, eb, b, i as int),
        decreases netlist.nets@.len() - i,
    {
        let ghost g1 = *g;
        proof {
            assert(nets[i as int] == netlist.nets@[i as int].model());
            lemma_nets_cost(nets, i + 1, netlist.nets@.len() as int);
            assert(nets[i as int].pins.len() == netlist.nets@[i as int].pins@.len());
            assert(graph::at(g1, px) == ex);
            assert(graph::at(g1, py) == ey);
            assert(graph::at(g1, beta) == eb);
        }
        let net: Option<u32> = put_net_in_each(g, &netlist.nets[i], cells, px, py, beta, b);
        let ghost g2 = *g;
        let ghost c = net_cost(nets[i as int]);
        proof {
            if acc is Some {
                assert(graph::at(g2, acc->0) == graph::at(g1, acc->0));
            }
        }
        match net {
            Some(e) => {
                acc = Some(ad::put_plus(g, acc, e, &sb));
            },
            None => {},
        }
        proof {
            if net is Some {
                graph::growing_adds_up(g1, g2, *g, (c - 1) as nat, 1);
            }
            graph::growing_adds_up(g0, g1, *g, nets_cost(nets, i as int), c);
        }
        i = i + 1;
    }
    match acc {
        Some(a) => a,
        None => put_for_each(g, Single { bits: 0 }, &sb),
    }
}

// ── the overlaps of cells ──────────────────────────────────────────

/// A table for all pairs of cells, the same in each placement.
pub open spec fn table_in_each(t: Seq<Single>, b: usize, n: usize) -> Expr {
    graph::expand(
        graph::reshaped(ad::numbers(t, seq![n, n]), seq![1usize, n, n]),
        seq![b, n, n],
    )
}

fn put_table_in_each(g: &mut Graph, t: &Vec<Single>, b: usize, n: usize) -> (id: u32)
    requires
        graph::sound(*old(g)),
        graph::has_room(*old(g), 3),
        b <= i64::MAX,
        n <= i64::MAX,
    ensures
        graph::grown(*old(g), *final(g), 3),
        graph::stands(*final(g), id, table_in_each(t@, b, n)),
{
    let nn = ad::dims2(n, n);
    let lnn = ad::dims3(1, n, n);
    let bnn = ad::dims3(b, n, n);
    let flat: u32 = ad::put_numbers(g, t, &nn);
    let deep: u32 = graph::put_reshape(g, flat, &lnn);
    graph::put_expand(g, deep, &bnn)
}

/// The overlaps of all cells in each placement.
pub open spec fn overlaps_in_each(
    px: Expr,
    py: Expr,
    hs: Seq<(Single, Single)>,
    beta: Expr,
    b: usize,
) -> Expr {
    let n = hs.len() as usize;
    if n < 2 {
        for_each(Single { bits: 0 }, b)
    } else {
        let d = GridModel {
            full: seq![b, n, n],
            column: seq![b, n, 1],
            row: seq![b, 1, n],
            count: (b * n * n) as nat,
        };
        graph::bin(
            BinaryOp::Mul,
            graph::summed(
                ad_batch::grid_overlaps(
                    px,
                    py,
                    table_in_each(ad_batch::pair_table(ad_batch::half_widths(hs), n as int), b, n),
                    table_in_each(ad_batch::pair_table(ad_batch::half_heights(hs), n as int), b, n),
                    table_in_each(ad_batch::mask_table(n as nat, n as int), b, n),
                    beta,
                    d,
                ),
                seq![1, 2],
                seq![b],
            ),
            for_each(Single { bits: HALF_BITS }, b),
            seq![b],
        )
    }
}

fn put_overlaps_in_each(
    g: &mut Graph,
    cells: &Vec<CellView>,
    px: u32,
    py: u32,
    beta: u32,
    b: usize,
) -> (id: u32)
    requires
        graph::sound(*old(g)),
        graph::has_room(*old(g), 42),
        graph::is_node(*old(g), px),
        graph::is_node(*old(g), py),
        graph::is_node(*old(g), beta),
        ad::extents_fit(layout::cell_models(cells@)),
        ad_batch::sizes_fit(b as nat, cells@.len()),
    ensures
        graph::grown(*old(g), *final(g), 42),
        graph::stands(
            *final(g),
            id,
            overlaps_in_each(
                graph::at(*old(g), px),
                graph::at(*old(g), py),
                ad::all_half_dims(layout::cell_models(cells@)),
                graph::at(*old(g), beta),
                b,
            ),
        ),
{
    let n: usize = cells.len();
    assert(layout::cell_models(cells@).len() == n);
    let sb = ad::dims1(b);
    if n < 2 {
        return put_for_each(g, Single { bits: 0 }, &sb);
    }
    let hs = ad::half_dims_of(cells);
    let (ws, ht): (Vec<Single>, Vec<Single>) = ad_batch::split_halves(&hs);
    let wt = ad_batch::pair_table_of(&ws);
    let w: u32 = put_table_in_each(g, &wt, b, n);
    let hh = ad_batch::pair_table_of(&ht);
    let h: u32 = put_table_in_each(g, &hh, b, n);
    let mt = ad_batch::mask_table_of(n);
    let mask: u32 = put_table_in_each(g, &mt, b, n);
    assert(b * n <= b * n * n) by (nonlinear_arith)
        requires
            n >= 1,
            b >= 0,
    ;
    let count: usize = b * n * n;
    let d = Grid {
        full: ad::dims3(b, n, n),
        column: ad::dims3(b, n, 1),
        row: ad::dims3(b, 1, n),
        count,
    };
    let pairs: u32 = ad_batch::put_grid_overlaps(g, (px, py), (w, h), mask, beta, &d);
    let total: u32 = graph::put_sum(g, pairs, ad_batch::axes2(1, 2), &sb);
    let half: u32 = put_for_each(g, Single { bits: HALF_BITS }, &sb);
    graph::put_binary(g, BinaryOp::Mul, total, half, &sb)
}

// ── losses ─────────────────────────────────────────────────────────

/// The lengths of nets and the overlaps of cells, with their weight, in each of `b`
/// placements.
pub open spec fn loss_in_each(
    nl: Netlist,
    cells: Seq<CellModel>,
    b: usize,
    density_weight: Single,
) -> Expr {
    let s = ad::scalar();
    let n = nl.instances@.len() as usize;
    let px = graph::parameter(POSITIONS_X_PARAM@, seq![b, n]);
    let py = graph::parameter(POSITIONS_Y_PARAM@, seq![b, n]);
    graph::bin(
        BinaryOp::Add,
        match lengths_in_each(
            netlist::net_models(nl.nets@),
            cells,
            px,
            py,
            graph::given(HPWL_BETA_INPUT@, s),
            b,
            nl.nets@.len() as int,
        ) {
            Some(e) => e,
            None => for_each(Single { bits: 0 }, b),
        },
        graph::bin(
            BinaryOp::Mul,
            overlaps_in_each(
                px,
                py,
                ad::all_half_dims(cells),
                graph::given(DENSITY_BETA_INPUT@, s),
                b,
            ),
            for_each(density_weight, b),
            seq![b],
        ),
        seq![b],
    )
}

/// Whether a graph can hold the losses of a batch.
pub open spec fn batch_fits(nl: Netlist, b: usize) -> bool {
    &&& ad_batch::sizes_fit(b as nat, nl.instances@.len())
    &&& nets_cost(netlist::net_models(nl.nets@), nl.nets@.len() as int) + 53 <= 0xffff_ffff
}

fn put_loss_in_each(
    g: &mut Graph,
    netlist: &Netlist,
    lib: &Library,
    b: usize,
    density_weight: Single,
) -> (id: u32)
    requires
        graph::sound(*old(g)),
        graph::graph_nodes(*old(g)).len() == 0,
        flow::knows(*lib, *netlist, Set::empty()),
        ad::extents_fit(flow::cells_of(*lib, *netlist)),
        batch_fits(*netlist, b),
    ensures
        graph::grown(
            *old(g),
            *final(g),
            nets_cost(netlist::net_models(netlist.nets@), netlist.nets@.len() as int) + 52,
        ),
        graph::stands(
            *final(g),
            id,
            loss_in_each(*netlist, flow::cells_of(*lib, *netlist), b, density_weight),
        ),
{
    let cells = flow::read_cells(lib, netlist);
    let s = ad::dims1(1);
    let sb = ad::dims1(b);
    let bn = ad::dims2(b, netlist.instances.len());
    let px: u32 = graph::put_param(g, POSITIONS_X_PARAM, &bn);
    let py: u32 = graph::put_param(g, POSITIONS_Y_PARAM, &bn);
    let hpwl_beta: u32 = graph::put_input(g, HPWL_BETA_INPUT, &s);
    let density_beta: u32 = graph::put_input(g, DENSITY_BETA_INPUT, &s);
    let ghost g1 = *g;
    let hpwl: u32 = put_lengths_in_each(g, netlist, &cells, px, py, hpwl_beta, b);
    let ghost g2 = *g;
    proof {
        assert(graph::at(g2, px) == graph::at(g1, px));
        assert(graph::at(g2, py) == graph::at(g1, py));
        assert(graph::at(g2, density_beta) == graph::at(g1, density_beta));
    }
    let density: u32 = put_overlaps_in_each(g, &cells, px, py, density_beta, b);
    let ghost g3 = *g;
    assert(graph::at(g3, hpwl) == graph::at(g2, hpwl));
    let w: u32 = put_for_each(g, density_weight, &sb);
    let wd: u32 = graph::put_binary(g, BinaryOp::Mul, density, w, &sb);
    graph::put_binary(g, BinaryOp::Add, hpwl, wd, &sb)
}

fn batch_suffix(prefix: &str, b: usize) -> (res: String)
    ensures
        res@ == prefix@ + text::dec(b as nat),
{
    let mut s = prefix.to_owned();
    let n = text::usize_to_string(b);
    s.append(n.as_str());
    s
}

fn axis0() -> (res: Vec<usize>)
    ensures
        res@ == seq![0usize],
{
    let mut v: Vec<usize> = Vec::new();
    v.push(0);
    assert(v@ =~= seq![0usize]);
    v
}

/// Builds the sum of the losses of `batch_size` placements.
pub fn combined_loss_graph_parallel(
    netlist: &Netlist,
    lib: &Library,
    batch_size: usize,
    density_weight: Single,
) -> (g: Graph)
    requires
        batch_size >= 1,
        flow::knows(*lib, *netlist, Set::empty()),
        ad::extents_fit(flow::cells_of(*lib, *netlist)),
        batch_fits(*netlist, batch_size),
    ensures
        ad::yields(
            g,
            graph::summed(
                loss_in_each(
                    *netlist,
                    flow::cells_of(*lib, *netlist),
                    batch_size,
                    density_weight,
                ),
                seq![0usize],
                ad::scalar(),
            ),
        ),
        graph::graph_name(g) == netlist.name@ + ("_parallel_B"@ + text::dec(batch_size as nat)),
{
    let suffix = batch_suffix("_parallel_B", batch_size);
    let mut g = ad::start(netlist.name.as_str(), suffix.as_str());
    let each: u32 = put_loss_in_each(&mut g, netlist, lib, batch_size, density_weight);
    let s = ad::dims1(1);
    let total: u32 = graph::put_sum(&mut g, each, axis0(), &s);
    ad::finish(&mut g, total);
    g
}

/// Builds the losses of `batch_size` placements, one value for each.
pub fn combined_loss_graph_parallel_per_batch(
    netlist: &Netlist,
    lib: &Library,
    batch_size: usize,
    density_weight: Single,
) -> (g: Graph)
    requires
        batch_size >= 1,
        flow::knows(*lib, *netlist, Set::empty()),
        ad::extents_fit(flow::cells_of(*lib, *netlist)),
        batch_fits(*netlist, batch_size),
    ensures
        ad::yields(
            g,
            loss_in_each(*netlist, flow::cells_of(*lib, *netlist), batch_size, density_weight),
        ),
        graph::graph_name(g) == netlist.name@ + ("_parallel_perbatch_B"@ + text::dec(
            batch_size as nat,
        )),
{
    let suffix = batch_suffix("_parallel_perbatch_B", batch_size);
    let mut g = ad::start(netlist.name.as_str(), suffix.as_str());
    let each: u32 = put_loss_in_each(&mut g, netlist, lib, batch_size, density_weight);
    ad::finish(&mut g, each);
    g
}

} // verus!
