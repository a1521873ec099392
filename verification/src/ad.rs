//! Losses for placement by gradient descent, as computation graphs over the positions
//! of the cells: the lengths of the nets, the overlaps of the cells, and how far cells
//! are from matching.

use crate::flow;
use crate::geom;
use crate::geom::{Trans, Vec2};
use crate::graph;
use crate::graph::{Activation, BinaryOp, Expr};
use crate::layout;
use crate::layout::{CellModel, CellView};
use crate::netlist;
use crate::netlist::{MatchGroup, MatchKind, Net, NetModel, Netlist, PinModel, SymmetryAxis};
use crate::place;
use crate::place::Placement;
use crate::route;
use crate::single;
use crate::single::{Single, EPSILON_BITS, HALF_BITS, MINUS_ONE_BITS, ONE_BITS, TWO_BITS};
use crate::text;
use klayout_core::Library;
use rlx_ir::Graph;
use vstd::prelude::*;
use vstd::string::*;

verus! {

/// The input for the sharpness of the lengths of nets.
pub const HPWL_BETA_INPUT: &'static str = "hpwl_beta";

/// The input for the sharpness of overlaps.
pub const DENSITY_BETA_INPUT: &'static str = "density_beta";

/// The parameter for all horizontal positions together.
pub const POSITIONS_X_PARAM: &'static str = "positions_x";

/// The parameter for all vertical positions together.
pub const POSITIONS_Y_PARAM: &'static str = "positions_y";

/// 1e-4.
pub const BETA_HPWL_DEFAULT_BITS: u32 = 0x38d1_b717;

/// 1e-3.
pub const BETA_DENSITY_DEFAULT_BITS: u32 = 0x3a83_126f;

// ── numbers in a graph ─────────────────────────────────────────────

/// The bytes of a number, lowest first.
#[verifier::opaque]
pub open spec fn le_bytes(v: Single) -> Seq<u8> {
    let b = v.bits;
    seq![
        (b % 256) as u8,
        (b / 256 % 256) as u8,
        (b / 0x1_0000 % 256) as u8,
        (b / 0x100_0000) as u8,
    ]
}

/// The bytes of some numbers, one after the other.
pub open spec fn bytes_of(vs: Seq<Single>) -> Seq<u8>
    decreases vs.len(),
{
    if vs.len() == 0 {
        Seq::empty()
    } else {
        bytes_of(vs.drop_last()) + le_bytes(vs.last())
    }
}

fn push_le_bytes(out: &mut Vec<u8>, v: Single)
    ensures
        final(out)@ == old(out)@ + le_bytes(v),
{
    proof {
        reveal(le_bytes);
    }
    let b: u32 = v.bits;
    let ghost before = out@;
    out.push((b % 256) as u8);
    out.push((b / 256 % 256) as u8);
    out.push((b / 0x1_0000 % 256) as u8);
    out.push((b / 0x100_0000) as u8);
    assert(out@ =~= before + le_bytes(v));
}

fn to_bytes(vs: &Vec<Single>) -> (res: Vec<u8>)
    ensures
        res@ == bytes_of(vs@),
{
    let mut out: Vec<u8> = Vec::new();
    let mut i: usize = 0;
    assert(vs@.take(0) =~= Seq::empty());
    while i < vs.len()
        invariant
            i <= vs.len(),
            out@ == bytes_of(vs@.take(i as int)),
        decreases vs.len() - i,
    {
        push_le_bytes(&mut out, vs[i]);
        i = i + 1;
        assert(vs@.take(i as int).drop_last() =~= vs@.take(i - 1));
    }
    assert(vs@.take(vs@.len() as int) =~= vs@);
    out
}

/// A number as an expression.
pub open spec fn number(v: Single, s: Seq<usize>) -> Expr {
    graph::constant(le_bytes(v), s)
}

/// Numbers as an expression.
pub open spec fn numbers(vs: Seq<Single>, s: Seq<usize>) -> Expr {
    graph::constant(bytes_of(vs), s)
}

/// The extents of a single number.
pub open spec fn scalar() -> Seq<usize> {
    seq![1usize]
}

pub(crate) fn dims1(a: usize) -> (res: Vec<usize>)
    ensures
        res@ == seq![a],
{
    let mut v: Vec<usize> = Vec::new();
    v.push(a);
    assert(v@ =~= seq![a]);
    v
}

pub(crate) fn dims2(a: usize, b: usize) -> (res: Vec<usize>)
    ensures
        res@ == seq![a, b],
{
    let mut v: Vec<usize> = Vec::new();
    v.push(a);
    v.push(b);
    assert(v@ =~= seq![a, b]);
    v
}

pub(crate) fn dims3(a: usize, b: usize, c: usize) -> (res: Vec<usize>)
    ensures
        res@ == seq![a, b, c],
{
    let mut v: Vec<usize> = Vec::new();
    v.push(a);
    v.push(b);
    v.push(c);
    assert(v@ =~= seq![a, b, c]);
    v
}

pub(crate) fn put_number(g: &mut Graph, v: Single, s: &Vec<usize>) -> (id: u32)
    requires
        graph::sound(*old(g)),
        graph::has_room(*old(g), 1),
    ensures
        graph::grown(*old(g), *final(g), 1),
        graph::stands(*final(g), id, number(v, s@)),
{
    let mut data: Vec<u8> = Vec::new();
    push_le_bytes(&mut data, v);
    assert(data@ =~= le_bytes(v));
    graph::put_constant(g, data, s)
}

pub(crate) fn put_numbers(g: &mut Graph, vs: &Vec<Single>, s: &Vec<usize>) -> (id: u32)
    requires
        graph::sound(*old(g)),
        graph::has_room(*old(g), 1),
    ensures
        graph::grown(*old(g), *final(g), 1),
        graph::stands(*final(g), id, numbers(vs@, s@)),
{
    graph::put_constant(g, to_bytes(vs), s)
}

/// A sum so far with one more term.
pub open spec fn plus(acc: Option<Expr>, e: Expr, s: Seq<usize>) -> Expr {
    match acc {
        Some(a) => graph::bin(BinaryOp::Add, a, e, s),
        None => e,
    }
}

/// The expression of a sum so far.
pub open spec fn opt_at(g: Graph, acc: Option<u32>) -> Option<Expr> {
    match acc {
        Some(a) => Some(graph::at(g, a)),
        None => None,
    }
}

/// Whether a sum so far is a node of a graph.
pub open spec fn opt_node(g: Graph, acc: Option<u32>) -> bool {
    acc matches Some(a) ==> graph::is_node(g, a)
}

pub(crate) fn put_plus(g: &mut Graph, acc: Option<u32>, e: u32, s: &Vec<usize>) -> (id: u32)
    requires
        graph::sound(*old(g)),
        graph::has_room(*old(g), 1),
        opt_node(*old(g), acc),
        graph::is_node(*old(g), e),
    ensures
        graph::grown(*old(g), *final(g), 1),
        graph::stands(*final(g), id, plus(opt_at(*old(g), acc), graph::at(*old(g), e), s@)),
{
    match acc {
        Some(a) => graph::put_binary(g, BinaryOp::Add, a, e, s),
        None => e,
    }
}

// ── the span of some positions ─────────────────────────────────────

/// The sum of the exponentials of the first `n` expressions times `b`.
pub open spec fn exp_sum(xs: Seq<Expr>, b: Expr, s: Seq<usize>, n: int) -> Option<Expr>
    decreases n,
{
    if n <= 0 {
        None
    } else {
        Some(
            plus(
                exp_sum(xs, b, s, n - 1),
                graph::act(Activation::Exp, graph::bin(BinaryOp::Mul, xs[n - 1], b, s), s),
                s,
            ),
        )
    }
}

/// The logarithm of the sum of the exponentials of some expressions times `b`, times
/// `k`.
pub open spec fn log_sum(xs: Seq<Expr>, b: Expr, k: Expr, s: Seq<usize>) -> Expr {
    graph::bin(
        BinaryOp::Mul,
        graph::act(Activation::Log, exp_sum(xs, b, s, xs.len() as int)->0, s),
        k,
        s,
    )
}

/// A smooth stand-in for the distance from the least to the greatest of some
/// expressions: the logarithms of sums of exponentials, of sharpness `beta` and
/// `-beta`.
pub open spec fn span(xs: Seq<Expr>, beta: Expr, s: Seq<usize>) -> Expr {
    let minus = number(Single { bits: MINUS_ONE_BITS }, s);
    let neg_beta = graph::bin(BinaryOp::Mul, beta, minus, s);
    let inv = graph::bin(BinaryOp::Div, number(Single { bits: ONE_BITS }, s), beta, s);
    let neg_inv = graph::bin(BinaryOp::Mul, inv, minus, s);
    graph::bin(
        BinaryOp::Sub,
        log_sum(xs, beta, inv, s),
        log_sum(xs, neg_beta, neg_inv, s),
        s,
    )
}

pub proof fn lemma_all_at(before: Graph, after: Graph, cost: nat, ids: Seq<u32>)
    requires
        graph::grown(before, after, cost),
        graph::are_nodes(before, ids),
    ensures
        graph::are_nodes(after, ids),
        graph::all_at(after, ids) == graph::all_at(before, ids),
{
    assert forall|i: int| 0 <= i < ids.len() implies graph::is_node(after, #[trigger] ids[i])
        && graph::at(after, ids[i]) == graph::at(before, ids[i]) by {
        assert(graph::is_node(before, ids[i]));
    }
    assert(graph::all_at(after, ids) =~= graph::all_at(before, ids));
}

fn put_exp_sum(g: &mut Graph, xs: &Vec<u32>, b: u32, s: &Vec<usize>) -> (id: u32)
    requires
        graph::sound(*old(g)),
        graph::has_room(*old(g), 3 * xs@.len()),
        xs@.len() > 0,
        graph::are_nodes(*old(g), xs@),
        graph::is_node(*old(g), b),
    ensures
        graph::grown(*old(g), *final(g), 3 * xs@.len()),
        graph::stands(
            *final(g),
            id,
            exp_sum(
                graph::all_at(*old(g), xs@),
                graph::at(*old(g), b),
                s@,
                xs@.len() as int,
            )->0,
        ),
{
    let ghost g0 = *g;
    let ghost es = graph::all_at(g0, xs@);
    let mut acc: Option<u32> = None;
    let mut i: usize = 0;
    while i < xs.len()
        invariant
            i <= xs@.len(),
            es == graph::all_at(g0, xs@),
            graph::are_nodes(g0, xs@),
            graph::is_node(g0, b),
            graph::has_room(g0, 3 * xs@.len()),
            graph::grown(g0, *g, (3 * i) as nat),
            opt_node(*g, acc),
            opt_at(*g, acc) == exp_sum(es, graph::at(g0, b), s@, i as int),
        decreases xs@.len() - i,
    {
        let ghost g1 = *g;
        assert(graph::is_node(g0, xs@[i as int]));
        assert(es[i as int] == graph::at(g1, xs@[i as int]));
        let bx: u32 = graph::put_binary(g, BinaryOp::Mul, xs[i], b, s);
        let ex: u32 = graph::put_activation(g, Activation::Exp, bx, s);
        let id: u32 = put_plus(g, acc, ex, s);
        acc = Some(id);
        i = i + 1;
    }
    acc.unwrap()
}

fn put_log_sum(g: &mut Graph, xs: &Vec<u32>, b: u32, k: u32, s: &Vec<usize>) -> (id: u32)
    requires
        graph::sound(*old(g)),
        graph::has_room(*old(g), 3 * xs@.len() + 2),
        xs@.len() > 0,
        graph::are_nodes(*old(g), xs@),
        graph::is_node(*old(g), b),
        graph::is_node(*old(g), k),
    ensures
        graph::grown(*old(g), *final(g), 3 * xs@.len() + 2),
        graph::stands(
            *final(g),
            id,
            log_sum(
                graph::all_at(*old(g), xs@),
                graph::at(*old(g), b),
                graph::at(*old(g), k),
                s@,
            ),
        ),
{
    assert(graph::all_at(*g, xs@).len() == xs@.len());
    let sum: u32 = put_exp_sum(g, xs, b, s);
    let log: u32 = graph::put_activation(g, Activation::Log, sum, s);
    graph::put_binary(g, BinaryOp::Mul, log, k, s)
}

fn put_span(g: &mut Graph, xs: &Vec<u32>, beta: u32, s: &Vec<usize>) -> (id: u32)
    requires
        graph::sound(*old(g)),
        graph::has_room(*old(g), 6 * xs@.len() + 10),
        xs@.len() > 0,
        graph::are_nodes(*old(g), xs@),
        graph::is_node(*old(g), beta),
    ensures
        graph::grown(*old(g), *final(g), 6 * xs@.len() + 10),
        graph::stands(
            *final(g),
            id,
            span(graph::all_at(*old(g), xs@), graph::at(*old(g), beta), s@),
        ),
{
    let ghost g0 = *g;
    let one: u32 = put_number(g, Single { bits: ONE_BITS }, s);
    let minus: u32 = put_number(g, Single { bits: MINUS_ONE_BITS }, s);
    let neg_beta: u32 = graph::put_binary(g, BinaryOp::Mul, beta, minus, s);
    let inv: u32 = graph::put_binary(g, BinaryOp::Div, one, beta, s);
    let neg_inv: u32 = graph::put_binary(g, BinaryOp::Mul, inv, minus, s);
    let ghost g1 = *g;
    proof {
        lemma_all_at(g0, g1, 5, xs@);
    }
    let smax: u32 = put_log_sum(g, xs, beta, inv, s);
    let ghost g2 = *g;
    proof {
        lemma_all_at(g1, g2, 3 * xs@.len() + 2, xs@);
    }
    let smin: u32 = put_log_sum(g, xs, neg_beta, neg_inv, s);
    graph::put_binary(g, BinaryOp::Sub, smax, smin, s)
}

// ── where cells are ────────────────────────────────────────────────

/// Where cells are: one node for each position, or one for all of them.
#[derive(Debug)]
pub enum Positions {
    Each(Vec<u32>, Vec<u32>),
    Together(u32, u32),
}

impl Positions {
    /// Horizontal and vertical position of the `i`-th cell.
    pub open spec fn of(self, g: Graph, i: int) -> (Expr, Expr) {
        match self {
            Positions::Each(xs, ys) => (graph::at(g, xs@[i]), graph::at(g, ys@[i])),
            Positions::Together(x, y) => (
                graph::narrow(0, i as usize, 1, graph::at(g, x), scalar()),
                graph::narrow(0, i as usize, 1, graph::at(g, y), scalar()),
            ),
        }
    }

    pub open spec fn all(self, g: Graph, n: nat) -> Seq<(Expr, Expr)> {
        Seq::new(n, |i: int| self.of(g, i))
    }

    /// Whether there are positions for `n` cells.
    pub open spec fn cover(self, g: Graph, n: nat) -> bool {
        match self {
            Positions::Each(xs, ys) => xs@.len() == n && ys@.len() == n && graph::are_nodes(
                g,
                xs@,
            ) && graph::are_nodes(g, ys@),
            Positions::Together(x, y) => graph::is_node(g, x) && graph::is_node(g, y),
        }
    }
}

proof fn lemma_positions(before: Graph, after: Graph, cost: nat, p: Positions, n: nat)
    requires
        graph::grown(before, after, cost),
        p.cover(before, n),
    ensures
        p.cover(after, n),
        p.all(after, n) == p.all(before, n),
{
    match p {
        Positions::Each(xs, ys) => {
            lemma_all_at(before, after, cost, xs@);
            lemma_all_at(before, after, cost, ys@);
            assert forall|i: int| 0 <= i < n implies #[trigger] p.of(after, i) == p.of(
                before,
                i,
            ) by {
                assert(graph::is_node(before, xs@[i]));
                assert(graph::is_node(before, ys@[i]));
            }
        },
        Positions::Together(x, y) => {
            assert(graph::at(after, x) == graph::at(before, x));
            assert(graph::at(after, y) == graph::at(before, y));
        },
    }
    assert(p.all(after, n) =~= p.all(before, n));
}

fn put_position(g: &mut Graph, p: &Positions, i: usize, n: Ghost<nat>) -> (res: (u32, u32))
    requires
        graph::sound(*old(g)),
        graph::has_room(*old(g), 2),
        p.cover(*old(g), n@),
        i < n@,
    ensures
        graph::grown(*old(g), *final(g), 2),
        graph::stands(*final(g), res.0, p.of(*old(g), i as int).0),
        graph::stands(*final(g), res.1, p.of(*old(g), i as int).1),
{
    match p {
        Positions::Each(xs, ys) => {
            assert(graph::is_node(*g, xs@[i as int]));
            assert(graph::is_node(*g, ys@[i as int]));
            (xs[i], ys[i])
        },
        Positions::Together(x, y) => {
            let s = dims1(1);
            let a: u32 = graph::put_narrow(g, 0, i, 1, *x, &s);
            let b: u32 = graph::put_narrow(g, 0, i, 1, *y, &s);
            (a, b)
        },
    }
}

// ── the lengths of nets ────────────────────────────────────────────

/// Where the port of a pin lies in its cell, if it is on one.
pub open spec fn pin_offset(pin: PinModel, cells: Seq<CellModel>) -> Option<(Single, Single)> {
    if pin.instance >= cells.len() {
        None
    } else {
        match route::port_named(cells[pin.instance as int].ports, pin.port) {
            None => None,
            Some(p) => Some((single::of_int(p.center.x as int), single::of_int(p.center.y as int))),
        }
    }
}

pub(crate) fn find_offset(pin: &netlist::PinRef, cells: &Vec<CellView>) -> (res: Option<(Single, Single)>)
    ensures
        res == pin_offset(pin.model(), layout::cell_models(cells@)),
{
    let ghost ms = layout::cell_models(cells@);
    assert(ms.len() == cells@.len());
    if pin.instance >= cells.len() {
        return None;
    }
    assert(ms[pin.instance as int] == cells@[pin.instance as int].model());
    match route::find_port(&cells[pin.instance].ports, pin.port.as_str()) {
        None => None,
        Some(p) => Some((Single::from_i64(p.center.x), Single::from_i64(p.center.y))),
    }
}

/// Whether every pin is on a port.
pub open spec fn resolves(pins: Seq<PinModel>, cells: Seq<CellModel>) -> bool {
    forall|k: int| 0 <= k < pins.len() ==> pin_offset(#[trigger] pins[k], cells) is Some
}

/// Where a pin is: the position of its cell and the offset of its port.
pub open spec fn pin_x(
    pin: PinModel,
    cells: Seq<CellModel>,
    ps: Seq<(Expr, Expr)>,
    s: Seq<usize>,
) -> Expr {
    graph::bin(
        BinaryOp::Add,
        ps[pin.instance as int].0,
        number((pin_offset(pin, cells)->0).0, s),
        s,
    )
}

pub open spec fn pin_y(
    pin: PinModel,
    cells: Seq<CellModel>,
    ps: Seq<(Expr, Expr)>,
    s: Seq<usize>,
) -> Expr {
    graph::bin(
        BinaryOp::Add,
        ps[pin.instance as int].1,
        number((pin_offset(pin, cells)->0).1, s),
        s,
    )
}

/// Where the first `n` pins are.
pub open spec fn pins_x(
    pins: Seq<PinModel>,
    cells: Seq<CellModel>,
    ps: Seq<(Expr, Expr)>,
    s: Seq<usize>,
    n: nat,
) -> Seq<Expr> {
    Seq::new(n, |k: int| pin_x(pins[k], cells, ps, s))
}

pub open spec fn pins_y(
    pins: Seq<PinModel>,
    cells: Seq<CellModel>,
    ps: Seq<(Expr, Expr)>,
    s: Seq<usize>,
    n: nat,
) -> Seq<Expr> {
    Seq::new(n, |k: int| pin_y(pins[k], cells, ps, s))
}

/// Whether a weight is as good as one.
pub open spec fn near_one(w: Single) -> bool {
    w.sub_spec(Single { bits: ONE_BITS }).abs_spec().below(Single { bits: EPSILON_BITS })
}

pub(crate) fn is_near_one(w: Single) -> (res: bool)
    ensures
        res == near_one(w),
{
    w.sub(Single { bits: ONE_BITS }).abs().lt(Single { bits: EPSILON_BITS })
}

/// A term with a weight, unless that is as good as one.
pub open spec fn weighted(e: Expr, w: Single, s: Seq<usize>) -> Expr {
    if near_one(w) {
        e
    } else {
        graph::bin(BinaryOp::Mul, e, number(w, s), s)
    }
}

fn put_weighted(g: &mut Graph, e: u32, w: Single, s: &Vec<usize>) -> (id: u32)
    requires
        graph::sound(*old(g)),
        graph::has_room(*old(g), 2),
        graph::is_node(*old(g), e),
    ensures
        graph::grown(*old(g), *final(g), 2),
        graph::stands(*final(g), id, weighted(graph::at(*old(g), e), w, s@)),
{
    if is_near_one(w) {
        e
    } else {
        let k: u32 = put_number(g, w, s);
        graph::put_binary(g, BinaryOp::Mul, e, k, s)
    }
}

/// The length of a net: its extent in one direction and in the other.
pub open spec fn net_length(
    pins: Seq<PinModel>,
    cells: Seq<CellModel>,
    ps: Seq<(Expr, Expr)>,
    beta: Expr,
    s: Seq<usize>,
) -> Expr {
    graph::bin(
        BinaryOp::Add,
        span(pins_x(pins, cells, ps, s, pins.len()), beta, s),
        span(pins_y(pins, cells, ps, s, pins.len()), beta, s),
        s,
    )
}

/// Nodes that the length of a net takes, at most.
pub open spec fn net_cost(net: NetModel) -> nat {
    18 * net.pins.len() + 24
}

pub open spec fn nets_cost(nets: Seq<NetModel>, n: int) -> nat
    decreases n,
{
    if n <= 0 {
        0
    } else {
        nets_cost(nets, n - 1) + net_cost(nets[n - 1])
    }
}

proof fn lemma_nets_cost(nets: Seq<NetModel>, k: int, n: int)
    requires
        0 <= k <= n,
    ensures
        nets_cost(nets, k) <= nets_cost(nets, n),
    decreases n,
{
    if k < n {
        lemma_nets_cost(nets, k, n - 1);
    }
}

/// The nodes of the first pins of a net, if they are on ports.
fn put_pins(
    g: &mut Graph,
    net: &Net,
    cells: &Vec<CellView>,
    p: &Positions,
    s: &Vec<usize>,
) -> (res: Option<(Vec<u32>, Vec<u32>)>)
    requires
        graph::sound(*old(g)),
        graph::has_room(*old(g), 6 * net.pins@.len()),
        p.cover(*old(g), cells@.len()),
        s@ == scalar(),
    ensures
        graph::grown(*old(g), *final(g), 6 * net.pins@.len()),
        res is Some <==> resolves(net.model().pins, layout::cell_models(cells@)),
        res matches Some((xs, ys)) ==> {
            let ms = layout::cell_models(cells@);
            let ps = p.all(*old(g), cells@.len());
            &&& graph::are_nodes(*final(g), xs@)
            &&& graph::are_nodes(*final(g), ys@)
            &&& graph::all_at(*final(g), xs@) == pins_x(
                net.model().pins,
                ms,
                ps,
                s@,
                net.pins@.len(),
            )
            &&& graph::all_at(*final(g), ys@) == pins_y(
                net.model().pins,
                ms,
                ps,
                s@,
                net.pins@.len(),
            )
        },
{
    let ghost g0 = *g;
    let ghost ms = layout::cell_models(cells@);
    let ghost n = cells@.len();
    let ghost ps = p.all(g0, n);
    let ghost pins = net.model().pins;
    let mut xs: Vec<u32> = Vec::new();
    let mut ys: Vec<u32> = Vec::new();
    let mut k: usize = 0;
    while k < net.pins.len()
        invariant
            k <= net.pins@.len(),
            g0 == *old(g),
            pins == netlist::pin_models(net.pins@),
            pins == net.model().pins,
            ms == layout::cell_models(cells@),
            n == cells@.len(),
            ps == p.all(g0, n),
            s@ == scalar(),
            graph::has_room(g0, 6 * net.pins@.len()),
            p.cover(g0, n),
            graph::grown(g0, *g, (6 * k) as nat),
            forall|j: int| 0 <= j < k ==> pin_offset(#[trigger] pins[j], ms) is Some,
            graph::are_nodes(*g, xs@),
            graph::are_nodes(*g, ys@),
            graph::all_at(*g, xs@) =~= pins_x(pins, ms, ps, s@, k as nat),
            graph::all_at(*g, ys@) =~= pins_y(pins, ms, ps, s@, k as nat),
        decreases net.pins@.len() - k,
    {
        let ghost g1 = *g;
        assert(pins[k as int] == net.pins@[k as int].model());
        match find_offset(&net.pins[k], cells) {
            None => {
                assert(pin_offset(pins[k as int], ms) is None);
                return None;
            },
            Some((ox, oy)) => {
                let i: usize = net.pins[k].instance;
                proof {
                    lemma_positions(g0, g1, (6 * k) as nat, *p, n);
                    assert(p.all(g1, n)[i as int] == p.all(g0, n)[i as int]);
                }
                let (x, y): (u32, u32) = put_position(g, p, i, Ghost(n));
                let cx: u32 = put_number(g, ox, s);
                let cy: u32 = put_number(g, oy, s);
                let px: u32 = graph::put_binary(g, BinaryOp::Add, x, cx, s);
                let py: u32 = graph::put_binary(g, BinaryOp::Add, y, cy, s);
                let ghost g2 = *g;
                let ghost xs_before = xs@;
                let ghost ys_before = ys@;
                proof {
                    graph::growing_adds_up(g0, g1, g2, (6 * k) as nat, 6);
                    lemma_all_at(g1, g2, 6, xs@);
                    lemma_all_at(g1, g2, 6, ys@);
                }
                xs.push(px);
                ys.push(py);
                proof {
                    assert(graph::all_at(g2, xs@) =~= graph::all_at(g2, xs_before).push(
                        graph::at(g2, px),
                    ));
                    assert(graph::all_at(g2, ys@) =~= graph::all_at(g2, ys_before).push(
                        graph::at(g2, py),
                    ));
                    assert(graph::at(g2, px) == pin_x(pins[k as int], ms, ps, s@));
                    assert(graph::at(g2, py) == pin_y(pins[k as int], ms, ps, s@));
                }
            },
        }
        k = k + 1;
    }
    Some((xs, ys))
}

/// The sum of the lengths of the first `n` nets. Nets of fewer than two pins, or with a
/// pin on no port, do not count.
pub open spec fn lengths(
    nets: Seq<NetModel>,
    cells: Seq<CellModel>,
    ps: Seq<(Expr, Expr)>,
    beta: Expr,
    s: Seq<usize>,
    with_weights: bool,
    n: int,
) -> Option<Expr>
    decreases n,
{
    if n <= 0 {
        None
    } else {
        let net = nets[n - 1];
        let before = lengths(nets, cells, ps, beta, s, with_weights, n - 1);
        if net.pins.len() < 2 || !resolves(net.pins, cells) {
            before
        } else {
            let e = net_length(net.pins, cells, ps, beta, s);
            Some(
                plus(
                    before,
                    if with_weights {
                        weighted(e, net.weight, s)
                    } else {
                        e
                    },
                    s,
                ),
            )
        }
    }
}

/// A sum, or zero where it has no terms.
pub open spec fn or_zero(e: Option<Expr>, s: Seq<usize>) -> Expr {
    match e {
        Some(x) => x,
        None => number(Single { bits: 0 }, s),
    }
}

fn put_or_zero(g: &mut Graph, acc: Option<u32>, s: &Vec<usize>) -> (id: u32)
    requires
        graph::sound(*old(g)),
        graph::has_room(*old(g), 1),
        opt_node(*old(g), acc),
    ensures
        graph::grown(*old(g), *final(g), 1),
        graph::stands(*final(g), id, or_zero(opt_at(*old(g), acc), s@)),
{
    match acc {
        Some(a) => a,
        None => put_number(g, Single { bits: 0 }, s),
    }
}

fn put_net(
    g: &mut Graph,
    net: &Net,
    cells: &Vec<CellView>,
    p: &Positions,
    beta: u32,
    s: &Vec<usize>,
    with_weights: bool,
    acc: Option<u32>,
) -> (res: Option<u32>)
    requires
        graph::sound(*old(g)),
        graph::has_room(*old(g), net_cost(net.model())),
        p.cover(*old(g), cells@.len()),
        graph::is_node(*old(g), beta),
        opt_node(*old(g), acc),
        s@ == scalar(),
    ensures
        graph::grown(*old(g), *final(g), net_cost(net.model())),
        opt_node(*final(g), res),
        opt_at(*final(g), res) == (if net.pins@.len() < 2 || !resolves(
            net.model().pins,
            layout::cell_models(cells@),
        ) {
            opt_at(*old(g), acc)
        } else {
            let e = net_length(
                net.model().pins,
                layout::cell_models(cells@),
                p.all(*old(g), cells@.len()),
                graph::at(*old(g), beta),
                s@,
            );
            Some(
                plus(
                    opt_at(*old(g), acc),
                    if with_weights {
                        weighted(e, net.weight, s@)
                    } else {
                        e
                    },
                    s@,
                ),
            )
        }),
{
    let ghost g0 = *g;
    assert(net.model().pins.len() == net.pins@.len());
    if net.pins.len() < 2 {
        assert(graph::goes_on(graph::graph_nodes(g0), graph::graph_nodes(g0)));
        return acc;
    }
    match put_pins(g, net, cells, p, s) {
        None => acc,
        Some((xs, ys)) => {
            let ghost g1 = *g;
            assert(graph::all_at(g1, xs@).len() == xs@.len());
            assert(graph::all_at(g1, ys@).len() == ys@.len());
            let sx: u32 = put_span(g, &xs, beta, s);
            let ghost g2 = *g;
            proof {
                lemma_all_at(g1, g2, 6 * xs@.len() + 10, ys@);
            }
            let sy: u32 = put_span(g, &ys, beta, s);
            let raw: u32 = graph::put_binary(g, BinaryOp::Add, sx, sy, s);
            let e: u32 = if with_weights {
                put_weighted(g, raw, net.weight, s)
            } else {
                raw
            };
            Some(put_plus(g, acc, e, s))
        },
    }
}

pub(crate) fn put_lengths(
    g: &mut Graph,
    netlist: &Netlist,
    cells: &Vec<CellView>,
    p: &Positions,
    beta: u32,
    s: &Vec<usize>,
    with_weights: bool,
) -> (id: u32)
    requires
        graph::sound(*old(g)),
        graph::has_room(
            *old(g),
            nets_cost(netlist::net_models(netlist.nets@), netlist.nets@.len() as int) + 1,
        ),
        p.cover(*old(g), cells@.len()),
        graph::is_node(*old(g), beta),
        s@ == scalar(),
    ensures
        graph::grown(
            *old(g),
            *final(g),
            nets_cost(netlist::net_models(netlist.nets@), netlist.nets@.len() as int) + 1,
        ),
        graph::stands(
            *final(g),
            id,
            or_zero(
                lengths(
                    netlist::net_models(netlist.nets@),
                    layout::cell_models(cells@),
                    p.all(*old(g), cells@.len()),
                    graph::at(*old(g), beta),
                    s@,
                    with_weights,
                    netlist.nets@.len() as int,
                ),
                s@,
            ),
        ),
{
    let ghost g0 = *g;
    let ghost nets = netlist::net_models(netlist.nets@);
    let ghost ms = layout::cell_models(cells@);
    let ghost n = cells@.len();
    let ghost ps = p.all(g0, n);
    let ghost b = graph::at(g0, beta);
    let mut acc: Option<u32> = None;
    let mut i: usize = 0;
    while i < netlist.nets.len()
        invariant
            i <= netlist.nets@.len(),
            nets == netlist::net_models(netlist.nets@),
            ms == layout::cell_models(cells@),
            n == cells@.len(),
            ps == p.all(g0, n),
            b == graph::at(g0, beta),
            s@ == scalar(),
            graph::has_room(g0, nets_cost(nets, netlist.nets@.len() as int) + 1),
            p.cover(g0, n),
            graph::is_node(g0, beta),
            graph::grown(g0, *g, nets_cost(nets, i as int)),
            opt_node(*g, acc),
            opt_at(*g, acc) == lengths(nets, ms, ps, b, s@, with_weights, i as int),
        decreases netlist.nets@.len() - i,
    {
        let ghost g1 = *g;
        proof {
            assert(nets[i as int] == netlist.nets@[i as int].model());
            lemma_nets_cost(nets, i + 1, netlist.nets@.len() as int);
            lemma_positions(g0, g1, nets_cost(nets, i as int), *p, n);
            assert(graph::at(g1, beta) == b);
            assert(nets[i as int].pins.len() == netlist.nets@[i as int].pins@.len());
        }
        acc = put_net(g, &netlist.nets[i], cells, p, beta, s, with_weights, acc);
        proof {
            graph::growing_adds_up(
                g0,
                g1,
                *g,
                nets_cost(nets, i as int),
                net_cost(nets[i as int]),
            );
        }
        i = i + 1;
    }
    put_or_zero(g, acc, s)
}

// ── the overlaps of cells ──────────────────────────────────────────

/// Half the width and half the height of a cell.
pub open spec fn half_dims(c: CellModel) -> (Single, Single) {
    let half = Single { bits: HALF_BITS };
    (
        single::of_int(c.bbox.max.x - c.bbox.min.x).mul_spec(half),
        single::of_int(c.bbox.max.y - c.bbox.min.y).mul_spec(half),
    )
}

/// Whether width and height of every cell fit.
pub open spec fn extents_fit(cells: Seq<CellModel>) -> bool {
    forall|i: int|
        #![trigger cells[i]]
        0 <= i < cells.len() ==> geom::is_coord(cells[i].bbox.max.x - cells[i].bbox.min.x)
            && geom::is_coord(cells[i].bbox.max.y - cells[i].bbox.min.y)
}

/// Says whether a library knows the cells of a design and their extents fit.
pub fn check_extents(netlist: &Netlist, lib: &Library) -> (res: bool)
    ensures
        res == (flow::knows(*lib, *netlist, Set::empty()) && extents_fit(
            flow::cells_of(*lib, *netlist),
        )),
{
    if !flow::check_cells(lib, netlist) {
        return false;
    }
    let cells = flow::read_cells(lib, netlist);
    let ghost ms = layout::cell_models(cells@);
    let mut i: usize = 0;
    while i < cells.len()
        invariant
            i <= cells@.len(),
            ms == layout::cell_models(cells@),
            ms == flow::cells_of(*lib, *netlist),
            extents_fit(ms.take(i as int)),
        decreases cells@.len() - i,
    {
        let b: geom::Bbox = cells[i].bbox;
        assert(ms[i as int].bbox == b);
        if geom::to_coord(b.max.x as i128 - b.min.x as i128).is_none() || geom::to_coord(
            b.max.y as i128 - b.min.y as i128,
        ).is_none() {
            return false;
        }
        let ghost before = ms.take(i as int);
        i = i + 1;
        assert forall|k: int| #![trigger ms.take(i as int)[k]] 0 <= k < i implies geom::is_coord(
            ms.take(i as int)[k].bbox.max.x - ms.take(i as int)[k].bbox.min.x,
        ) && geom::is_coord(ms.take(i as int)[k].bbox.max.y - ms.take(i as int)[k].bbox.min.y) by {
            if k < i - 1 {
                assert(ms.take(i as int)[k] == before[k]);
            }
        }
    }
    assert(ms.take(i as int) =~= ms);
    true
}

pub open spec fn all_half_dims(cells: Seq<CellModel>) -> Seq<(Single, Single)> {
    cells.map_values(|c: CellModel| half_dims(c))
}

pub(crate) fn half_dims_of(cells: &Vec<CellView>) -> (res: Vec<(Single, Single)>)
    requires
        extents_fit(layout::cell_models(cells@)),
    ensures
        res@ == all_half_dims(layout::cell_models(cells@)),
{
    let ghost ms = layout::cell_models(cells@);
    let half = Single { bits: HALF_BITS };
    let mut out: Vec<(Single, Single)> = Vec::new();
    let mut i: usize = 0;
    while i < cells.len()
        invariant
            i <= cells@.len(),
            ms == layout::cell_models(cells@),
            extents_fit(ms),
            half == (Single { bits: HALF_BITS }),
            out@ =~= all_half_dims(ms).take(i as int),
        decreases cells@.len() - i,
    {
        assert(ms[i as int] == cells@[i as int].model());
        let b = cells[i].bbox;
        let w: i64 = b.max.x - b.min.x;
        let h: i64 = b.max.y - b.min.y;
        out.push((Single::from_i64(w).mul(half), Single::from_i64(h).mul(half)));
        i = i + 1;
    }
    assert(out@ =~= all_half_dims(ms));
    out
}

/// A smooth stand-in for the positive part of an expression.
pub open spec fn relu(z: Expr, beta: Expr, s: Seq<usize>) -> Expr {
    graph::bin(
        BinaryOp::Mul,
        z,
        graph::act(Activation::Sigmoid, graph::bin(BinaryOp::Mul, z, beta, s), s),
        s,
    )
}

pub(crate) fn put_relu(g: &mut Graph, z: u32, beta: u32, s: &Vec<usize>) -> (id: u32)
    requires
        graph::sound(*old(g)),
        graph::has_room(*old(g), 3),
        graph::is_node(*old(g), z),
        graph::is_node(*old(g), beta),
    ensures
        graph::grown(*old(g), *final(g), 3),
        graph::stands(
            *final(g),
            id,
            relu(graph::at(*old(g), z), graph::at(*old(g), beta), s@),
        ),
{
    let bz: u32 = graph::put_binary(g, BinaryOp::Mul, z, beta, s);
    let sig: u32 = graph::put_activation(g, Activation::Sigmoid, bz, s);
    graph::put_binary(g, BinaryOp::Mul, z, sig, s)
}

/// A smooth stand-in for the distance of two expressions; `eps` keeps it from zero.
pub open spec fn distance(d: Expr, eps: Expr, s: Seq<usize>) -> Expr {
    graph::act(
        Activation::Sqrt,
        graph::bin(BinaryOp::Add, graph::bin(BinaryOp::Mul, d, d, s), eps, s),
        s,
    )
}

pub(crate) fn put_distance(g: &mut Graph, d: u32, eps: u32, s: &Vec<usize>) -> (id: u32)
    requires
        graph::sound(*old(g)),
        graph::has_room(*old(g), 3),
        graph::is_node(*old(g), d),
        graph::is_node(*old(g), eps),
    ensures
        graph::grown(*old(g), *final(g), 3),
        graph::stands(
            *final(g),
            id,
            distance(graph::at(*old(g), d), graph::at(*old(g), eps), s@),
        ),
{
    let d2: u32 = graph::put_binary(g, BinaryOp::Mul, d, d, s);
    let sum: u32 = graph::put_binary(g, BinaryOp::Add, d2, eps, s);
    graph::put_activation(g, Activation::Sqrt, sum, s)
}

/// How far two cells overlap in one direction: half their extents less their distance,
/// where that is positive.
pub open spec fn overlap_1d(
    a: Expr,
    b: Expr,
    reach: Single,
    beta: Expr,
    s: Seq<usize>,
) -> Expr {
    let one = number(Single { bits: ONE_BITS }, s);
    relu(
        graph::bin(
            BinaryOp::Sub,
            number(reach, s),
            distance(graph::bin(BinaryOp::Sub, a, b, s), one, s),
            s,
        ),
        beta,
        s,
    )
}

/// The overlap of two cells: the product of the overlaps in both directions.
pub open spec fn overlap(
    ps: Seq<(Expr, Expr)>,
    hs: Seq<(Single, Single)>,
    beta: Expr,
    s: Seq<usize>,
    i: int,
    j: int,
) -> Expr {
    graph::bin(
        BinaryOp::Mul,
        overlap_1d(ps[i].0, ps[j].0, hs[i].0.add_spec(hs[j].0), beta, s),
        overlap_1d(ps[i].1, ps[j].1, hs[i].1.add_spec(hs[j].1), beta, s),
        s,
    )
}

/// A sum so far with the overlaps of the `i`-th cell with those from the one behind it
/// up to the `j`-th.
pub open spec fn row_overlaps(
    acc: Option<Expr>,
    ps: Seq<(Expr, Expr)>,
    hs: Seq<(Single, Single)>,
    beta: Expr,
    s: Seq<usize>,
    i: int,
    j: int,
) -> Option<Expr>
    decreases j - i,
{
    if j <= i + 1 {
        acc
    } else {
        Some(
            plus(
                row_overlaps(acc, ps, hs, beta, s, i, j - 1),
                overlap(ps, hs, beta, s, i, j - 1),
                s,
            ),
        )
    }
}

/// The sum of the overlaps of the first `i` of `n` cells with those behind them.
pub open spec fn overlaps(
    ps: Seq<(Expr, Expr)>,
    hs: Seq<(Single, Single)>,
    beta: Expr,
    s: Seq<usize>,
    n: int,
    i: int,
) -> Option<Expr>
    decreases i,
{
    if i <= 0 {
        None
    } else {
        row_overlaps(overlaps(ps, hs, beta, s, n, i - 1), ps, hs, beta, s, i - 1, n)
    }
}

#[verifier::rlimit(40)]
fn put_overlap(
    g: &mut Graph,
    a: (u32, u32),
    b: (u32, u32),
    ha: (Single, Single),
    hb: (Single, Single),
    eps: u32,
    beta: u32,
    s: &Vec<usize>,
) -> (id: u32)
    requires
        graph::sound(*old(g)),
        graph::has_room(*old(g), 19),
        graph::is_node(*old(g), a.0),
        graph::is_node(*old(g), a.1),
        graph::is_node(*old(g), b.0),
        graph::is_node(*old(g), b.1),
        graph::stands(*old(g), eps, number(Single { bits: ONE_BITS }, s@)),
        graph::is_node(*old(g), beta),
    ensures
        graph::grown(*old(g), *final(g), 19),
        graph::stands(
            *final(g),
            id,
            graph::bin(
                BinaryOp::Mul,
                overlap_1d(
                    graph::at(*old(g), a.0),
                    graph::at(*old(g), b.0),
                    ha.0.add_spec(hb.0),
                    graph::at(*old(g), beta),
                    s@,
                ),
                overlap_1d(
                    graph::at(*old(g), a.1),
                    graph::at(*old(g), b.1),
                    ha.1.add_spec(hb.1),
                    graph::at(*old(g), beta),
                    s@,
                ),
                s@,
            ),
        ),
{
    let w: u32 = put_number(g, ha.0.add(hb.0), s);
    let h: u32 = put_number(g, ha.1.add(hb.1), s);
    let dx: u32 = graph::put_binary(g, BinaryOp::Sub, a.0, b.0, s);
    let dy: u32 = graph::put_binary(g, BinaryOp::Sub, a.1, b.1, s);
    let ax: u32 = put_distance(g, dx, eps, s);
    let ay: u32 = put_distance(g, dy, eps, s);
    let zx: u32 = graph::put_binary(g, BinaryOp::Sub, w, ax, s);
    let zy: u32 = graph::put_binary(g, BinaryOp::Sub, h, ay, s);
    let rx: u32 = put_relu(g, zx, beta, s);
    let ry: u32 = put_relu(g, zy, beta, s);
    graph::put_binary(g, BinaryOp::Mul, rx, ry, s)
}

/// Nodes that the overlaps of `n` cells take, at most.
pub open spec fn overlaps_cost(n: nat) -> nat {
    20 * (n * n) + 2
}

fn put_row(
    g: &mut Graph,
    xs: &Vec<u32>,
    ys: &Vec<u32>,
    hs: &Vec<(Single, Single)>,
    eps: u32,
    beta: u32,
    s: &Vec<usize>,
    i: usize,
    acc: Option<u32>,
) -> (res: Option<u32>)
    requires
        graph::sound(*old(g)),
        graph::has_room(*old(g), 20 * xs@.len()),
        xs@.len() == ys@.len() == hs@.len(),
        i < xs@.len(),
        graph::are_nodes(*old(g), xs@),
        graph::are_nodes(*old(g), ys@),
        graph::stands(*old(g), eps, number(Single { bits: ONE_BITS }, s@)),
        graph::is_node(*old(g), beta),
        opt_node(*old(g), acc),
    ensures
        graph::grown(*old(g), *final(g), 20 * xs@.len()),
        opt_node(*final(g), res),
        opt_at(*final(g), res) == row_overlaps(
            opt_at(*old(g), acc),
            pairs_at(*old(g), xs@, ys@),
            hs@,
            graph::at(*old(g), beta),
            s@,
            i as int,
            xs@.len() as int,
        ),
{
    let ghost g0 = *g;
    let ghost ps = pairs_at(g0, xs@, ys@);
    let ghost b = graph::at(g0, beta);
    let ghost start = opt_at(g0, acc);
    let mut acc: Option<u32> = acc;
    let mut j: usize = i + 1;
    while j < xs.len()
        invariant
            i < j <= xs@.len(),
            xs@.len() == ys@.len() == hs@.len(),
            ps == pairs_at(g0, xs@, ys@),
            b == graph::at(g0, beta),
            graph::has_room(g0, 20 * xs@.len()),
            graph::are_nodes(g0, xs@),
            graph::are_nodes(g0, ys@),
            graph::stands(g0, eps, number(Single { bits: ONE_BITS }, s@)),
            graph::is_node(g0, beta),
            graph::grown(g0, *g, (20 * (j - i - 1)) as nat),
            opt_node(*g, acc),
            opt_at(*g, acc) == row_overlaps(start, ps, hs@, b, s@, i as int, j as int),
        decreases xs@.len() - j,
    {
        let ghost g1 = *g;
        proof {
            assert(graph::is_node(g0, xs@[i as int]) && graph::is_node(g0, ys@[i as int]));
            assert(graph::is_node(g0, xs@[j as int]) && graph::is_node(g0, ys@[j as int]));
            assert(graph::at(g1, xs@[i as int]) == ps[i as int].0);
            assert(graph::at(g1, ys@[i as int]) == ps[i as int].1);
            assert(graph::at(g1, xs@[j as int]) == ps[j as int].0);
            assert(graph::at(g1, ys@[j as int]) == ps[j as int].1);
            assert(graph::at(g1, beta) == b);
            assert(graph::at(g1, eps) == graph::at(g0, eps));
        }
        let e: u32 = put_overlap(
            g,
            (xs[i], ys[i]),
            (xs[j], ys[j]),
            hs[i],
            hs[j],
            eps,
            beta,
            s,
        );
        let id: u32 = put_plus(g, acc, e, s);
        acc = Some(id);
        proof {
            graph::growing_adds_up(g0, g1, *g, (20 * (j - i - 1)) as nat, 20);
        }
        j = j + 1;
    }
    acc
}

/// Positions that have a node each.
pub open spec fn pairs_at(g: Graph, xs: Seq<u32>, ys: Seq<u32>) -> Seq<(Expr, Expr)> {
    Seq::new(xs.len(), |i: int| (graph::at(g, xs[i]), graph::at(g, ys[i])))
}

proof fn lemma_pairs_at(before: Graph, after: Graph, cost: nat, xs: Seq<u32>, ys: Seq<u32>)
    requires
        graph::grown(before, after, cost),
        graph::are_nodes(before, xs),
        graph::are_nodes(before, ys),
        xs.len() == ys.len(),
    ensures
        graph::are_nodes(after, xs),
        graph::are_nodes(after, ys),
        pairs_at(after, xs, ys) == pairs_at(before, xs, ys),
{
    lemma_all_at(before, after, cost, xs);
    lemma_all_at(before, after, cost, ys);
    assert forall|i: int| 0 <= i < xs.len() implies pairs_at(after, xs, ys)[i] == pairs_at(
        before,
        xs,
        ys,
    )[i] by {
        assert(graph::is_node(before, xs[i]) && graph::is_node(before, ys[i]));
    }
    assert(pairs_at(after, xs, ys) =~= pairs_at(before, xs, ys));
}

fn put_overlaps(
    g: &mut Graph,
    cells: &Vec<CellView>,
    xs: &Vec<u32>,
    ys: &Vec<u32>,
    beta: u32,
    s: &Vec<usize>,
) -> (id: u32)
    requires
        graph::sound(*old(g)),
        graph::has_room(*old(g), overlaps_cost(cells@.len())),
        xs@.len() == ys@.len() == cells@.len(),
        graph::are_nodes(*old(g), xs@),
        graph::are_nodes(*old(g), ys@),
        graph::is_node(*old(g), beta),
        extents_fit(layout::cell_models(cells@)),
    ensures
        graph::grown(*old(g), *final(g), overlaps_cost(cells@.len())),
        graph::stands(
            *final(g),
            id,
            or_zero(
                overlaps(
                    pairs_at(*old(g), xs@, ys@),
                    all_half_dims(layout::cell_models(cells@)),
                    graph::at(*old(g), beta),
                    s@,
                    cells@.len() as int,
                    cells@.len() as int,
                ),
                s@,
            ),
        ),
{
    let ghost g0 = *g;
    let ghost ps = pairs_at(g0, xs@, ys@);
    let ghost b = graph::at(g0, beta);
    let ghost n = cells@.len() as int;
    let hs = half_dims_of(cells);
    assert(hs@.len() == cells@.len()) by {
        assert(layout::cell_models(cells@).len() == cells@.len());
    }
    let eps: u32 = put_number(g, Single { bits: ONE_BITS }, s);
    let mut acc: Option<u32> = None;
    let mut i: usize = 0;
    let ghost mut spent: nat = 1;
    while i < xs.len()
        invariant
            i <= xs@.len(),
            xs@.len() == ys@.len() == hs@.len() == cells@.len(),
            n == cells@.len(),
            ps == pairs_at(g0, xs@, ys@),
            b == graph::at(g0, beta),
            graph::has_room(g0, overlaps_cost(n as nat)),
            graph::are_nodes(g0, xs@),
            graph::are_nodes(g0, ys@),
            graph::is_node(g0, beta),
            spent == 1 + 20 * (i * n),
            graph::grown(g0, *g, spent),
            graph::stands(*g, eps, number(Single { bits: ONE_BITS }, s@)),
            opt_node(*g, acc),
            opt_at(*g, acc) == overlaps(ps, hs@, b, s@, n, i as int),
        decreases xs@.len() - i,
    {
        let ghost g1 = *g;
        proof {
            lemma_pairs_at(g0, g1, spent, xs@, ys@);
            assert(graph::at(g1, beta) == b);
            assert((i + 1) * n == i * n + n) by (nonlinear_arith);
            assert((i + 1) * n <= n * n) by (nonlinear_arith)
                requires
                    i + 1 <= n,
                    n >= 0,
            ;
        }
        acc = put_row(g, xs, ys, &hs, eps, beta, s, i, acc);
        proof {
            graph::growing_adds_up(g0, g1, *g, spent, (20 * n) as nat);
            spent = (spent + 20 * n) as nat;
            assert(graph::at(*g, eps) == graph::at(g1, eps));
        }
        i = i + 1;
    }
    assert(i * n == n * n);
    put_or_zero(g, acc, s)
}

// ── matching ───────────────────────────────────────────────────────

/// The square of an expression.
pub open spec fn square(e: Expr, s: Seq<usize>) -> Expr {
    graph::bin(BinaryOp::Mul, e, e, s)
}

/// The square of the difference of two expressions.
pub open spec fn square_of_difference(a: Expr, b: Expr, s: Seq<usize>) -> Expr {
    square(graph::bin(BinaryOp::Sub, a, b, s), s)
}

fn put_square_of_difference(g: &mut Graph, a: u32, b: u32, s: &Vec<usize>) -> (id: u32)
    requires
        graph::sound(*old(g)),
        graph::has_room(*old(g), 2),
        graph::is_node(*old(g), a),
        graph::is_node(*old(g), b),
    ensures
        graph::grown(*old(g), *final(g), 2),
        graph::stands(
            *final(g),
            id,
            square_of_difference(graph::at(*old(g), a), graph::at(*old(g), b), s@),
        ),
{
    let d: u32 = graph::put_binary(g, BinaryOp::Sub, a, b, s);
    graph::put_binary(g, BinaryOp::Mul, d, d, s)
}

/// The coordinate that an axis is about, and the other one.
pub open spec fn along(p: (Expr, Expr), axis: SymmetryAxis) -> (Expr, Expr) {
    match axis {
        SymmetryAxis::Vertical => p,
        SymmetryAxis::Horizontal => (p.1, p.0),
    }
}

/// The coordinates that an axis is about, and the other ones.
pub open spec fn along_all(xs: Seq<Expr>, ys: Seq<Expr>, axis: SymmetryAxis) -> (
    Seq<Expr>,
    Seq<Expr>,
) {
    match axis {
        SymmetryAxis::Vertical => (xs, ys),
        SymmetryAxis::Horizontal => (ys, xs),
    }
}

/// How far two cells are from mirroring each other: the squares of how far their middle
/// is from the line and of how far they are apart along it.
pub open spec fn mirror(
    p: (Expr, Expr),
    q: (Expr, Expr),
    axis: SymmetryAxis,
    coord: Single,
    s: Seq<usize>,
) -> Expr {
    let a = along(p, axis);
    let b = along(q, axis);
    graph::bin(
        BinaryOp::Add,
        square_of_difference(
            graph::bin(BinaryOp::Add, a.0, b.0, s),
            number((Single { bits: TWO_BITS }).mul_spec(coord), s),
            s,
        ),
        square_of_difference(a.1, b.1, s),
        s,
    )
}

fn put_mirror(
    g: &mut Graph,
    p: (u32, u32),
    q: (u32, u32),
    axis: SymmetryAxis,
    coord: Single,
    s: &Vec<usize>,
) -> (id: u32)
    requires
        graph::sound(*old(g)),
        graph::has_room(*old(g), 7),
        graph::is_node(*old(g), p.0),
        graph::is_node(*old(g), p.1),
        graph::is_node(*old(g), q.0),
        graph::is_node(*old(g), q.1),
    ensures
        graph::grown(*old(g), *final(g), 7),
        graph::stands(
            *final(g),
            id,
            mirror(
                (graph::at(*old(g), p.0), graph::at(*old(g), p.1)),
                (graph::at(*old(g), q.0), graph::at(*old(g), q.1)),
                axis,
                coord,
                s@,
            ),
        ),
{
    let (a, b): ((u32, u32), (u32, u32)) = match axis {
        SymmetryAxis::Vertical => (p, q),
        SymmetryAxis::Horizontal => ((p.1, p.0), (q.1, q.0)),
    };
    let two_c: u32 = put_number(g, (Single { bits: TWO_BITS }).mul(coord), s);
    let sum: u32 = graph::put_binary(g, BinaryOp::Add, a.0, b.0, s);
    let dev: u32 = put_square_of_difference(g, sum, two_c, s);
    let diff: u32 = put_square_of_difference(g, a.1, b.1, s);
    graph::put_binary(g, BinaryOp::Add, dev, diff, s)
}

/// Those of the first `k` numbers that are below `n`.
pub open spec fn valid(ids: Seq<usize>, n: nat, k: int) -> Seq<usize>
    decreases k,
{
    if k <= 0 {
        Seq::empty()
    } else if ids[k - 1] < n {
        valid(ids, n, k - 1).push(ids[k - 1])
    } else {
        valid(ids, n, k - 1)
    }
}

fn valid_of(ids: &Vec<usize>, n: usize) -> (res: Vec<usize>)
    ensures
        res@ == valid(ids@, n as nat, ids@.len() as int),
        res@.len() <= ids@.len(),
        forall|i: int| 0 <= i < res@.len() ==> #[trigger] res@[i] < n,
{
    let mut out: Vec<usize> = Vec::new();
    let mut k: usize = 0;
    while k < ids.len()
        invariant
            k <= ids@.len(),
            out@ == valid(ids@, n as nat, k as int),
            out@.len() <= k,
            forall|i: int| 0 <= i < out@.len() ==> #[trigger] out@[i] < n,
        decreases ids@.len() - k,
    {
        if ids[k] < n {
            out.push(ids[k]);
        }
        k = k + 1;
    }
    out
}

/// The sum of the first `k` of some expressions.
pub open spec fn sum_of(es: Seq<Expr>, s: Seq<usize>, k: int) -> Option<Expr>
    decreases k,
{
    if k <= 0 {
        None
    } else {
        Some(plus(sum_of(es, s, k - 1), es[k - 1], s))
    }
}

/// The expressions of some nodes, by their place in a list.
pub open spec fn picked(es: Seq<Expr>, ids: Seq<usize>) -> Seq<Expr> {
    ids.map_values(|i: usize| es[i as int])
}

fn pick(xs: &Vec<u32>, ids: &Vec<usize>) -> (res: Vec<u32>)
    requires
        forall|i: int| 0 <= i < ids@.len() ==> #[trigger] ids@[i] < xs@.len(),
    ensures
        res@ == ids@.map_values(|i: usize| xs@[i as int]),
{
    let ghost want = ids@.map_values(|i: usize| xs@[i as int]);
    let mut out: Vec<u32> = Vec::new();
    let mut k: usize = 0;
    while k < ids.len()
        invariant
            k <= ids@.len(),
            forall|i: int| 0 <= i < ids@.len() ==> #[trigger] ids@[i] < xs@.len(),
            want == ids@.map_values(|i: usize| xs@[i as int]),
            out@ =~= want.take(k as int),
        decreases ids@.len() - k,
    {
        let i: usize = ids[k];
        assert(ids@[k as int] < xs@.len());
        out.push(xs[i]);
        k = k + 1;
    }
    assert(out@ =~= want);
    out
}

proof fn lemma_pick(g: Graph, xs: Seq<u32>, ids: Seq<usize>, out: Seq<u32>)
    requires
        graph::are_nodes(g, xs),
        forall|i: int| 0 <= i < ids.len() ==> #[trigger] ids[i] < xs.len(),
        out == ids.map_values(|i: usize| xs[i as int]),
    ensures
        graph::are_nodes(g, out),
        graph::all_at(g, out) == picked(graph::all_at(g, xs), ids),
{
    assert forall|k: int| 0 <= k < out.len() implies graph::is_node(g, #[trigger] out[k]) by {
        assert(ids[k] < xs.len());
        assert(graph::is_node(g, xs[ids[k] as int]));
    }
    assert(graph::all_at(g, out) =~= picked(graph::all_at(g, xs), ids)) by {
        assert forall|k: int| 0 <= k < out.len() implies graph::all_at(g, out)[k] == picked(
            graph::all_at(g, xs),
            ids,
        )[k] by {
            assert(ids[k] < xs.len());
        }
    }
}

fn put_sum_of(g: &mut Graph, ids: &Vec<u32>, s: &Vec<usize>) -> (id: u32)
    requires
        graph::sound(*old(g)),
        graph::has_room(*old(g), ids@.len()),
        ids@.len() > 0,
        graph::are_nodes(*old(g), ids@),
    ensures
        graph::grown(*old(g), *final(g), ids@.len()),
        graph::stands(
            *final(g),
            id,
            sum_of(graph::all_at(*old(g), ids@), s@, ids@.len() as int)->0,
        ),
{
    let ghost g0 = *g;
    let ghost es = graph::all_at(g0, ids@);
    let mut acc: Option<u32> = None;
    let mut k: usize = 0;
    while k < ids.len()
        invariant
            k <= ids@.len(),
            es == graph::all_at(g0, ids@),
            graph::are_nodes(g0, ids@),
            graph::has_room(g0, ids@.len()),
            graph::grown(g0, *g, k as nat),
            opt_node(*g, acc),
            opt_at(*g, acc) == sum_of(es, s@, k as int),
        decreases ids@.len() - k,
    {
        let ghost g1 = *g;
        proof {
            assert(graph::is_node(g0, ids@[k as int]));
            assert(graph::at(g1, ids@[k as int]) == es[k as int]);
        }
        let id: u32 = put_plus(g, acc, ids[k], s);
        acc = Some(id);
        proof {
            graph::growing_adds_up(g0, g1, *g, k as nat, 1);
        }
        k = k + 1;
    }
    acc.unwrap()
}

/// How far the mean position of some cells is from a point: the squares of how far the
/// sum of their positions is from what it should be.
pub open spec fn centroid(
    xs: Seq<Expr>,
    ys: Seq<Expr>,
    center: (Single, Single),
    s: Seq<usize>,
) -> Expr {
    let n = Single::of_nat(xs.len());
    graph::bin(
        BinaryOp::Add,
        square_of_difference(
            sum_of(xs, s, xs.len() as int)->0,
            number(n.mul_spec(center.0), s),
            s,
        ),
        square_of_difference(
            sum_of(ys, s, ys.len() as int)->0,
            number(n.mul_spec(center.1), s),
            s,
        ),
        s,
    )
}

fn put_centroid(
    g: &mut Graph,
    xs: &Vec<u32>,
    ys: &Vec<u32>,
    center: (Single, Single),
    s: &Vec<usize>,
) -> (id: u32)
    requires
        graph::sound(*old(g)),
        graph::has_room(*old(g), 2 * xs@.len() + 7),
        xs@.len() == ys@.len(),
        xs@.len() > 0,
        graph::are_nodes(*old(g), xs@),
        graph::are_nodes(*old(g), ys@),
    ensures
        graph::grown(*old(g), *final(g), 2 * xs@.len() + 7),
        graph::stands(
            *final(g),
            id,
            centroid(graph::all_at(*old(g), xs@), graph::all_at(*old(g), ys@), center, s@),
        ),
{
    let ghost g0 = *g;
    assert(graph::all_at(g0, xs@).len() == xs@.len());
    assert(graph::all_at(g0, ys@).len() == ys@.len());
    let n = Single::from_u64(xs.len() as u64);
    let sx: u32 = put_sum_of(g, xs, s);
    let ghost g1 = *g;
    proof {
        lemma_all_at(g0, g1, xs@.len(), ys@);
    }
    let sy: u32 = put_sum_of(g, ys, s);
    let tx: u32 = put_number(g, n.mul(center.0), s);
    let ty: u32 = put_number(g, n.mul(center.1), s);
    let dx: u32 = put_square_of_difference(g, sx, tx, s);
    let dy: u32 = put_square_of_difference(g, sy, ty, s);
    graph::put_binary(g, BinaryOp::Add, dx, dy, s)
}

/// Where the `k`-th cell of a row should be.
pub open spec fn slot(origin: Single, pitch: Single, k: int) -> Single {
    origin.add_spec(Single::of_nat(k as nat).mul_spec(pitch))
}

/// How far the first `k` cells of a row are from their places.
pub open spec fn row_deviation(
    es: Seq<Expr>,
    origin: Single,
    pitch: Single,
    s: Seq<usize>,
    k: int,
) -> Option<Expr>
    decreases k,
{
    if k <= 0 {
        None
    } else {
        Some(
            plus(
                row_deviation(es, origin, pitch, s, k - 1),
                square_of_difference(es[k - 1], number(slot(origin, pitch, k - 1), s), s),
                s,
            ),
        )
    }
}

/// A sum so far and how far the cells from the second to the `k`-th are off the line of
/// the first.
pub open spec fn row_bend(acc: Option<Expr>, es: Seq<Expr>, s: Seq<usize>, k: int) -> Option<Expr>
    decreases k,
{
    if k <= 1 {
        acc
    } else {
        Some(
            plus(
                row_bend(acc, es, s, k - 1),
                square_of_difference(es[k - 1], es[0], s),
                s,
            ),
        )
    }
}

/// How far cells are from standing in a row.
pub open spec fn row(
    lengthwise: Seq<Expr>,
    crosswise: Seq<Expr>,
    origin: Single,
    pitch: Single,
    s: Seq<usize>,
) -> Expr {
    or_zero(
        row_bend(
            row_deviation(lengthwise, origin, pitch, s, lengthwise.len() as int),
            crosswise,
            s,
            crosswise.len() as int,
        ),
        s,
    )
}

fn put_row_deviation(
    g: &mut Graph,
    ids: &Vec<u32>,
    origin: Single,
    pitch: Single,
    s: &Vec<usize>,
) -> (res: Option<u32>)
    requires
        graph::sound(*old(g)),
        graph::has_room(*old(g), 4 * ids@.len()),
        graph::are_nodes(*old(g), ids@),
    ensures
        graph::grown(*old(g), *final(g), 4 * ids@.len()),
        opt_node(*final(g), res),
        opt_at(*final(g), res) == row_deviation(
            graph::all_at(*old(g), ids@),
            origin,
            pitch,
            s@,
            ids@.len() as int,
        ),
{
    let ghost g0 = *g;
    let ghost es = graph::all_at(g0, ids@);
    let mut acc: Option<u32> = None;
    let mut k: usize = 0;
    while k < ids.len()
        invariant
            k <= ids@.len(),
            es == graph::all_at(g0, ids@),
            graph::are_nodes(g0, ids@),
            graph::has_room(g0, 4 * ids@.len()),
            graph::grown(g0, *g, (4 * k) as nat),
            opt_node(*g, acc),
            opt_at(*g, acc) == row_deviation(es, origin, pitch, s@, k as int),
        decreases ids@.len() - k,
    {
        let ghost g1 = *g;
        proof {
            assert(graph::is_node(g0, ids@[k as int]));
            assert(graph::at(g1, ids@[k as int]) == es[k as int]);
        }
        let target = origin.add(Single::from_u64(k as u64).mul(pitch));
        let t: u32 = put_number(g, target, s);
        let d: u32 = put_square_of_difference(g, ids[k], t, s);
        let id: u32 = put_plus(g, acc, d, s);
        acc = Some(id);
        proof {
            graph::growing_adds_up(g0, g1, *g, (4 * k) as nat, 4);
        }
        k = k + 1;
    }
    acc
}

fn put_row_bend(g: &mut Graph, acc: Option<u32>, ids: &Vec<u32>, s: &Vec<usize>) -> (res: Option<
    u32,
>)
    requires
        graph::sound(*old(g)),
        graph::has_room(*old(g), 3 * ids@.len()),
        graph::are_nodes(*old(g), ids@),
        ids@.len() > 0,
        opt_node(*old(g), acc),
    ensures
        graph::grown(*old(g), *final(g), 3 * ids@.len()),
        opt_node(*final(g), res),
        opt_at(*final(g), res) == row_bend(
            opt_at(*old(g), acc),
            graph::all_at(*old(g), ids@),
            s@,
            ids@.len() as int,
        ),
{
    let ghost g0 = *g;
    let ghost es = graph::all_at(g0, ids@);
    let ghost start = opt_at(g0, acc);
    let mut acc: Option<u32> = acc;
    let mut k: usize = 1;
    while k < ids.len()
        invariant
            1 <= k <= ids@.len(),
            es == graph::all_at(g0, ids@),
            graph::are_nodes(g0, ids@),
            graph::has_room(g0, 3 * ids@.len()),
            graph::grown(g0, *g, (3 * (k - 1)) as nat),
            opt_node(*g, acc),
            opt_at(*g, acc) == row_bend(start, es, s@, k as int),
        decreases ids@.len() - k,
    {
        let ghost g1 = *g;
        proof {
            assert(graph::is_node(g0, ids@[k as int]) && graph::is_node(g0, ids@[0]));
            assert(graph::at(g1, ids@[k as int]) == es[k as int]);
            assert(graph::at(g1, ids@[0]) == es[0]);
        }
        let d: u32 = put_square_of_difference(g, ids[k], ids[0], s);
        let id: u32 = put_plus(g, acc, d, s);
        acc = Some(id);
        proof {
            graph::growing_adds_up(g0, g1, *g, (3 * (k - 1)) as nat, 3);
        }
        k = k + 1;
    }
    acc
}

fn put_row_term(
    g: &mut Graph,
    lengthwise: &Vec<u32>,
    crosswise: &Vec<u32>,
    origin: Single,
    pitch: Single,
    s: &Vec<usize>,
) -> (id: u32)
    requires
        graph::sound(*old(g)),
        graph::has_room(*old(g), 7 * lengthwise@.len() + 1),
        lengthwise@.len() == crosswise@.len(),
        lengthwise@.len() > 0,
        graph::are_nodes(*old(g), lengthwise@),
        graph::are_nodes(*old(g), crosswise@),
    ensures
        graph::grown(*old(g), *final(g), 7 * lengthwise@.len() + 1),
        graph::stands(
            *final(g),
            id,
            row(
                graph::all_at(*old(g), lengthwise@),
                graph::all_at(*old(g), crosswise@),
                origin,
                pitch,
                s@,
            ),
        ),
{
    let ghost g0 = *g;
    assert(graph::all_at(g0, lengthwise@).len() == lengthwise@.len());
    assert(graph::all_at(g0, crosswise@).len() == crosswise@.len());
    let acc: Option<u32> = put_row_deviation(g, lengthwise, origin, pitch, s);
    let ghost g1 = *g;
    proof {
        lemma_all_at(g0, g1, 4 * lengthwise@.len(), crosswise@);
    }
    let acc: Option<u32> = put_row_bend(g, acc, crosswise, s);
    put_or_zero(g, acc, s)
}

/// How far the cells of a group are from matching. Groups of fewer than two cells do
/// not count, nor does a cell that mirrors itself.
pub open spec fn mismatch(kind: MatchKind, xs: Seq<Expr>, ys: Seq<Expr>, s: Seq<usize>) -> Option<
    Expr,
> {
    let n = xs.len();
    match kind {
        MatchKind::Mirror { a, b, axis, axis_coord } => if a >= n || b >= n || a == b {
            None
        } else {
            Some(
                mirror(
                    (xs[a as int], ys[a as int]),
                    (xs[b as int], ys[b as int]),
                    axis,
                    axis_coord,
                    s,
                ),
            )
        },
        MatchKind::CommonCentroid { instances, center } => {
            let ids = valid(instances@, n, instances@.len() as int);
            if ids.len() < 2 {
                None
            } else {
                Some(centroid(picked(xs, ids), picked(ys, ids), center, s))
            }
        },
        MatchKind::Interdigitated { instances, axis, origin, pitch } => {
            let ids = valid(instances@, n, instances@.len() as int);
            if ids.len() < 2 {
                None
            } else {
                let es = along_all(picked(xs, ids), picked(ys, ids), axis);
                Some(row(es.0, es.1, origin, pitch, s))
            }
        },
    }
}

/// The sum of how far the first `k` groups are from matching, each with its weight.
pub open spec fn mismatches(
    groups: Seq<MatchGroup>,
    xs: Seq<Expr>,
    ys: Seq<Expr>,
    s: Seq<usize>,
    k: int,
) -> Option<Expr>
    decreases k,
{
    if k <= 0 {
        None
    } else {
        let before = mismatches(groups, xs, ys, s, k - 1);
        match mismatch(groups[k - 1].kind, xs, ys, s) {
            None => before,
            Some(e) => Some(plus(before, weighted(e, groups[k - 1].weight, s), s)),
        }
    }
}

/// Nodes that a group takes, at most.
pub open spec fn group_cost(kind: MatchKind) -> nat {
    match kind {
        MatchKind::Mirror { .. } => 12,
        MatchKind::CommonCentroid { instances, .. } => 2 * instances@.len() + 12,
        MatchKind::Interdigitated { instances, .. } => 7 * instances@.len() + 12,
    }
}

pub open spec fn groups_cost(groups: Seq<MatchGroup>, k: int) -> nat
    decreases k,
{
    if k <= 0 {
        0
    } else {
        groups_cost(groups, k - 1) + group_cost(groups[k - 1].kind)
    }
}

proof fn lemma_groups_cost(groups: Seq<MatchGroup>, k: int, n: int)
    requires
        0 <= k <= n,
    ensures
        groups_cost(groups, k) <= groups_cost(groups, n),
    decreases n,
{
    if k < n {
        lemma_groups_cost(groups, k, n - 1);
    }
}

fn put_mismatch(
    g: &mut Graph,
    kind: &MatchKind,
    xs: &Vec<u32>,
    ys: &Vec<u32>,
    s: &Vec<usize>,
) -> (res: Option<u32>)
    requires
        graph::sound(*old(g)),
        graph::has_room(*old(g), group_cost(*kind)),
        xs@.len() == ys@.len(),
        graph::are_nodes(*old(g), xs@),
        graph::are_nodes(*old(g), ys@),
    ensures
        graph::grown(*old(g), *final(g), (group_cost(*kind) - 3) as nat),
        opt_node(*final(g), res),
        opt_at(*final(g), res) == mismatch(
            *kind,
            graph::all_at(*old(g), xs@),
            graph::all_at(*old(g), ys@),
            s@,
        ),
{
    let ghost g0 = *g;
    let ghost ex = graph::all_at(g0, xs@);
    let ghost ey = graph::all_at(g0, ys@);
    let n: usize = xs.len();
    assert(ex.len() == n && ey.len() == n);
    match kind {
        MatchKind::Mirror { a, b, axis, axis_coord } => {
            if *a >= n || *b >= n || *a == *b {
                return None;
            }
            proof {
                assert(graph::is_node(g0, xs@[*a as int]) && graph::is_node(g0, ys@[*a as int]));
                assert(graph::is_node(g0, xs@[*b as int]) && graph::is_node(g0, ys@[*b as int]));
            }
            Some(put_mirror(g, (xs[*a], ys[*a]), (xs[*b], ys[*b]), *axis, *axis_coord, s))
        },
        MatchKind::CommonCentroid { instances, center } => {
            let ids = valid_of(instances, n);
            if ids.len() < 2 {
                return None;
            }
            let px = pick(xs, &ids);
            let py = pick(ys, &ids);
            proof {
                lemma_pick(g0, xs@, ids@, px@);
                lemma_pick(g0, ys@, ids@, py@);
            }
            Some(put_centroid(g, &px, &py, *center, s))
        },
        MatchKind::Interdigitated { instances, axis, origin, pitch } => {
            let ids = valid_of(instances, n);
            if ids.len() < 2 {
                return None;
            }
            let px = pick(xs, &ids);
            let py = pick(ys, &ids);
            proof {
                lemma_pick(g0, xs@, ids@, px@);
                lemma_pick(g0, ys@, ids@, py@);
            }
            match axis {
                SymmetryAxis::Vertical => Some(put_row_term(g, &px, &py, *origin, *pitch, s)),
                SymmetryAxis::Horizontal => Some(put_row_term(g, &py, &px, *origin, *pitch, s)),
            }
        },
    }
}

fn put_mismatches(
    g: &mut Graph,
    netlist: &Netlist,
    xs: &Vec<u32>,
    ys: &Vec<u32>,
    s: &Vec<usize>,
) -> (id: u32)
    requires
        graph::sound(*old(g)),
        graph::has_room(
            *old(g),
            groups_cost(netlist.match_groups@, netlist.match_groups@.len() as int) + 1,
        ),
        xs@.len() == ys@.len(),
        graph::are_nodes(*old(g), xs@),
        graph::are_nodes(*old(g), ys@),
    ensures
        graph::grown(
            *old(g),
            *final(g),
            groups_cost(netlist.match_groups@, netlist.match_groups@.len() as int) + 1,
        ),
        graph::stands(
            *final(g),
            id,
            or_zero(
                mismatches(
                    netlist.match_groups@,
                    graph::all_at(*old(g), xs@),
                    graph::all_at(*old(g), ys@),
                    s@,
                    netlist.match_groups@.len() as int,
                ),
                s@,
            ),
        ),
{
    let ghost g0 = *g;
    let ghost groups = netlist.match_groups@;
    let ghost ex = graph::all_at(g0, xs@);
    let ghost ey = graph::all_at(g0, ys@);
    let mut acc: Option<u32> = None;
    let mut k: usize = 0;
    while k < netlist.match_groups.len()
        invariant
            k <= netlist.match_groups@.len(),
            groups == netlist.match_groups@,
            xs@.len() == ys@.len(),
            ex == graph::all_at(g0, xs@),
            ey == graph::all_at(g0, ys@),
            graph::are_nodes(g0, xs@),
            graph::are_nodes(g0, ys@),
            graph::has_room(g0, groups_cost(groups, groups.len() as int) + 1),
            graph::grown(g0, *g, groups_cost(groups, k as int)),
            opt_node(*g, acc),
            opt_at(*g, acc) == mismatches(groups, ex, ey, s@, k as int),
        decreases netlist.match_groups@.len() - k,
    {
        let ghost g1 = *g;
        let ghost cost = group_cost(groups[k as int].kind);
        proof {
            lemma_groups_cost(groups, k + 1, groups.len() as int);
            lemma_all_at(g0, g1, groups_cost(groups, k as int), xs@);
            lemma_all_at(g0, g1, groups_cost(groups, k as int), ys@);
        }
        match put_mismatch(g, &netlist.match_groups[k].kind, xs, ys, s) {
            None => {},
            Some(e) => {
                let w: u32 = put_weighted(g, e, netlist.match_groups[k].weight, s);
                let id: u32 = put_plus(g, acc, w, s);
                acc = Some(id);
            },
        }
        proof {
            graph::growing_adds_up(g0, g1, *g, groups_cost(groups, k as int), cost);
        }
        k = k + 1;
    }
    put_or_zero(g, acc, s)
}

// ── a placement that can be improved ───────────────────────────────

/// The position of every cell, and the sharpness of the lengths of nets.
#[derive(Debug)]
pub struct DifferentiablePlacement {
    pub instance_xy: Vec<(Single, Single)>,
    pub beta: Single,
}

/// Where moves take the origin of a cell.
pub open spec fn shifts(ts: Seq<Trans>) -> Seq<(Single, Single)> {
    ts.map_values(
        |t: Trans| (single::of_int(t.disp.x as int), single::of_int(t.disp.y as int)),
    )
}

/// The moves that take cells to the nearest positions on the grid.
pub open spec fn snapped(xy: Seq<(Single, Single)>) -> Seq<Trans> {
    xy.map_values(
        |p: (Single, Single)|
            Trans {
                rot: geom::Rot4::R0,
                mirror: false,
                disp: Vec2 { x: p.0.rounded() as i64, y: p.1.rounded() as i64 },
            },
    )
}

/// The name of the parameter for a coordinate of a cell.
pub open spec fn position_name(design: Seq<char>, cell: Seq<char>, axis: Seq<char>) -> Seq<char> {
    design + "."@ + cell + axis
}

fn position_key(design: &str, cell: &str, axis: &str) -> (res: String)
    ensures
        res@ == position_name(design@, cell@, axis@),
{
    let mut s = design.to_owned();
    s.append(".");
    s.append(cell);
    s.append(axis);
    s
}

impl DifferentiablePlacement {
    /// Starts from a placement.
    pub fn from_placement(seed: &Placement) -> (res: Self)
        ensures
            res.instance_xy@ == shifts(seed.transforms@),
            res.beta == (Single { bits: BETA_HPWL_DEFAULT_BITS }),
    {
        let mut xy: Vec<(Single, Single)> = Vec::new();
        let mut i: usize = 0;
        while i < seed.transforms.len()
            invariant
                i <= seed.transforms@.len(),
                xy@ =~= shifts(seed.transforms@).take(i as int),
            decreases seed.transforms@.len() - i,
        {
            let d: Vec2 = seed.transforms[i].disp;
            xy.push((Single::from_i64(d.x), Single::from_i64(d.y)));
            i = i + 1;
        }
        assert(xy@ =~= shifts(seed.transforms@));
        DifferentiablePlacement { instance_xy: xy, beta: Single { bits: BETA_HPWL_DEFAULT_BITS } }
    }

    pub fn with_beta(self, beta: Single) -> (res: Self)
        ensures
            res == (DifferentiablePlacement { beta, ..self }),
    {
        let mut p = self;
        p.beta = beta;
        p
    }

    /// The nearest placement on the grid; none where a cell would not fit there.
    pub fn materialize(&self, netlist: &Netlist, lib: &Library) -> (res: Option<Placement>)
        requires
            flow::knows(*lib, *netlist, Set::empty()),
        ensures
            match res {
                Some(p) => p.transforms@ == snapped(self.instance_xy@) && place::placed_box(
                    flow::cells_of(*lib, *netlist),
                    p.transforms@,
                ) == Some(p.bbox),
                None => place::placed_box(
                    flow::cells_of(*lib, *netlist),
                    snapped(self.instance_xy@),
                ) is None,
            },
    {
        let cells = flow::read_cells(lib, netlist);
        let mut transforms: Vec<Trans> = Vec::new();
        let mut i: usize = 0;
        while i < self.instance_xy.len()
            invariant
                i <= self.instance_xy@.len(),
                transforms@ =~= snapped(self.instance_xy@).take(i as int),
            decreases self.instance_xy@.len() - i,
        {
            let (x, y): (Single, Single) = self.instance_xy[i];
            transforms.push(Trans::translate(Vec2 { x: x.round_to_i64(), y: y.round_to_i64() }));
            i = i + 1;
        }
        assert(transforms@ =~= snapped(self.instance_xy@));
        match place::union_placed_bbox(&cells, &transforms) {
            Some(bbox) => Some(Placement { transforms, bbox }),
            None => None,
        }
    }

    pub fn x_param_name(&self, netlist: &Netlist, i: usize) -> (res: String)
        requires
            i < netlist.instances@.len(),
        ensures
            res@ == position_name(netlist.name@, netlist.instances@[i as int].name@, ".x"@),
    {
        position_key(netlist.name.as_str(), netlist.instances[i].name.as_str(), ".x")
    }

    pub fn y_param_name(&self, netlist: &Netlist, i: usize) -> (res: String)
        requires
            i < netlist.instances@.len(),
        ensures
            res@ == position_name(netlist.name@, netlist.instances@[i as int].name@, ".y"@),
    {
        position_key(netlist.name.as_str(), netlist.instances[i].name.as_str(), ".y")
    }

    /// The position of a cell; the origin where there is none.
    pub open spec fn xy(self, i: int) -> (Single, Single) {
        if 0 <= i < self.instance_xy@.len() {
            self.instance_xy@[i]
        } else {
            (Single { bits: 0 }, Single { bits: 0 })
        }
    }

    pub fn xy_of(&self, i: usize) -> (res: (Single, Single))
        ensures
            res == self.xy(i as int),
    {
        if i < self.instance_xy.len() {
            self.instance_xy[i]
        } else {
            (Single { bits: 0 }, Single { bits: 0 })
        }
    }
}

/// The coordinates of a cell: parameters, or numbers where placement must leave the
/// cell where it is.
pub open spec fn coordinates(
    nl: Netlist,
    seed: DifferentiablePlacement,
    all_move: bool,
    i: int,
) -> (Expr, Expr) {
    if nl.instances@[i].fixed && !all_move {
        (number(seed.xy(i).0, scalar()), number(seed.xy(i).1, scalar()))
    } else {
        free_coordinates(nl, i)
    }
}

/// The parameters for the coordinates of a cell.
pub open spec fn free_coordinates(nl: Netlist, i: int) -> (Expr, Expr) {
    (
        graph::parameter(position_name(nl.name@, nl.instances@[i].name@, ".x"@), scalar()),
        graph::parameter(position_name(nl.name@, nl.instances@[i].name@, ".y"@), scalar()),
    )
}

/// The coordinates of the first `n` cells.
pub open spec fn all_coordinates(
    nl: Netlist,
    seed: DifferentiablePlacement,
    all_move: bool,
    n: nat,
) -> Seq<(Expr, Expr)> {
    Seq::new(n, |i: int| coordinates(nl, seed, all_move, i))
}

/// First and second coordinates.
pub open spec fn firsts(ps: Seq<(Expr, Expr)>) -> Seq<Expr> {
    ps.map_values(|p: (Expr, Expr)| p.0)
}

pub open spec fn seconds(ps: Seq<(Expr, Expr)>) -> Seq<Expr> {
    ps.map_values(|p: (Expr, Expr)| p.1)
}

fn put_coordinates(
    g: &mut Graph,
    netlist: &Netlist,
    seed: &DifferentiablePlacement,
    all_move: bool,
) -> (res: (Vec<u32>, Vec<u32>))
    requires
        graph::sound(*old(g)),
        graph::has_room(*old(g), 2 * netlist.instances@.len()),
    ensures
        graph::grown(*old(g), *final(g), 2 * netlist.instances@.len()),
        res.0@.len() == netlist.instances@.len(),
        res.1@.len() == netlist.instances@.len(),
        graph::are_nodes(*final(g), res.0@),
        graph::are_nodes(*final(g), res.1@),
        pairs_at(*final(g), res.0@, res.1@) == all_coordinates(
            *netlist,
            *seed,
            all_move,
            netlist.instances@.len(),
        ),
{
    let ghost g0 = *g;
    let s = dims1(1);
    let mut xs: Vec<u32> = Vec::new();
    let mut ys: Vec<u32> = Vec::new();
    let mut i: usize = 0;
    while i < netlist.instances.len()
        invariant
            i <= netlist.instances@.len(),
            s@ == scalar(),
            xs@.len() == i,
            ys@.len() == i,
            graph::has_room(g0, 2 * netlist.instances@.len()),
            graph::grown(g0, *g, (2 * i) as nat),
            graph::are_nodes(*g, xs@),
            graph::are_nodes(*g, ys@),
            pairs_at(*g, xs@, ys@) =~= all_coordinates(*netlist, *seed, all_move, i as nat),
        decreases netlist.instances@.len() - i,
    {
        let ghost g1 = *g;
        let ghost xs0 = xs@;
        let ghost ys0 = ys@;
        let (x, y): (u32, u32) = if netlist.instances[i].fixed && !all_move {
            let p: (Single, Single) = seed.xy_of(i);
            let x: u32 = put_number(g, p.0, &s);
            let y: u32 = put_number(g, p.1, &s);
            (x, y)
        } else {
            let name = netlist.instances[i].name.as_str();
            let key = position_key(netlist.name.as_str(), name, ".x");
            let x: u32 = graph::put_param(g, key.as_str(), &s);
            let key = position_key(netlist.name.as_str(), name, ".y");
            let y: u32 = graph::put_param(g, key.as_str(), &s);
            (x, y)
        };
        xs.push(x);
        ys.push(y);
        proof {
            graph::growing_adds_up(g0, g1, *g, (2 * i) as nat, 2);
            lemma_pairs_at(g1, *g, 2, xs0, ys0);
            let all = all_coordinates(*netlist, *seed, all_move, (i + 1) as nat);
            assert forall|k: int| 0 <= k < xs@.len() implies pairs_at(*g, xs@, ys@)[k]
                == all[k] by {
                if k < i {
                    assert(pairs_at(*g, xs0, ys0)[k] == all[k]);
                }
            }
        }
        i = i + 1;
    }
    (xs, ys)
}

// ── losses ─────────────────────────────────────────────────────────

/// Whether a graph returns the value of an expression, and nothing else.
pub open spec fn yields(g: Graph, e: Expr) -> bool {
    exists|id: u32| graph::graph_outputs(g) == seq![id] && #[trigger] graph::stands(g, id, e)
}

/// Nodes that a loss takes, at most.
pub open spec fn loss_cost(nl: Netlist) -> nat {
    2 * nl.instances@.len() + nets_cost(netlist::net_models(nl.nets@), nl.nets@.len() as int)
        + overlaps_cost(nl.instances@.len()) + groups_cost(
        nl.match_groups@,
        nl.match_groups@.len() as int,
    ) + 16
}

/// Whether a graph can hold the losses of a design.
pub open spec fn losses_fit(nl: Netlist) -> bool {
    loss_cost(nl) <= 0xffff_ffff
}

pub(crate) fn finish(g: &mut Graph, id: u32)
    requires
        graph::sound(*old(g)),
        graph::is_node(*old(g), id),
    ensures
        yields(*final(g), graph::at(*old(g), id)),
        graph::graph_name(*final(g)) == graph::graph_name(*old(g)),
        graph::graph_nodes(*final(g)) == graph::graph_nodes(*old(g)),
{
    graph::set_output(g, id);
    assert(graph::stands(*g, id, graph::at(*old(g), id)));
}

pub(crate) fn start(name: &str, suffix: &str) -> (g: Graph)
    ensures
        graph::graph_name(g) == name@ + suffix@,
        graph::graph_nodes(g).len() == 0,
        graph::sound(g),
{
    let mut s = name.to_owned();
    s.append(suffix);
    graph::new_graph(s.as_str())
}

/// The sum of the lengths of all nets over parameters for all positions, of a given
/// sharpness.
pub open spec fn hpwl_loss(nl: Netlist, cells: Seq<CellModel>, beta: Single) -> Expr {
    or_zero(
        lengths(
            netlist::net_models(nl.nets@),
            cells,
            Seq::new(nl.instances@.len(), |i: int| free_coordinates(nl, i)),
            number(beta, scalar()),
            scalar(),
            false,
            nl.nets@.len() as int,
        ),
        scalar(),
    )
}

/// Builds the sum of the lengths of all nets. Weights do not count here, and every cell
/// can move.
pub fn hpwl_loss_graph(netlist: &Netlist, lib: &Library, beta: Single) -> (g: Graph)
    requires
        flow::knows(*lib, *netlist, Set::empty()),
        losses_fit(*netlist),
    ensures
        yields(g, hpwl_loss(*netlist, flow::cells_of(*lib, *netlist), beta)),
        graph::graph_name(g) == netlist.name@ + "_hpwl"@,
{
    let cells = flow::read_cells(lib, netlist);
    let s = dims1(1);
    let seed = DifferentiablePlacement { instance_xy: Vec::new(), beta };
    let mut g = start(netlist.name.as_str(), "_hpwl");
    let b: u32 = put_number(&mut g, beta, &s);
    let ghost g1 = g;
    let (xs, ys): (Vec<u32>, Vec<u32>) = put_coordinates(&mut g, netlist, &seed, true);
    let ghost g2 = g;
    let p = Positions::Each(xs, ys);
    proof {
        assert(p.all(g2, cells@.len()) =~= pairs_at(g2, xs@, ys@));
        assert(graph::at(g2, b) == graph::at(g1, b));
        assert(all_coordinates(*netlist, seed, true, netlist.instances@.len()) =~= Seq::new(
            netlist.instances@.len(),
            |i: int| free_coordinates(*netlist, i),
        ));
    }
    let total: u32 = put_lengths(&mut g, netlist, &cells, &p, b, &s, false);
    finish(&mut g, total);
    g
}

/// The sum of the overlaps of all cells.
pub open spec fn density_loss(
    nl: Netlist,
    cells: Seq<CellModel>,
    seed: DifferentiablePlacement,
) -> Expr {
    or_zero(
        overlaps(
            all_coordinates(nl, seed, false, nl.instances@.len()),
            all_half_dims(cells),
            graph::given(DENSITY_BETA_INPUT@, scalar()),
            scalar(),
            nl.instances@.len() as int,
            nl.instances@.len() as int,
        ),
        scalar(),
    )
}

/// Builds the sum of the overlaps of all cells.
pub fn density_loss_graph(
    netlist: &Netlist,
    lib: &Library,
    seed: &DifferentiablePlacement,
) -> (g: Graph)
    requires
        flow::knows(*lib, *netlist, Set::empty()),
        extents_fit(flow::cells_of(*lib, *netlist)),
        losses_fit(*netlist),
    ensures
        yields(g, density_loss(*netlist, flow::cells_of(*lib, *netlist), *seed)),
        graph::graph_name(g) == netlist.name@ + "_density"@,
{
    let cells = flow::read_cells(lib, netlist);
    let s = dims1(1);
    let mut g = start(netlist.name.as_str(), "_density");
    let (xs, ys): (Vec<u32>, Vec<u32>) = put_coordinates(&mut g, netlist, seed, false);
    let ghost g1 = g;
    let beta: u32 = graph::put_input(&mut g, DENSITY_BETA_INPUT, &s);
    proof {
        lemma_pairs_at(g1, g, 1, xs@, ys@);
    }
    let total: u32 = put_overlaps(&mut g, &cells, &xs, &ys, beta, &s);
    finish(&mut g, total);
    g
}

/// How far all groups are from matching.
pub open spec fn symmetry_loss(nl: Netlist, seed: DifferentiablePlacement) -> Expr {
    let ps = all_coordinates(nl, seed, false, nl.instances@.len());
    or_zero(
        mismatches(
            nl.match_groups@,
            firsts(ps),
            seconds(ps),
            scalar(),
            nl.match_groups@.len() as int,
        ),
        scalar(),
    )
}

proof fn lemma_pairs_split(g: Graph, xs: Seq<u32>, ys: Seq<u32>)
    requires
        xs.len() == ys.len(),
    ensures
        graph::all_at(g, xs) == firsts(pairs_at(g, xs, ys)),
        graph::all_at(g, ys) == seconds(pairs_at(g, xs, ys)),
{
    assert(graph::all_at(g, xs) =~= firsts(pairs_at(g, xs, ys)));
    assert(graph::all_at(g, ys) =~= seconds(pairs_at(g, xs, ys)));
}

/// Builds how far all groups are from matching.
pub fn symmetry_loss_graph(netlist: &Netlist, seed: &DifferentiablePlacement) -> (g: Graph)
    requires
        losses_fit(*netlist),
    ensures
        yields(g, symmetry_loss(*netlist, *seed)),
        graph::graph_name(g) == netlist.name@ + "_symmetry"@,
{
    let s = dims1(1);
    let mut g = start(netlist.name.as_str(), "_symmetry");
    let (xs, ys): (Vec<u32>, Vec<u32>) = put_coordinates(&mut g, netlist, seed, false);
    proof {
        lemma_pairs_split(g, xs@, ys@);
    }
    let total: u32 = put_mismatches(&mut g, netlist, &xs, &ys, &s);
    finish(&mut g, total);
    g
}

/// The lengths of nets over the same positions as the overlaps.
pub open spec fn length_loss(
    nl: Netlist,
    cells: Seq<CellModel>,
    seed: DifferentiablePlacement,
) -> Expr {
    or_zero(
        lengths(
            netlist::net_models(nl.nets@),
            cells,
            all_coordinates(nl, seed, false, nl.instances@.len()),
            graph::given(HPWL_BETA_INPUT@, scalar()),
            scalar(),
            true,
            nl.nets@.len() as int,
        ),
        scalar(),
    )
}

/// The lengths of nets, the overlaps of cells with their weight, and how far groups are
/// from matching with theirs.
pub open spec fn combined_loss(
    nl: Netlist,
    cells: Seq<CellModel>,
    seed: DifferentiablePlacement,
    density_weight: Single,
    symmetry_weight: Single,
) -> Expr {
    let s = scalar();
    graph::bin(
        BinaryOp::Add,
        graph::bin(
            BinaryOp::Add,
            length_loss(nl, cells, seed),
            graph::bin(
                BinaryOp::Mul,
                density_loss(nl, cells, seed),
                number(density_weight, s),
                s,
            ),
            s,
        ),
        graph::bin(BinaryOp::Mul, symmetry_loss(nl, seed), number(symmetry_weight, s), s),
        s,
    )
}

/// Builds the lengths of nets, the overlaps of cells with a weight, and how far groups
/// are from matching.
pub fn combined_loss_graph(
    netlist: &Netlist,
    lib: &Library,
    seed: &DifferentiablePlacement,
    density_weight: Single,
) -> (g: Graph)
    requires
        flow::knows(*lib, *netlist, Set::empty()),
        extents_fit(flow::cells_of(*lib, *netlist)),
        losses_fit(*netlist),
    ensures
        yields(
            g,
            combined_loss(
                *netlist,
                flow::cells_of(*lib, *netlist),
                *seed,
                density_weight,
                Single { bits: ONE_BITS },
            ),
        ),
        graph::graph_name(g) == netlist.name@ + "_combined"@,
        has_position_params(g, *netlist),
{
    combined_loss_graph_with_symmetry(
        netlist,
        lib,
        seed,
        density_weight,
        Single { bits: ONE_BITS },
    )
}

/// Builds the same with a weight for how far groups are from matching.
#[verifier::rlimit(40)]
pub fn combined_loss_graph_with_symmetry(
    netlist: &Netlist,
    lib: &Library,
    seed: &DifferentiablePlacement,
    density_weight: Single,
    symmetry_weight: Single,
) -> (g: Graph)
    requires
        flow::knows(*lib, *netlist, Set::empty()),
        extents_fit(flow::cells_of(*lib, *netlist)),
        losses_fit(*netlist),
    ensures
        yields(
            g,
            combined_loss(
                *netlist,
                flow::cells_of(*lib, *netlist),
                *seed,
                density_weight,
                symmetry_weight,
            ),
        ),
        graph::graph_name(g) == netlist.name@ + "_combined"@,
        has_position_params(g, *netlist),
{
    let cells = flow::read_cells(lib, netlist);
    let s = dims1(1);
    let mut g = start(netlist.name.as_str(), "_combined");
    let (xs, ys): (Vec<u32>, Vec<u32>) = put_coordinates(&mut g, netlist, seed, false);
    let ghost g1 = g;
    let hpwl_beta: u32 = graph::put_input(&mut g, HPWL_BETA_INPUT, &s);
    let density_beta: u32 = graph::put_input(&mut g, DENSITY_BETA_INPUT, &s);
    let ghost g2 = g;
    proof {
        lemma_pairs_at(g1, g2, 2, xs@, ys@);
    }
    let p = Positions::Each(xs, ys);
    assert(p.all(g2, cells@.len()) =~= pairs_at(g2, xs@, ys@));
    let hpwl: u32 = put_lengths(&mut g, netlist, &cells, &p, hpwl_beta, &s, true);
    let ghost g3 = g;
    let ghost c3 = nets_cost(netlist::net_models(netlist.nets@), netlist.nets@.len() as int) + 1;
    proof {
        lemma_pairs_at(g2, g3, c3, xs@, ys@);
    }
    let (xs, ys): (Vec<u32>, Vec<u32>) = match p {
        Positions::Each(xs, ys) => (xs, ys),
        Positions::Together(_, _) => (Vec::new(), Vec::new()),
    };
    let density: u32 = put_overlaps(&mut g, &cells, &xs, &ys, density_beta, &s);
    let ghost g4 = g;
    proof {
        lemma_pairs_at(g3, g4, overlaps_cost(cells@.len()), xs@, ys@);
        lemma_pairs_split(g4, xs@, ys@);
    }
    let symmetry: u32 = put_mismatches(&mut g, netlist, &xs, &ys, &s);
    let ghost g5 = g;
    let total: u32 = put_weighted_losses(
        &mut g,
        hpwl,
        density,
        symmetry,
        density_weight,
        symmetry_weight,
        &s,
    );
    proof {
        let c5 = groups_cost(netlist.match_groups@, netlist.match_groups@.len() as int) + 1;
        lemma_pairs_at(g4, g5, c5, xs@, ys@);
        lemma_pairs_at(g5, g, 6, xs@, ys@);
        lemma_params_are_there(g, *netlist, *seed, xs@, ys@);
        assert(graph::at(g5, hpwl) == graph::at(g3, hpwl));
        assert(graph::at(g5, density) == graph::at(g4, density));
    }
    finish(&mut g, total);
    g
}

fn put_weighted_losses(
    g: &mut Graph,
    hpwl: u32,
    density: u32,
    symmetry: u32,
    density_weight: Single,
    symmetry_weight: Single,
    s: &Vec<usize>,
) -> (id: u32)
    requires
        graph::sound(*old(g)),
        graph::has_room(*old(g), 6),
        graph::is_node(*old(g), hpwl),
        graph::is_node(*old(g), density),
        graph::is_node(*old(g), symmetry),
    ensures
        graph::grown(*old(g), *final(g), 6),
        graph::stands(
            *final(g),
            id,
            graph::bin(
                BinaryOp::Add,
                graph::bin(
                    BinaryOp::Add,
                    graph::at(*old(g), hpwl),
                    graph::bin(
                        BinaryOp::Mul,
                        graph::at(*old(g), density),
                        number(density_weight, s@),
                        s@,
                    ),
                    s@,
                ),
                graph::bin(
                    BinaryOp::Mul,
                    graph::at(*old(g), symmetry),
                    number(symmetry_weight, s@),
                    s@,
                ),
                s@,
            ),
        ),
{
    let dw: u32 = put_number(g, density_weight, s);
    let wd: u32 = graph::put_binary(g, BinaryOp::Mul, density, dw, s);
    let sw: u32 = put_number(g, symmetry_weight, s);
    let ws: u32 = graph::put_binary(g, BinaryOp::Mul, symmetry, sw, s);
    let sum: u32 = graph::put_binary(g, BinaryOp::Add, hpwl, wd, s);
    graph::put_binary(g, BinaryOp::Add, sum, ws, s)
}

// ── parameters ─────────────────────────────────────────────────────

/// The place of the first parameter of a name; the number of nodes where there is none.
pub open spec fn param_index(names: Seq<Option<Seq<char>>>, key: Seq<char>) -> int
    decreases names.len(),
{
    if names.len() == 0 || names[0] == Some(key) {
        0
    } else {
        1 + param_index(names.skip(1), key)
    }
}

proof fn lemma_param_index(names: Seq<Option<Seq<char>>>, key: Seq<char>, k: int)
    requires
        0 <= k < names.len(),
        names[k] == Some(key),
    ensures
        0 <= param_index(names, key) <= k,
    decreases names.len(),
{
    if names[0] != Some(key) {
        assert(names.skip(1)[k - 1] == names[k]);
        lemma_param_index(names.skip(1), key, k - 1);
    }
}

/// The place of a parameter in a graph.
pub open spec fn param_at(g: Graph, key: Seq<char>) -> int {
    param_index(graph::param_names(graph::graph_nodes(g)), key)
}

/// Whether a graph has parameters for the positions of all cells that can move.
pub open spec fn has_position_params(g: Graph, nl: Netlist) -> bool {
    forall|i: int|
        0 <= i < nl.instances@.len() && !(#[trigger] nl.instances@[i]).fixed ==> param_at(
            g,
            position_name(nl.name@, nl.instances@[i].name@, ".x"@),
        ) < graph::graph_nodes(g).len() && param_at(
            g,
            position_name(nl.name@, nl.instances@[i].name@, ".y"@),
        ) < graph::graph_nodes(g).len()
}

proof fn lemma_param_is_there(g: Graph, id: u32, key: Seq<char>, dims: Seq<usize>)
    requires
        graph::stands(g, id, graph::parameter(key, dims)),
    ensures
        param_at(g, key) < graph::graph_nodes(g).len(),
{
    reveal(graph::expr_at);
    let names = graph::param_names(graph::graph_nodes(g));
    assert(graph::graph_nodes(g)[id as int].op == graph::OpModel::Param(key));
    assert(names[id as int] == Some(key));
    lemma_param_index(names, key, id as int);
}

proof fn lemma_params_are_there(
    g: Graph,
    nl: Netlist,
    seed: DifferentiablePlacement,
    xs: Seq<u32>,
    ys: Seq<u32>,
)
    requires
        xs.len() == ys.len() == nl.instances@.len(),
        graph::are_nodes(g, xs),
        graph::are_nodes(g, ys),
        pairs_at(g, xs, ys) == all_coordinates(nl, seed, false, nl.instances@.len()),
    ensures
        has_position_params(g, nl),
{
    assert forall|i: int|
        0 <= i < nl.instances@.len() && !(#[trigger] nl.instances@[i]).fixed implies param_at(
        g,
        position_name(nl.name@, nl.instances@[i].name@, ".x"@),
    ) < graph::graph_nodes(g).len() && param_at(
        g,
        position_name(nl.name@, nl.instances@[i].name@, ".y"@),
    ) < graph::graph_nodes(g).len() by {
        assert(pairs_at(g, xs, ys)[i] == coordinates(nl, seed, false, i));
        assert(graph::is_node(g, xs[i]) && graph::is_node(g, ys[i]));
        lemma_param_is_there(
            g,
            xs[i],
            position_name(nl.name@, nl.instances@[i].name@, ".x"@),
            scalar(),
        );
        lemma_param_is_there(
            g,
            ys[i],
            position_name(nl.name@, nl.instances@[i].name@, ".y"@),
            scalar(),
        );
    }
}

pub(crate) fn find_param(names: &Vec<Option<String>>, key: &str) -> (res: Option<usize>)
    ensures
        match res {
            Some(i) => i == param_index(graph::opt_texts(names@), key@) && i < names@.len(),
            None => param_index(graph::opt_texts(names@), key@) >= names@.len(),
        },
{
    let ghost all = graph::opt_texts(names@);
    let mut i: usize = 0;
    assert(all.skip(0) =~= all);
    while i < names.len()
        invariant
            i <= names@.len(),
            all == graph::opt_texts(names@),
            param_index(all, key@) == i + param_index(all.skip(i as int), key@),
        decreases names@.len() - i,
    {
        assert(all.skip(i as int)[0] == crate::paths::opt_text(names@[i as int]));
        assert(all.skip(i as int).skip(1) =~= all.skip(i + 1));
        match &names[i] {
            Some(n) => {
                if text::same(n.as_str(), key) {
                    return Some(i);
                }
            },
            None => {},
        }
        i = i + 1;
    }
    None
}

/// The places of the parameters of the first `n` cells, those that can move: for each
/// the horizontal and then the vertical position.
pub open spec fn position_params(g: Graph, nl: Netlist, n: int) -> Seq<int>
    decreases n,
{
    if n <= 0 {
        Seq::empty()
    } else {
        let before = position_params(g, nl, n - 1);
        let inst = nl.instances@[n - 1];
        if inst.fixed {
            before
        } else {
            before.push(param_at(g, position_name(nl.name@, inst.name@, ".x"@))).push(
                param_at(g, position_name(nl.name@, inst.name@, ".y"@)),
            )
        }
    }
}

/// Which cell and which coordinate each of those parameters stands for: 0 for the
/// horizontal and 1 for the vertical one.
pub open spec fn position_layout(nl: Netlist, n: int) -> Seq<(usize, u8)>
    decreases n,
{
    if n <= 0 {
        Seq::empty()
    } else if nl.instances@[n - 1].fixed {
        position_layout(nl, n - 1)
    } else {
        position_layout(nl, n - 1).push(((n - 1) as usize, 0u8)).push(((n - 1) as usize, 1u8))
    }
}

/// Lists the nodes of the parameters for the positions of all cells that can move.
pub fn position_param_ids(g: &Graph, netlist: &Netlist) -> (res: Vec<u32>)
    requires
        has_position_params(*g, *netlist),
        graph::has_room(*g, 0),
    ensures
        res@.map_values(|i: u32| i as int) == position_params(
            *g,
            *netlist,
            netlist.instances@.len() as int,
        ),
{
    let names = graph::list_params(g);
    let ghost all = graph::opt_texts(names@);
    assert(all.len() == names@.len());
    assert(graph::param_names(graph::graph_nodes(*g)).len() == graph::graph_nodes(*g).len());
    let mut out: Vec<u32> = Vec::new();
    assert(out@.map_values(|i: u32| i as int) =~= Seq::empty());
    let mut n: usize = 0;
    while n < netlist.instances.len()
        invariant
            n <= netlist.instances@.len(),
            has_position_params(*g, *netlist),
            graph::has_room(*g, 0),
            all == graph::opt_texts(names@),
            all == graph::param_names(graph::graph_nodes(*g)),
            all.len() == names@.len(),
            all.len() == graph::graph_nodes(*g).len(),
            out@.map_values(|i: u32| i as int) == position_params(*g, *netlist, n as int),
        decreases netlist.instances@.len() - n,
    {
        if !netlist.instances[n].fixed {
            let name = netlist.instances[n].name.as_str();
            let kx = position_key(netlist.name.as_str(), name, ".x");
            let ky = position_key(netlist.name.as_str(), name, ".y");
            assert(!netlist.instances@[n as int].fixed);
            let ghost before = out@;
            match (find_param(&names, kx.as_str()), find_param(&names, ky.as_str())) {
                (Some(a), Some(b)) => {
                    out.push(a as u32);
                    out.push(b as u32);
                    assert(out@.map_values(|i: u32| i as int) =~= before.map_values(
                        |i: u32| i as int,
                    ).push(a as int).push(b as int));
                },
                _ => {
                    assert(false);
                },
            }
        }
        n = n + 1;
    }
    out
}

/// Lists which cell and which coordinate each of those parameters stands for.
pub fn position_param_layout(netlist: &Netlist) -> (res: Vec<(usize, u8)>)
    ensures
        res@ == position_layout(*netlist, netlist.instances@.len() as int),
{
    let mut out: Vec<(usize, u8)> = Vec::new();
    let mut n: usize = 0;
    while n < netlist.instances.len()
        invariant
            n <= netlist.instances@.len(),
            out@ == position_layout(*netlist, n as int),
        decreases netlist.instances@.len() - n,
    {
        if !netlist.instances[n].fixed {
            out.push((n, 0));
            out.push((n, 1));
        }
        n = n + 1;
    }
    out
}

/// Both lists are of the same length: each parameter stands for one coordinate.
pub proof fn layout_matches_params(g: Graph, nl: Netlist, n: int)
    ensures
        position_params(g, nl, n).len() == position_layout(nl, n).len(),
    decreases n,
{
    if n > 0 {
        layout_matches_params(g, nl, n - 1);
    }
}

/// Where a pin is in its cell: at the centre of the first port of its name. It is nowhere
/// exactly where there is no such cell or port.
pub proof fn offsets_are_those_of_ports(pin: PinModel, cells: Seq<CellModel>)
    ensures
        pin_offset(pin, cells) is Some <==> route::has_port(pin, cells),
        pin_offset(pin, cells) is Some ==> {
            let ports = cells[pin.instance as int].ports;
            exists|i: int|
                #![trigger ports[i]]
                0 <= i < ports.len() && ports[i].name == pin.port && pin_offset(pin, cells)
                    == Some(
                    (
                        single::of_int(ports[i].center.x as int),
                        single::of_int(ports[i].center.y as int),
                    ),
                ) && (forall|j: int| 0 <= j < i ==> (#[trigger] ports[j]).name != pin.port)
        },
{
    if pin.instance < cells.len() {
        route::ports_are_found_by_name(cells[pin.instance as int].ports, pin.port);
    }
}

/// The parameters for positions are in the order of the cells that can move, for each the
/// horizontal one and then the vertical one; the list of what they stand for says so. No
/// cell that must stay has any.
pub proof fn params_stand_for_what_is_listed(g: Graph, nl: Netlist, n: int)
    requires
        0 <= n <= nl.instances@.len(),
        nl.instances@.len() <= usize::MAX,
    ensures
        position_params(g, nl, n).len() == position_layout(nl, n).len(),
        forall|k: int|
            #![trigger position_layout(nl, n)[k]]
            0 <= k < position_layout(nl, n).len() ==> {
                let (i, axis) = position_layout(nl, n)[k];
                let name = nl.name@ + "."@ + nl.instances@[i as int].name@;
                &&& i < n && !nl.instances@[i as int].fixed
                &&& axis == (if k % 2 == 0 {
                    0u8
                } else {
                    1u8
                })
                &&& axis == 0 ==> position_params(g, nl, n)[k] == param_at(g, name + ".x"@)
                &&& axis == 1 ==> position_params(g, nl, n)[k] == param_at(g, name + ".y"@)
            },
        forall|j: int, k: int|
            0 <= j < k < position_layout(nl, n).len() ==> (#[trigger] position_layout(nl, n)[j]).0
                <= (#[trigger] position_layout(nl, n)[k]).0,
        forall|i: int|
            0 <= i < n && !(#[trigger] nl.instances@[i]).fixed ==> position_layout(nl, n).contains(
                (i as usize, 0u8),
            ) && position_layout(nl, n).contains((i as usize, 1u8)),
        position_layout(nl, n).len() % 2 == 0,
    decreases n,
{
    if n > 0 {
        params_stand_for_what_is_listed(g, nl, n - 1);
        let before = position_layout(nl, n - 1);
        let now = position_layout(nl, n);
        assert forall|i: int|
            0 <= i < n && !(#[trigger] nl.instances@[i]).fixed implies now.contains(
            (i as usize, 0u8),
        ) && now.contains((i as usize, 1u8)) by {
            if i < n - 1 {
                let a = choose|a: int| 0 <= a < before.len() && before[a] == (i as usize, 0u8);
                let b = choose|b: int| 0 <= b < before.len() && before[b] == (i as usize, 1u8);
                assert(now[a] == before[a] && now[b] == before[b]);
            } else {
                assert(now[before.len() as int] == (i as usize, 0u8));
                assert(now[before.len() as int + 1] == (i as usize, 1u8));
            }
        }
    }
}

/// What a placement that can be improved starts from and what it comes to: the
/// displacement of each move, the horizontal one first, and the nearest whole numbers of each
/// position as a move that only shifts.
pub proof fn positions_are_displacements(ts: Seq<Trans>, xy: Seq<(Single, Single)>, i: int)
    ensures
        shifts(ts).len() == ts.len(),
        0 <= i < ts.len() ==> shifts(ts)[i].0 == single::of_int(ts[i].disp.x as int)
            && shifts(ts)[i].1 == single::of_int(ts[i].disp.y as int),
        snapped(xy).len() == xy.len(),
        0 <= i < xy.len() ==> snapped(xy)[i].rot is R0 && !snapped(xy)[i].mirror && snapped(
            xy,
        )[i].disp.x == xy[i].0.rounded() as i64 && snapped(xy)[i].disp.y
            == xy[i].1.rounded() as i64,
{
}

/// Where weights do not count, the lengths of nets are the same whatever their weights; and
/// weights that are as good as one change nothing where they do.
pub proof fn weights_count_where_asked(
    nets: Seq<NetModel>,
    other: Seq<NetModel>,
    cells: Seq<CellModel>,
    ps: Seq<(Expr, Expr)>,
    beta: Expr,
    s: Seq<usize>,
    n: int,
)
    requires
        0 <= n <= nets.len(),
        other.len() == nets.len(),
        forall|i: int| 0 <= i < nets.len() ==> (#[trigger] nets[i]).pins == other[i].pins,
    ensures
        lengths(nets, cells, ps, beta, s, false, n) == lengths(
            other,
            cells,
            ps,
            beta,
            s,
            false,
            n,
        ),
        (forall|i: int| 0 <= i < n ==> near_one((#[trigger] other[i]).weight)) ==> lengths(
            nets,
            cells,
            ps,
            beta,
            s,
            false,
            n,
        ) == lengths(other, cells, ps, beta, s, true, n),
    decreases n,
{
    if n > 0 {
        weights_count_where_asked(nets, other, cells, ps, beta, s, n - 1);
        assert(nets[n - 1].pins == other[n - 1].pins);
        if forall|i: int| 0 <= i < n ==> near_one((#[trigger] other[i]).weight) {
            assert(near_one(other[n - 1].weight));
        }
    }
}

/// Half the extents of a cell: the horizontal one comes of the left and the right side of
/// its box, the vertical one of the lower and the upper side.
pub proof fn half_extents_are_those_of_boxes(cells: Seq<CellModel>, i: int)
    requires
        0 <= i < cells.len(),
    ensures
        all_half_dims(cells).len() == cells.len(),
        all_half_dims(cells)[i].0 == single::of_int(
            cells[i].bbox.max.x - cells[i].bbox.min.x,
        ).mul_spec(Single { bits: HALF_BITS }),
        all_half_dims(cells)[i].1 == single::of_int(
            cells[i].bbox.max.y - cells[i].bbox.min.y,
        ).mul_spec(Single { bits: HALF_BITS }),
{
}

} // verus!
