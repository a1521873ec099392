//! The losses of placement over all positions at once, for one placement or for a
//! batch of them.

use crate::ad;
use crate::ad::{DifferentiablePlacement, Positions};
use crate::ad::{DENSITY_BETA_INPUT, HPWL_BETA_INPUT, POSITIONS_X_PARAM, POSITIONS_Y_PARAM};
use crate::flow;
use crate::graph;
use crate::graph::{BinaryOp, Expr};
use crate::layout;
use crate::layout::{CellModel, CellView};
use crate::netlist;
use crate::netlist::Netlist;
use crate::single::{Single, HALF_BITS, ONE_BITS};
use klayout_core::Library;
use rlx_ir::Graph;
use vstd::prelude::*;
use vstd::string::*;

verus! {

// ── tables ─────────────────────────────────────────────────────────

/// Half the extents of each of the first `i` cells and of every cell together, row by
/// row.
pub open spec fn pair_table(h: Seq<Single>, i: int) -> Seq<Single>
    decreases i,
{
    if i <= 0 {
        Seq::empty()
    } else {
        pair_table(h, i - 1) + Seq::new(h.len(), |j: int| h[i - 1].add_spec(h[j]))
    }
}

/// Zero for each of the first `i` cells with itself, one with every other, row by row.
pub open spec fn mask_table(n: nat, i: int) -> Seq<Single>
    decreases i,
{
    if i <= 0 {
        Seq::empty()
    } else {
        mask_table(n, i - 1) + Seq::new(
            n,
            |j: int|
                if j == i - 1 {
                    Single { bits: 0 }
                } else {
                    Single { bits: ONE_BITS }
                },
        )
    }
}

/// Ones.
pub open spec fn ones(n: nat) -> Seq<Single> {
    Seq::new(n, |i: int| Single { bits: ONE_BITS })
}

/// First and second halves of the extents of cells.
pub open spec fn half_widths(hs: Seq<(Single, Single)>) -> Seq<Single> {
    hs.map_values(|h: (Single, Single)| h.0)
}

pub open spec fn half_heights(hs: Seq<(Single, Single)>) -> Seq<Single> {
    hs.map_values(|h: (Single, Single)| h.1)
}

pub(crate) fn split_halves(hs: &Vec<(Single, Single)>) -> (res: (Vec<Single>, Vec<Single>))
    ensures
        res.0@ == half_widths(hs@),
        res.1@ == half_heights(hs@),
{
    let mut ws: Vec<Single> = Vec::new();
    let mut ht: Vec<Single> = Vec::new();
    let mut i: usize = 0;
    while i < hs.len()
        invariant
            i <= hs@.len(),
            ws@ =~= half_widths(hs@).take(i as int),
            ht@ =~= half_heights(hs@).take(i as int),
        decreases hs@.len() - i,
    {
        ws.push(hs[i].0);
        ht.push(hs[i].1);
        i = i + 1;
    }
    assert(ws@ =~= half_widths(hs@));
    assert(ht@ =~= half_heights(hs@));
    (ws, ht)
}

pub(crate) fn pair_table_of(h: &Vec<Single>) -> (res: Vec<Single>)
    ensures
        res@ == pair_table(h@, h@.len() as int),
{
    let mut out: Vec<Single> = Vec::new();
    let mut i: usize = 0;
    while i < h.len()
        invariant
            i <= h@.len(),
            out@ == pair_table(h@, i as int),
        decreases h@.len() - i,
    {
        let ghost before = out@;
        let ghost row = Seq::new(h@.len(), |j: int| h@[i as int].add_spec(h@[j]));
        let mut j: usize = 0;
        assert(out@ =~= before + row.take(0));
        while j < h.len()
            invariant
                i < h@.len(),
                j <= h@.len(),
                row == Seq::new(h@.len(), |j: int| h@[i as int].add_spec(h@[j])),
                out@ =~= before + row.take(j as int),
            decreases h@.len() - j,
        {
            out.push(h[i].add(h[j]));
            j = j + 1;
        }
        assert(row.take(h@.len() as int) =~= row);
        i = i + 1;
    }
    out
}

pub(crate) fn mask_table_of(n: usize) -> (res: Vec<Single>)
    ensures
        res@ == mask_table(n as nat, n as int),
{
    let mut out: Vec<Single> = Vec::new();
    let mut i: usize = 0;
    while i < n
        invariant
            i <= n,
            out@ == mask_table(n as nat, i as int),
        decreases n - i,
    {
        let ghost before = out@;
        let ghost row = Seq::new(
            n as nat,
            |j: int|
                if j == i {
                    Single { bits: 0 }
                } else {
                    Single { bits: ONE_BITS }
                },
        );
        let mut j: usize = 0;
        assert(out@ =~= before + row.take(0));
        while j < n
            invariant
                i < n,
                j <= n,
                row == Seq::new(
                    n as nat,
                    |j: int|
                        if j == i {
                            Single { bits: 0 }
                        } else {
                            Single { bits: ONE_BITS }
                        },
                ),
                out@ =~= before + row.take(j as int),
            decreases n - j,
        {
            out.push(
                if j == i {
                    Single { bits: 0 }
                } else {
                    Single { bits: ONE_BITS }
                },
            );
            j = j + 1;
        }
        assert(row.take(n as int) =~= row);
        assert(before + row =~= mask_table(n as nat, i + 1));
        i = i + 1;
    }
    out
}

fn ones_of(n: usize) -> (res: Vec<Single>)
    ensures
        res@ == ones(n as nat),
{
    let mut out: Vec<Single> = Vec::new();
    let mut i: usize = 0;
    while i < n
        invariant
            i <= n,
            out@ =~= ones(i as nat),
        decreases n - i,
    {
        out.push(Single { bits: ONE_BITS });
        i = i + 1;
    }
    out
}

// ── overlaps of all pairs ──────────────────────────────────────────

/// Whether some numbers can be extents.
pub open spec fn sizes_fit(b: nat, n: nat) -> bool {
    b <= i64::MAX && n <= i64::MAX && b * n * n <= usize::MAX && n * n <= usize::MAX
}

/// The extents over which pairs are compared, those of a column and of a row of
/// positions.
#[derive(Debug)]
pub struct Grid {
    pub full: Vec<usize>,
    pub column: Vec<usize>,
    pub row: Vec<usize>,
    /// How many pairs there are.
    pub count: usize,
}

#[verifier::ext_equal]
pub struct GridModel {
    pub full: Seq<usize>,
    pub column: Seq<usize>,
    pub row: Seq<usize>,
    pub count: nat,
}

impl Grid {
    pub open spec fn model(self) -> GridModel {
        GridModel {
            full: self.full@,
            column: self.column@,
            row: self.row@,
            count: self.count as nat,
        }
    }

    pub open spec fn fits(self) -> bool {
        graph::dims_fit(self.full@) && graph::dims_fit(self.column@) && graph::dims_fit(self.row@)
    }
}

/// The differences of all pairs of positions.
pub open spec fn differences(p: Expr, d: GridModel) -> Expr {
    graph::bin(
        BinaryOp::Sub,
        graph::expand(graph::reshaped(p, d.column), d.full),
        graph::expand(graph::reshaped(p, d.row), d.full),
        d.full,
    )
}

fn put_differences(g: &mut Graph, p: u32, d: &Grid) -> (id: u32)
    requires
        graph::sound(*old(g)),
        graph::has_room(*old(g), 5),
        graph::is_node(*old(g), p),
        d.fits(),
    ensures
        graph::grown(*old(g), *final(g), 5),
        graph::stands(*final(g), id, differences(graph::at(*old(g), p), d.model())),
{
    let col: u32 = graph::put_reshape(g, p, &d.column);
    let row: u32 = graph::put_reshape(g, p, &d.row);
    let col_b: u32 = graph::put_expand(g, col, &d.full);
    let row_b: u32 = graph::put_expand(g, row, &d.full);
    graph::put_binary(g, BinaryOp::Sub, col_b, row_b, &d.full)
}

/// How far all pairs of cells overlap in one direction.
pub open spec fn grid_overlap_1d(p: Expr, reach: Expr, beta: Expr, d: GridModel) -> Expr {
    ad::relu(
        graph::bin(
            BinaryOp::Sub,
            reach,
            ad::distance(differences(p, d), ad::numbers(ones(d.count), d.full), d.full),
            d.full,
        ),
        beta,
        d.full,
    )
}

fn put_grid_overlap_1d(g: &mut Graph, p: u32, reach: u32, beta: u32, d: &Grid) -> (id: u32)
    requires
        graph::sound(*old(g)),
        graph::has_room(*old(g), 13),
        graph::is_node(*old(g), p),
        graph::is_node(*old(g), reach),
        graph::is_node(*old(g), beta),
        d.fits(),
    ensures
        graph::grown(*old(g), *final(g), 13),
        graph::stands(
            *final(g),
            id,
            grid_overlap_1d(
                graph::at(*old(g), p),
                graph::at(*old(g), reach),
                graph::at(*old(g), beta),
                d.model(),
            ),
        ),
{
    let diff: u32 = put_differences(g, p, d);
    let table = ones_of(d.count);
    let eps: u32 = ad::put_numbers(g, &table, &d.full);
    let dist: u32 = ad::put_distance(g, diff, eps, &d.full);
    let z: u32 = graph::put_binary(g, BinaryOp::Sub, reach, dist, &d.full);
    ad::put_relu(g, z, beta, &d.full)
}

/// The overlaps of all pairs of cells, without those of a cell with itself.
pub open spec fn grid_overlaps(
    px: Expr,
    py: Expr,
    w: Expr,
    h: Expr,
    mask: Expr,
    beta: Expr,
    d: GridModel,
) -> Expr {
    let sharp = graph::expand(beta, d.full);
    graph::bin(
        BinaryOp::Mul,
        graph::bin(
            BinaryOp::Mul,
            grid_overlap_1d(px, w, sharp, d),
            grid_overlap_1d(py, h, sharp, d),
            d.full,
        ),
        mask,
        d.full,
    )
}

pub(crate) fn put_grid_overlaps(
    g: &mut Graph,
    p: (u32, u32),
    reach: (u32, u32),
    mask: u32,
    beta: u32,
    d: &Grid,
) -> (id: u32)
    requires
        graph::sound(*old(g)),
        graph::has_room(*old(g), 29),
        graph::is_node(*old(g), p.0),
        graph::is_node(*old(g), p.1),
        graph::is_node(*old(g), reach.0),
        graph::is_node(*old(g), reach.1),
        graph::is_node(*old(g), mask),
        graph::is_node(*old(g), beta),
        d.fits(),
    ensures
        graph::grown(*old(g), *final(g), 29),
        graph::stands(
            *final(g),
            id,
            grid_overlaps(
                graph::at(*old(g), p.0),
                graph::at(*old(g), p.1),
                graph::at(*old(g), reach.0),
                graph::at(*old(g), reach.1),
                graph::at(*old(g), mask),
                graph::at(*old(g), beta),
                d.model(),
            ),
        ),
{
    let sharp: u32 = graph::put_expand(g, beta, &d.full);
    let rx: u32 = put_grid_overlap_1d(g, p.0, reach.0, sharp, d);
    let ry: u32 = put_grid_overlap_1d(g, p.1, reach.1, sharp, d);
    let pair: u32 = graph::put_binary(g, BinaryOp::Mul, rx, ry, &d.full);
    graph::put_binary(g, BinaryOp::Mul, pair, mask, &d.full)
}

// ── one placement ──────────────────────────────────────────────────

/// How many of the first `n` cells can move.
pub open spec fn movable(nl: Netlist, n: int) -> nat
    decreases n,
{
    if n <= 0 {
        0
    } else {
        movable(nl, n - 1) + if nl.instances@[n - 1].fixed {
            0nat
        } else {
            1nat
        }
    }
}

fn count_movable(netlist: &Netlist) -> (res: usize)
    ensures
        res == movable(*netlist, netlist.instances@.len() as int),
        res <= netlist.instances@.len(),
{
    let mut c: usize = 0;
    let mut i: usize = 0;
    while i < netlist.instances.len()
        invariant
            c <= i <= netlist.instances@.len(),
            c == movable(*netlist, i as int),
        decreases netlist.instances@.len() - i,
    {
        if !netlist.instances[i].fixed {
            c = c + 1;
        }
        i = i + 1;
    }
    c
}

/// A coordinate of one cell: an entry of the parameter for all cells that can move, or a
/// number.
pub open spec fn piece(nl: Netlist, xy: Single, param: Expr, i: int) -> Expr {
    if nl.instances@[i].fixed {
        ad::number(xy, ad::scalar())
    } else {
        graph::narrow(0, movable(nl, i) as usize, 1, param, ad::scalar())
    }
}

/// The coordinates of all cells: one parameter where all can move, else the pieces one
/// behind the other.
pub open spec fn all_positions(nl: Netlist, seed: DifferentiablePlacement) -> (Expr, Expr) {
    let n = nl.instances@.len();
    let m = movable(nl, n as int);
    let px = graph::parameter(POSITIONS_X_PARAM@, seq![m as usize]);
    let py = graph::parameter(POSITIONS_Y_PARAM@, seq![m as usize]);
    if m == n {
        (px, py)
    } else {
        (
            graph::joined(
                Seq::new(n, |i: int| piece(nl, seed.xy(i).0, px, i)),
                0,
                seq![n as usize],
            ),
            graph::joined(
                Seq::new(n, |i: int| piece(nl, seed.xy(i).1, py, i)),
                0,
                seq![n as usize],
            ),
        )
    }
}

fn put_piece(
    g: &mut Graph,
    fixed: bool,
    xy: Single,
    param: Option<u32>,
    k: usize,
    s: &Vec<usize>,
) -> (id: u32)
    requires
        graph::sound(*old(g)),
        graph::has_room(*old(g), 1),
        s@ == ad::scalar(),
        !fixed ==> param is Some,
        ad::opt_node(*old(g), param),
    ensures
        graph::grown(*old(g), *final(g), 1),
        graph::stands(
            *final(g),
            id,
            if fixed {
                ad::number(xy, ad::scalar())
            } else {
                graph::narrow(0, k, 1, graph::at(*old(g), param->0), ad::scalar())
            },
        ),
{
    if fixed {
        ad::put_number(g, xy, s)
    } else {
        graph::put_narrow(g, 0, k, 1, param.unwrap(), s)
    }
}

fn put_pieces(
    g: &mut Graph,
    netlist: &Netlist,
    seed: &DifferentiablePlacement,
    px: Option<u32>,
    py: Option<u32>,
) -> (res: (Vec<u32>, Vec<u32>))
    requires
        graph::sound(*old(g)),
        graph::has_room(*old(g), 2 * netlist.instances@.len()),
        ad::opt_node(*old(g), px),
        ad::opt_node(*old(g), py),
        movable(*netlist, netlist.instances@.len() as int) > 0 ==> px is Some && py is Some,
    ensures
        graph::grown(*old(g), *final(g), 2 * netlist.instances@.len()),
        graph::are_nodes(*final(g), res.0@),
        graph::are_nodes(*final(g), res.1@),
        graph::all_at(*final(g), res.0@) == Seq::new(
            netlist.instances@.len(),
            |i: int| piece(*netlist, seed.xy(i).0, graph::at(*old(g), px->0), i),
        ),
        graph::all_at(*final(g), res.1@) == Seq::new(
            netlist.instances@.len(),
            |i: int| piece(*netlist, seed.xy(i).1, graph::at(*old(g), py->0), i),
        ),
{
    let ghost g0 = *g;
    let ghost n = netlist.instances@.len();
    let ghost ex = Seq::new(n, |i: int| piece(*netlist, seed.xy(i).0, graph::at(g0, px->0), i));
    let ghost ey = Seq::new(n, |i: int| piece(*netlist, seed.xy(i).1, graph::at(g0, py->0), i));
    let s = ad::dims1(1);
    let mut xs: Vec<u32> = Vec::new();
    let mut ys: Vec<u32> = Vec::new();
    let mut next: usize = 0;
    let mut i: usize = 0;
    while i < netlist.instances.len()
        invariant
            i <= n,
            n == netlist.instances@.len(),
            s@ == ad::scalar(),
            ex == Seq::new(n, |i: int| piece(*netlist, seed.xy(i).0, graph::at(g0, px->0), i)),
            ey == Seq::new(n, |i: int| piece(*netlist, seed.xy(i).1, graph::at(g0, py->0), i)),
            next == movable(*netlist, i as int),
            next <= i,
            movable(*netlist, n as int) > 0 ==> px is Some && py is Some,
            ad::opt_node(g0, px),
            ad::opt_node(g0, py),
            graph::has_room(g0, 2 * n),
            graph::grown(g0, *g, (2 * i) as nat),
            graph::are_nodes(*g, xs@),
            graph::are_nodes(*g, ys@),
            graph::all_at(*g, xs@) =~= ex.take(i as int),
            graph::all_at(*g, ys@) =~= ey.take(i as int),
        decreases n - i,
    {
        let ghost g1 = *g;
        let ghost xs0 = xs@;
        let ghost ys0 = ys@;
        let fixed: bool = netlist.instances[i].fixed;
        proof {
            lemma_movable(*netlist, i + 1, n as int);
            if px is Some {
                assert(graph::at(g1, px->0) == graph::at(g0, px->0));
            }
            if py is Some {
                assert(graph::at(g1, py->0) == graph::at(g0, py->0));
            }
        }
        let p: (Single, Single) = seed.xy_of(i);
        let x: u32 = put_piece(g, fixed, p.0, px, next, &s);
        let ghost g2 = *g;
        proof {
            if py is Some {
                assert(graph::at(g2, py->0) == graph::at(g1, py->0));
            }
        }
        let y: u32 = put_piece(g, fixed, p.1, py, next, &s);
        xs.push(x);
        ys.push(y);
        if !fixed {
            next = next + 1;
        }
        proof {
            graph::growing_adds_up(g1, g2, *g, 1, 1);
            graph::growing_adds_up(g0, g1, *g, (2 * i) as nat, 2);
            ad::lemma_all_at(g1, *g, 2, xs0);
            ad::lemma_all_at(g1, *g, 2, ys0);
            assert(graph::all_at(*g, xs@) =~= graph::all_at(*g, xs0).push(graph::at(*g, x)));
            assert(graph::all_at(*g, ys@) =~= graph::all_at(*g, ys0).push(graph::at(*g, y)));
            assert(graph::at(*g, x) == graph::at(g2, x));
            assert(graph::at(*g, x) == ex[i as int]);
            assert(graph::at(*g, y) == ey[i as int]);
        }
        i = i + 1;
    }
    assert(ex.take(n as int) =~= ex);
    assert(ey.take(n as int) =~= ey);
    (xs, ys)
}

proof fn lemma_movable(nl: Netlist, k: int, n: int)
    requires
        0 <= k <= n,
    ensures
        movable(nl, k) <= movable(nl, n),
        movable(nl, n) <= n,
    decreases n,
{
    if k < n {
        lemma_movable(nl, k, n - 1);
    } else if n > 0 {
        lemma_movable(nl, n - 1, n - 1);
    }
}

fn put_positions(g: &mut Graph, netlist: &Netlist, seed: &DifferentiablePlacement) -> (res: (
    u32,
    u32,
))
    requires
        graph::sound(*old(g)),
        graph::has_room(*old(g), 2 * netlist.instances@.len() + 4),
    ensures
        graph::grown(*old(g), *final(g), 2 * netlist.instances@.len() + 4),
        graph::stands(*final(g), res.0, all_positions(*netlist, *seed).0),
        graph::stands(*final(g), res.1, all_positions(*netlist, *seed).1),
{
    let ghost g0 = *g;
    let n: usize = netlist.instances.len();
    let m: usize = count_movable(netlist);
    let dims = ad::dims1(m);
    if m == n {
        let px: u32 = graph::put_param(g, POSITIONS_X_PARAM, &dims);
        let py: u32 = graph::put_param(g, POSITIONS_Y_PARAM, &dims);
        return (px, py);
    }
    let (px, py): (Option<u32>, Option<u32>) = if m > 0 {
        let px: u32 = graph::put_param(g, POSITIONS_X_PARAM, &dims);
        let py: u32 = graph::put_param(g, POSITIONS_Y_PARAM, &dims);
        (Some(px), Some(py))
    } else {
        (None, None)
    };
    let ghost g1 = *g;
    let (xs, ys): (Vec<u32>, Vec<u32>) = put_pieces(g, netlist, seed, px, py);
    let ghost g2 = *g;
    let full = ad::dims1(n);
    let x: u32 = graph::put_concat(g, &xs, 0, &full);
    let ghost g3 = *g;
    proof {
        ad::lemma_all_at(g2, g3, 1, ys@);
        let want = all_positions(*netlist, *seed);
        assert(graph::all_at(g2, xs@) =~= want.0.args) by {
            lemma_pieces_without_param(*netlist, m as nat);
        }
        assert(graph::all_at(g2, ys@) =~= want.1.args) by {
            lemma_pieces_without_param(*netlist, m as nat);
        }
    }
    let y: u32 = graph::put_concat(g, &ys, 0, &full);
    (x, y)
}

/// Where no cell can move, every cell is fixed.
proof fn lemma_pieces_without_param(nl: Netlist, m: nat)
    requires
        m == movable(nl, nl.instances@.len() as int),
    ensures
        m == 0 ==> forall|i: int|
            0 <= i < nl.instances@.len() ==> (#[trigger] nl.instances@[i]).fixed,
{
    if m == 0 {
        assert forall|i: int| 0 <= i < nl.instances@.len() implies (#[trigger] nl.instances@[i]).fixed by {
            lemma_movable(nl, i + 1, nl.instances@.len() as int);
        }
    }
}

/// The overlaps of all cells.
pub open spec fn overlaps_of_all(
    px: Expr,
    py: Expr,
    hs: Seq<(Single, Single)>,
    beta: Expr,
) -> Expr {
    let n = hs.len() as usize;
    let s = ad::scalar();
    if n < 2 {
        ad::number(Single { bits: 0 }, s)
    } else {
        let full = seq![n, n];
        let d = GridModel { full, column: seq![n, 1], row: seq![1, n], count: (n * n) as nat };
        graph::bin(
            BinaryOp::Mul,
            graph::summed(
                grid_overlaps(
                    px,
                    py,
                    ad::numbers(pair_table(half_widths(hs), n as int), full),
                    ad::numbers(pair_table(half_heights(hs), n as int), full),
                    ad::numbers(mask_table(n as nat, n as int), full),
                    beta,
                    d,
                ),
                seq![0, 1],
                s,
            ),
            ad::number(Single { bits: HALF_BITS }, s),
            s,
        )
    }
}

pub(crate) fn axes2(a: usize, b: usize) -> (res: Vec<usize>)
    requires
        b == a + 1,
    ensures
        res@ == seq![a, b],
        graph::adjacent(res@),
{
    let mut v: Vec<usize> = Vec::new();
    v.push(a);
    v.push(b);
    assert(v@ =~= seq![a, b]);
    v
}

fn put_overlaps_of_all(
    g: &mut Graph,
    cells: &Vec<CellView>,
    px: u32,
    py: u32,
    beta: u32,
) -> (id: u32)
    requires
        graph::sound(*old(g)),
        graph::has_room(*old(g), 36),
        graph::is_node(*old(g), px),
        graph::is_node(*old(g), py),
        graph::is_node(*old(g), beta),
        ad::extents_fit(layout::cell_models(cells@)),
        sizes_fit(1, cells@.len()),
    ensures
        graph::grown(*old(g), *final(g), 36),
        graph::stands(
            *final(g),
            id,
            overlaps_of_all(
                graph::at(*old(g), px),
                graph::at(*old(g), py),
                ad::all_half_dims(layout::cell_models(cells@)),
                graph::at(*old(g), beta),
            ),
        ),
{
    let n: usize = cells.len();
    assert(layout::cell_models(cells@).len() == n);
    let s = ad::dims1(1);
    if n < 2 {
        return ad::put_number(g, Single { bits: 0 }, &s);
    }
    let hs = ad::half_dims_of(cells);
    let (ws, ht): (Vec<Single>, Vec<Single>) = split_halves(&hs);
    let full = ad::dims2(n, n);
    let wt = pair_table_of(&ws);
    let w: u32 = ad::put_numbers(g, &wt, &full);
    let hh = pair_table_of(&ht);
    let h: u32 = ad::put_numbers(g, &hh, &full);
    let mt = mask_table_of(n);
    let mask: u32 = ad::put_numbers(g, &mt, &full);
    let d = Grid { full, column: ad::dims2(n, 1), row: ad::dims2(1, n), count: n * n };
    let pairs: u32 = put_grid_overlaps(g, (px, py), (w, h), mask, beta, &d);
    let total: u32 = graph::put_sum(g, pairs, axes2(0, 1), &s);
    let half: u32 = ad::put_number(g, Single { bits: HALF_BITS }, &s);
    graph::put_binary(g, BinaryOp::Mul, total, half, &s)
}

/// The lengths of nets and the overlaps of cells, with their weight.
pub open spec fn batched_loss(
    nl: Netlist,
    cells: Seq<CellModel>,
    seed: DifferentiablePlacement,
    density_weight: Single,
) -> Expr {
    let s = ad::scalar();
    let (px, py) = all_positions(nl, seed);
    let n = nl.instances@.len();
    let ps = Seq::new(
        n,
        |i: int| (graph::narrow(0, i as usize, 1, px, s), graph::narrow(0, i as usize, 1, py, s)),
    );
    graph::bin(
        BinaryOp::Add,
        ad::or_zero(
            ad::lengths(
                netlist::net_models(nl.nets@),
                cells,
                ps,
                graph::given(HPWL_BETA_INPUT@, s),
                s,
                true,
                nl.nets@.len() as int,
            ),
            s,
        ),
        graph::bin(
            BinaryOp::Mul,
            overlaps_of_all(
                px,
                py,
                ad::all_half_dims(cells),
                graph::given(DENSITY_BETA_INPUT@, s),
            ),
            ad::number(density_weight, s),
            s,
        ),
        s,
    )
}

/// Builds the lengths of nets and the overlaps of cells over all positions at once.
pub fn combined_loss_graph_batched(
    netlist: &Netlist,
    lib: &Library,
    seed: &DifferentiablePlacement,
    density_weight: Single,
) -> (g: Graph)
    requires
        flow::knows(*lib, *netlist, Set::empty()),
        ad::extents_fit(flow::cells_of(*lib, *netlist)),
        sizes_fit(1, netlist.instances@.len()),
        2 * netlist.instances@.len() + ad::nets_cost(
            netlist::net_models(netlist.nets@),
            netlist.nets@.len() as int,
        ) + 48 <= 0xffff_ffff,
    ensures
        ad::yields(
            g,
            batched_loss(*netlist, flow::cells_of(*lib, *netlist), *seed, density_weight),
        ),
        graph::graph_name(g) == netlist.name@ + "_combined_batched"@,
{
    let cells = flow::read_cells(lib, netlist);
    let s = ad::dims1(1);
    let mut g = ad::start(netlist.name.as_str(), "_combined_batched");
    let (px, py): (u32, u32) = put_positions(&mut g, netlist, seed);
    let ghost g1 = g;
    let hpwl_beta: u32 = graph::put_input(&mut g, HPWL_BETA_INPUT, &s);
    let density_beta: u32 = graph::put_input(&mut g, DENSITY_BETA_INPUT, &s);
    let ghost g2 = g;
    let p = Positions::Together(px, py);
    proof {
        assert(graph::at(g2, px) == graph::at(g1, px));
        assert(graph::at(g2, py) == graph::at(g1, py));
        let (ex, ey) = all_positions(*netlist, *seed);
        let sc = ad::scalar();
        assert(p.all(g2, cells@.len()) =~= Seq::new(
            netlist.instances@.len(),
            |i: int|
                (graph::narrow(0, i as usize, 1, ex, sc), graph::narrow(0, i as usize, 1, ey, sc)),
        ));
    }
    let hpwl: u32 = ad::put_lengths(&mut g, netlist, &cells, &p, hpwl_beta, &s, true);
    let ghost g3 = g;
    proof {
        assert(graph::at(g3, px) == graph::at(g2, px));
        assert(graph::at(g3, py) == graph::at(g2, py));
        assert(graph::at(g3, density_beta) == graph::at(g2, density_beta));
    }
    let density: u32 = put_overlaps_of_all(&mut g, &cells, px, py, density_beta);
    let ghost g4 = g;
    let w: u32 = ad::put_number(&mut g, density_weight, &s);
    let wd: u32 = graph::put_binary(&mut g, BinaryOp::Mul, density, w, &s);
    assert(graph::at(g4, hpwl) == graph::at(g3, hpwl));
    let total: u32 = graph::put_binary(&mut g, BinaryOp::Add, hpwl, wd, &s);
    ad::finish(&mut g, total);
    g
}

/// The places of the parameters for all positions, those that a graph has.
pub open spec fn batched_params(g: Graph) -> Seq<int> {
    let n = graph::graph_nodes(g).len();
    let x = ad::param_at(g, POSITIONS_X_PARAM@);
    let y = ad::param_at(g, POSITIONS_Y_PARAM@);
    (if x < n {
        seq![x]
    } else {
        Seq::empty()
    }) + (if y < n {
        seq![y]
    } else {
        Seq::empty()
    })
}

/// Lists the nodes of the parameters for all positions: the horizontal and then the
/// vertical ones, none where no cell can move.
pub fn position_param_ids_batched(g: &Graph) -> (res: Vec<u32>)
    requires
        graph::has_room(*g, 0),
    ensures
        res@.map_values(|i: u32| i as int) == batched_params(*g),
{
    let names = graph::list_params(g);
    assert(graph::opt_texts(names@).len() == names@.len());
    assert(graph::param_names(graph::graph_nodes(*g)).len() == graph::graph_nodes(*g).len());
    let mut out: Vec<u32> = Vec::new();
    match ad::find_param(&names, POSITIONS_X_PARAM) {
        Some(i) => {
            out.push(i as u32);
        },
        None => {},
    }
    match ad::find_param(&names, POSITIONS_Y_PARAM) {
        Some(i) => {
            out.push(i as u32);
        },
        None => {},
    }
    assert(out@.map_values(|i: u32| i as int) =~= batched_params(*g));
    out
}

/// The same for a batch of placements.
pub fn position_param_ids_parallel(g: &Graph) -> (res: Vec<u32>)
    requires
        graph::has_room(*g, 0),
    ensures
        res@.map_values(|i: u32| i as int) == batched_params(*g),
{
    position_param_ids_batched(g)
}

} // verus!
