//! Where the cells of a design come to lie.

use crate::geom;
use crate::geom::{Bbox, Point, Rot4, Trans, Vec2};
use crate::layout;
use crate::layout::{CellModel, CellView};
use crate::netlist::Netlist;
use vstd::prelude::*;

verus! {

/// A move for every cell of a design, and the box around all of them.
#[derive(Debug)]
pub struct Placement {
    pub transforms: Vec<Trans>,
    pub bbox: Bbox,
}

/// A way to place the cells of a design.
pub trait Placer {
    /// The moves and the box around all cells; none where the cells cannot be placed
    /// in this way.
    spec fn placement(&self, netlist: Netlist, cells: Seq<CellModel>) -> Option<
        (Seq<Trans>, Bbox),
    >;

    /// Places the cells. `cells` holds what is known of the cell of each instance.
    fn place(&self, netlist: &Netlist, cells: &Vec<CellView>) -> (res: Option<Placement>)
        requires
            cells@.len() == netlist.instances@.len(),
        ensures
            match res {
                Some(p) => self.placement(*netlist, layout::cell_models(cells@)) == Some(
                    (p.transforms@, p.bbox),
                ),
                None => self.placement(*netlist, layout::cell_models(cells@)) is None,
            },
    ;
}

// ── the box around all cells ───────────────────────────────────────

/// Whether the first `n` cells can be moved.
pub open spec fn can_move(cells: Seq<CellModel>, ts: Seq<Trans>, n: int) -> bool {
    forall|i: int|
        #![trigger ts[i]]
        0 <= i < n ==> ts[i].image_box(cells[i].bbox) is Some
}

/// The box around the first `n` cells after their moves; none without cells.
pub open spec fn moved_boxes(cells: Seq<CellModel>, ts: Seq<Trans>, n: int) -> Option<Bbox>
    decreases n,
{
    if n <= 0 {
        None
    } else {
        let b = ts[n - 1].image_box(cells[n - 1].bbox)->0;
        match moved_boxes(cells, ts, n - 1) {
            Some(a) => Some(geom::spanned(a, b)),
            None => Some(b),
        }
    }
}

/// How many cells have a move.
pub open spec fn paired(cells: Seq<CellModel>, ts: Seq<Trans>) -> int {
    if cells.len() <= ts.len() {
        cells.len() as int
    } else {
        ts.len() as int
    }
}

/// The box around all cells that have a move; a point without cells, and none where a
/// cell cannot be moved.
pub open spec fn placed_box(cells: Seq<CellModel>, ts: Seq<Trans>) -> Option<Bbox> {
    if !can_move(cells, ts, paired(cells, ts)) {
        None
    } else {
        match moved_boxes(cells, ts, paired(cells, ts)) {
            Some(b) => Some(b),
            None => Some(Bbox { min: Point { x: 0, y: 0 }, max: Point { x: 0, y: 0 } }),
        }
    }
}

/// Finds the box around all cells after their moves.
pub fn union_placed_bbox(cells: &Vec<CellView>, transforms: &Vec<Trans>) -> (res: Option<Bbox>)
    ensures
        res == placed_box(layout::cell_models(cells@), transforms@),
{
    let ghost ms = layout::cell_models(cells@);
    let ghost n = paired(ms, transforms@);
    let mut acc: Option<Bbox> = None;
    let mut i: usize = 0;
    while i < cells.len() && i < transforms.len()
        invariant
            i <= n <= cells@.len(),
            n <= transforms@.len(),
            ms == layout::cell_models(cells@),
            n == paired(ms, transforms@),
            can_move(ms, transforms@, i as int),
            acc == moved_boxes(ms, transforms@, i as int),
        decreases n - i,
    {
        assert(ms[i as int] == cells@[i as int].model());
        match transforms[i].apply_bbox(cells[i].bbox) {
            None => {
                assert(transforms@[i as int].image_box(ms[i as int].bbox) is None);
                return None;
            },
            Some(b) => {
                acc = match acc {
                    Some(a) => Some(geom::union(a, b)),
                    None => Some(b),
                };
            },
        }
        i = i + 1;
    }
    match acc {
        Some(b) => Some(b),
        None => Some(Bbox { min: Point { x: 0, y: 0 }, max: Point { x: 0, y: 0 } }),
    }
}

proof fn lemma_moved_boxes_hold(cells: Seq<CellModel>, ts: Seq<Trans>, n: int, i: int, p: Point)
    requires
        0 <= i < n,
        can_move(cells, ts, n),
        ts[i].image_box(cells[i].bbox)->0.holds(p),
    ensures
        moved_boxes(cells, ts, n) matches Some(b) && b.holds(p),
    decreases n,
{
    if i < n - 1 {
        lemma_moved_boxes_hold(cells, ts, n - 1, i, p);
    }
}

/// The box around all cells holds every point of every cell after its move.
pub proof fn placed_box_holds_every_cell(cells: Seq<CellModel>, ts: Seq<Trans>, i: int, p: Point)
    requires
        0 <= i < paired(cells, ts),
        placed_box(cells, ts) is Some,
        ts[i].image_box(cells[i].bbox)->0.holds(p),
    ensures
        placed_box(cells, ts)->0.holds(p),
{
    lemma_moved_boxes_hold(cells, ts, paired(cells, ts), i, p);
}

// ── given moves ────────────────────────────────────────────────────

/// Places the cells by given moves.
#[derive(Debug)]
pub struct ManualPlacer {
    pub transforms: Vec<Trans>,
}

impl ManualPlacer {
    pub fn new(transforms: Vec<Trans>) -> (res: Self)
        ensures
            res.transforms == transforms,
    {
        ManualPlacer { transforms }
    }
}

fn copy_transforms(v: &Vec<Trans>) -> (res: Vec<Trans>)
    ensures
        res@ == v@,
{
    let mut out: Vec<Trans> = Vec::new();
    let mut i: usize = 0;
    while i < v.len()
        invariant
            i <= v.len(),
            out@ =~= v@.take(i as int),
        decreases v.len() - i,
    {
        out.push(v[i]);
        i = i + 1;
    }
    assert(out@ =~= v@);
    out
}

impl Placer for ManualPlacer {
    /// The given moves, if there is one for each cell.
    open spec fn placement(&self, netlist: Netlist, cells: Seq<CellModel>) -> Option<
        (Seq<Trans>, Bbox),
    > {
        if self.transforms@.len() != netlist.instances@.len() {
            None
        } else {
            match placed_box(cells, self.transforms@) {
                Some(b) => Some((self.transforms@, b)),
                None => None,
            }
        }
    }

    fn place(&self, netlist: &Netlist, cells: &Vec<CellView>) -> (res: Option<Placement>) {
        if self.transforms.len() != netlist.instances.len() {
            return None;
        }
        match union_placed_bbox(cells, &self.transforms) {
            Some(bbox) => Some(Placement { transforms: copy_transforms(&self.transforms), bbox }),
            None => None,
        }
    }
}

// ── in rows ────────────────────────────────────────────────────────

/// Places the cells from left to right, in rows of `cols` cells, with a gap between
/// neighbours and between rows.
#[derive(Debug)]
pub struct GridPlacer {
    pub gap_x: i64,
    pub gap_y: i64,
    pub cols: usize,
}

impl Default for GridPlacer {
    fn default() -> (res: Self)
        ensures
            res.gap_x == 5000,
            res.gap_y == 5000,
            res.cols == 4,
    {
        GridPlacer { gap_x: 5_000, gap_y: 5_000, cols: 4 }
    }
}

/// Where the next cell goes: the lower left corner of its box, the height of the row
/// so far, and the place in the row.
#[verifier::ext_equal]
pub struct Cursor {
    pub x: int,
    pub y: int,
    pub row: int,
    pub col: int,
}

/// The greater of two heights.
pub open spec fn higher(a: int, b: int) -> int {
    if a >= b {
        a
    } else {
        b
    }
}

impl GridPlacer {
    /// A placer with rows of at least one cell.
    pub fn new(gap_x: i64, gap_y: i64, cols: usize) -> (res: Self)
        ensures
            res.gap_x == gap_x,
            res.gap_y == gap_y,
            res.cols == (if cols == 0 {
                1
            } else {
                cols
            }),
    {
        GridPlacer {
            gap_x,
            gap_y,
            cols: if cols == 0 {
                1
            } else {
                cols
            },
        }
    }

    /// Whether a row ends behind a cell.
    pub open spec fn wraps(self, c: Cursor) -> bool {
        c.col + 1 >= self.cols
    }

    /// Where the cell behind one with the box `b` goes.
    pub open spec fn next(self, c: Cursor, b: Bbox) -> Cursor {
        let row = higher(c.row, b.high());
        if self.wraps(c) {
            Cursor { x: 0, y: c.y + row + self.gap_y, row: 0, col: 0 }
        } else {
            Cursor { x: c.x + b.wide() + self.gap_x, y: c.y, row, col: c.col + 1 }
        }
    }

    /// Where the `k`-th cell goes.
    pub open spec fn cursor(self, cells: Seq<CellModel>, k: int) -> Cursor
        decreases k,
    {
        if k <= 0 {
            Cursor { x: 0, y: 0, row: 0, col: 0 }
        } else {
            self.next(self.cursor(cells, k - 1), cells[k - 1].bbox)
        }
    }

    /// Whether a cell with the box `b` can go to a place and be followed by another.
    pub open spec fn step_fits(self, c: Cursor, b: Bbox) -> bool {
        let row = higher(c.row, b.high());
        &&& geom::is_coord(c.x - b.min.x)
        &&& geom::is_coord(c.y - b.min.y)
        &&& geom::is_coord(b.wide())
        &&& geom::is_coord(b.high())
        &&& if self.wraps(c) {
            geom::is_coord(row + self.gap_y) && geom::is_coord(c.y + row + self.gap_y)
        } else {
            geom::is_coord(b.wide() + self.gap_x) && geom::is_coord(c.x + b.wide() + self.gap_x)
        }
    }

    /// Whether the first `n` cells fit.
    pub open spec fn grid_fits(self, cells: Seq<CellModel>, n: int) -> bool {
        forall|k: int| 0 <= k < n ==> #[trigger] self.step_fits(self.cursor(cells, k), cells[k].bbox)
    }

    /// The move of the `k`-th cell: the lower left corner of its box goes to its
    /// place.
    pub open spec fn grid_move(self, cells: Seq<CellModel>, k: int) -> Trans {
        let c = self.cursor(cells, k);
        let b = cells[k].bbox;
        Trans {
            rot: Rot4::R0,
            mirror: false,
            disp: Vec2 { x: (c.x - b.min.x) as i64, y: (c.y - b.min.y) as i64 },
        }
    }

    pub open spec fn grid_moves(self, cells: Seq<CellModel>) -> Seq<Trans> {
        Seq::new(cells.len(), |k: int| self.grid_move(cells, k))
    }

    fn moves(&self, cells: &Vec<CellView>) -> (res: Option<Vec<Trans>>)
        ensures
            res is Some <==> self.grid_fits(layout::cell_models(cells@), cells@.len() as int),
            res matches Some(v) ==> v@ == self.grid_moves(layout::cell_models(cells@)),
    {
        let ghost ms = layout::cell_models(cells@);
        let mut out: Vec<Trans> = Vec::new();
        let mut x: i64 = 0;
        let mut y: i64 = 0;
        let mut row: i64 = 0;
        let mut col: usize = 0;
        let mut k: usize = 0;
        while k < cells.len()
            invariant
                k <= cells.len(),
                ms == layout::cell_models(cells@),
                self.grid_fits(ms, k as int),
                col <= k,
                row >= 0,
                self.cursor(ms, k as int) == (Cursor {
                    x: x as int,
                    y: y as int,
                    row: row as int,
                    col: col as int,
                }),
                out@ =~= self.grid_moves(ms).take(k as int),
            decreases cells.len() - k,
        {
            let b: Bbox = cells[k].bbox;
            assert(ms[k as int] == cells@[k as int].model());
            let ghost c = self.cursor(ms, k as int);
            let ghost fits = self.step_fits(c, ms[k as int].bbox);
            let dx: i64 = match geom::to_coord(x as i128 - b.min.x as i128) {
                Some(v) => v,
                None => {
                    assert(!fits);
                    return None;
                },
            };
            let dy: i64 = match geom::to_coord(y as i128 - b.min.y as i128) {
                Some(v) => v,
                None => {
                    assert(!fits);
                    return None;
                },
            };
            let w: i64 = match geom::to_coord(b.width()) {
                Some(v) => v,
                None => {
                    assert(!fits);
                    return None;
                },
            };
            let h: i64 = match geom::to_coord(b.height()) {
                Some(v) => v,
                None => {
                    assert(!fits);
                    return None;
                },
            };
            out.push(Trans::translate(Vec2 { x: dx, y: dy }));
            row = geom::top_of(row, h);
            if col + 1 >= self.cols {
                let step: i128 = row as i128 + self.gap_y as i128;
                let next: Option<i64> = geom::to_coord(y as i128 + step);
                if geom::to_coord(step).is_none() || next.is_none() {
                    assert(!fits);
                    return None;
                }
                y = next.unwrap();
                x = 0;
                row = 0;
                col = 0;
            } else {
                let step: i128 = w as i128 + self.gap_x as i128;
                let next: Option<i64> = geom::to_coord(x as i128 + step);
                if geom::to_coord(step).is_none() || next.is_none() {
                    assert(!fits);
                    return None;
                }
                x = next.unwrap();
                col = col + 1;
            }
            k = k + 1;
        }
        assert(out@ =~= self.grid_moves(ms));
        Some(out)
    }
}

impl Placer for GridPlacer {
    /// The moves into the rows, if all of them fit.
    open spec fn placement(&self, netlist: Netlist, cells: Seq<CellModel>) -> Option<
        (Seq<Trans>, Bbox),
    > {
        if !self.grid_fits(cells, cells.len() as int) {
            None
        } else {
            match placed_box(cells, self.grid_moves(cells)) {
                Some(b) => Some((self.grid_moves(cells), b)),
                None => None,
            }
        }
    }

    fn place(&self, netlist: &Netlist, cells: &Vec<CellView>) -> (res: Option<Placement>) {
        assert(layout::cell_models(cells@).len() == cells@.len());
        match self.moves(cells) {
            None => None,
            Some(transforms) => match union_placed_bbox(cells, &transforms) {
                Some(bbox) => Some(Placement { transforms, bbox }),
                None => None,
            },
        }
    }
}

/// How far the rows have come: every cell before the `k`-th lies to the left of its
/// place in the same row, or below it.
proof fn lemma_cursor_is_past(g: GridPlacer, cells: Seq<CellModel>, i: int, k: int)
    requires
        0 <= i < k,
        g.gap_x >= 0,
        g.gap_y >= 0,
    ensures
        ({
            let a = g.cursor(cells, i);
            let c = g.cursor(cells, k);
            let b = cells[i].bbox;
            ||| c.y == a.y && c.x >= a.x + b.wide() + g.gap_x && c.row >= b.high()
            ||| c.y >= a.y + b.high() + g.gap_y
        }),
        g.cursor(cells, k).row >= 0,
    decreases k,
{
    lemma_row_not_negative(g, cells, k - 1);
    lemma_row_not_negative(g, cells, k);
    if i < k - 1 {
        lemma_cursor_is_past(g, cells, i, k - 1);
    }
}

proof fn lemma_row_not_negative(g: GridPlacer, cells: Seq<CellModel>, k: int)
    ensures
        g.cursor(cells, k).row >= 0,
    decreases k,
{
    if k > 0 {
        lemma_row_not_negative(g, cells, k - 1);
    }
}

/// Cells placed in rows do not overlap, unless a gap is negative: of two cells the
/// later one lies to the right of the earlier one or above it.
pub proof fn cells_in_rows_do_not_overlap(g: GridPlacer, cells: Seq<CellModel>, i: int, j: int)
    requires
        0 <= i < j < cells.len(),
        g.gap_x >= 0,
        g.gap_y >= 0,
        g.grid_fits(cells, cells.len() as int),
        !cells[i].bbox.empty(),
        !cells[j].bbox.empty(),
        g.grid_move(cells, i).image_box(cells[i].bbox) is Some,
        g.grid_move(cells, j).image_box(cells[j].bbox) is Some,
    ensures
        ({
            let a = g.grid_move(cells, i).image_box(cells[i].bbox)->0;
            let b = g.grid_move(cells, j).image_box(cells[j].bbox)->0;
            a.max.x + g.gap_x <= b.min.x || a.max.y + g.gap_y <= b.min.y
        }),
{
    lemma_cursor_is_past(g, cells, i, j);
    assert(g.step_fits(g.cursor(cells, i), cells[i].bbox));
    assert(g.step_fits(g.cursor(cells, j), cells[j].bbox));
}

/// How many cells a row has.
pub open spec fn row_length(g: GridPlacer) -> int {
    if g.cols == 0 {
        1
    } else {
        g.cols as int
    }
}

/// The lower left corner of a cell after its move, which only shifts it.
pub open spec fn corner(cells: Seq<CellModel>, moves: Seq<Trans>, k: int) -> (int, int) {
    (moves[k].disp.x + cells[k].bbox.min.x, moves[k].disp.y + cells[k].bbox.min.y)
}

/// How broad and how tall a box is; one without points is neither.
pub open spec fn broad(b: Bbox) -> int {
    if b.min.x <= b.max.x && b.min.y <= b.max.y {
        b.max.x - b.min.x
    } else {
        0
    }
}

pub open spec fn tall(b: Bbox) -> int {
    if b.min.x <= b.max.x && b.min.y <= b.max.y {
        b.max.y - b.min.y
    } else {
        0
    }
}

/// The height of the highest cell from the `i`-th to the one before the `k`-th is `h`, or
/// `h` is zero and none is higher.
pub open spec fn is_height(cells: Seq<CellModel>, i: int, k: int, h: int) -> bool {
    &&& h >= 0
    &&& forall|j: int|
        #![trigger cells[j]]
        i <= j < k ==> tall(cells[j].bbox) <= h
    &&& h == 0 || exists|j: int|
        #![trigger cells[j]]
        i <= j < k && tall(cells[j].bbox) == h
}

proof fn lemma_cursor(g: GridPlacer, cells: Seq<CellModel>, k: int)
    requires
        0 <= k <= cells.len(),
    ensures
        g.cursor(cells, k).col == k % row_length(g),
        is_height(cells, k - k % row_length(g), k, g.cursor(cells, k).row),
        k % row_length(g) == 0 ==> g.cursor(cells, k).x == 0,
        k < row_length(g) ==> g.cursor(cells, k).y == 0,
    decreases k,
{
    let n = row_length(g);
    if k == 0 {
        assert(0int % n == 0) by (nonlinear_arith)
            requires
                n >= 1,
        ;
    } else {
        lemma_cursor(g, cells, k - 1);
        lemma_next_in_row(k - 1, n);
        let c = g.cursor(cells, k - 1);
        let start = k - 1 - (k - 1) % n;
        let b = cells[k - 1].bbox;
        let h = higher(c.row, b.high());
        assert(is_height(cells, start, k, h)) by {
            if h == b.high() {
                assert(tall(cells[k - 1].bbox) == h);
            } else if c.row != 0 {
                let j = choose|j: int|
                    #![trigger cells[j]]
                    start <= j < k - 1 && tall(cells[j].bbox) == c.row;
                assert(tall(cells[j].bbox) == h);
            }
        }
    }
}

proof fn lemma_next_in_row(k: int, n: int)
    requires
        k >= 0,
        n >= 1,
    ensures
        0 <= k % n < n,
        k % n + 1 < n ==> (k + 1) % n == k % n + 1,
        k % n + 1 >= n ==> (k + 1) % n == 0 && k + 1 >= n,
{
    let q = k / n;
    let r = k % n;
    assert(k == q * n + r && 0 <= r < n && q >= 0) by (nonlinear_arith)
        requires
            k >= 0,
            n >= 1,
            q == k / n,
            r == k % n,
    ;
    if r + 1 < n {
        assert((k + 1) % n == r + 1) by (nonlinear_arith)
            requires
                k + 1 == q * n + (r + 1),
                0 <= r + 1 < n,
        ;
    } else {
        assert((k + 1) % n == 0) by (nonlinear_arith)
            requires
                k + 1 == q * n + n,
                n >= 1,
        ;
        assert(q * n >= 0) by (nonlinear_arith)
            requires
                q >= 0,
                n >= 1,
        ;
    }
}

/// Cells placed in rows are only shifted. The first row is at height zero and every row
/// begins at zero. In a row each cell begins a gap behind the one before it, at the same
/// height.
pub proof fn rows_run_from_left_to_right(
    g: GridPlacer,
    nl: Netlist,
    cells: Seq<CellModel>,
    moves: Seq<Trans>,
    bbox: Bbox,
    k: int,
)
    requires
        g.placement(nl, cells) == Some((moves, bbox)),
        0 <= k < cells.len(),
    ensures
        moves.len() == cells.len(),
        moves[k].rot is R0 && !moves[k].mirror,
        k < row_length(g) ==> corner(cells, moves, k).1 == 0,
        k % row_length(g) == 0 ==> corner(cells, moves, k).0 == 0,
        k % row_length(g) != 0 ==> corner(cells, moves, k).0 == corner(cells, moves, k - 1).0 + broad(
            cells[k - 1].bbox,
        ) + g.gap_x && corner(
            cells,
            moves,
            k,
        ).1 == corner(cells, moves, k - 1).1,
{
    let n = row_length(g);
    lemma_cursor(g, cells, k);
    assert(g.step_fits(g.cursor(cells, k), cells[k].bbox));
    if k > 0 {
        lemma_cursor(g, cells, k - 1);
        lemma_next_in_row(k - 1, n);
        assert(g.step_fits(g.cursor(cells, k - 1), cells[k - 1].bbox));
    } else {
        lemma_next_in_row(0, n);
        assert(0int % n == 0) by (nonlinear_arith)
            requires
                n >= 1,
        ;
    }
}

/// Each row begins a gap above the highest cell of the row below it. No cell of another
/// row counts, and a row without a cell of any height counts as flat.
pub proof fn rows_stand_on_each_other(
    g: GridPlacer,
    nl: Netlist,
    cells: Seq<CellModel>,
    moves: Seq<Trans>,
    bbox: Bbox,
    k: int,
)
    requires
        g.placement(nl, cells) == Some((moves, bbox)),
        0 < k < cells.len(),
        k % row_length(g) == 0,
    ensures
        k >= row_length(g),
        is_height(
            cells,
            k - row_length(g),
            k,
            corner(cells, moves, k).1 - g.gap_y - corner(cells, moves, k - 1).1,
        ),
        forall|j: int|
            k - row_length(g) <= j < k ==> (#[trigger] corner(cells, moves, j)).1 == corner(
                cells,
                moves,
                k - 1,
            ).1,
{
    let n = row_length(g);
    lemma_cursor(g, cells, k);
    lemma_cursor(g, cells, k - 1);
    lemma_next_in_row(k - 1, n);
    assert(g.step_fits(g.cursor(cells, k), cells[k].bbox));
    assert(g.step_fits(g.cursor(cells, k - 1), cells[k - 1].bbox));
    let c = g.cursor(cells, k - 1);
    let b = cells[k - 1].bbox;
    let h = higher(c.row, b.high());
    assert(is_height(cells, k - n, k, h)) by {
        if h == b.high() {
            assert(tall(cells[k - 1].bbox) == h);
        } else if c.row != 0 {
            let j = choose|j: int|
                #![trigger cells[j]]
                k - n <= j < k - 1 && tall(cells[j].bbox) == c.row;
            assert(tall(cells[j].bbox) == h);
        }
    }
    lemma_row_is_level(g, nl, cells, moves, bbox, k - n, k);
}

proof fn lemma_row_is_level(
    g: GridPlacer,
    nl: Netlist,
    cells: Seq<CellModel>,
    moves: Seq<Trans>,
    bbox: Bbox,
    i: int,
    k: int,
)
    requires
        g.placement(nl, cells) == Some((moves, bbox)),
        0 <= i < k <= cells.len(),
        k - i <= (k - 1) % row_length(g) + 1,
    ensures
        forall|j: int|
            i <= j < k ==> (#[trigger] corner(cells, moves, j)).1 == corner(
                cells,
                moves,
                k - 1,
            ).1,
    decreases k - i,
{
    if i < k - 1 {
        let n = row_length(g);
        rows_run_from_left_to_right(g, nl, cells, moves, bbox, k - 1);
        lemma_next_in_row(k - 2, n);
        lemma_row_is_level(g, nl, cells, moves, bbox, i, k - 1);
    }
}

/// The box of a cell after its move.
pub open spec fn own_box(cells: Seq<CellModel>, ts: Seq<Trans>, i: int) -> Bbox {
    ts[i].image_box(cells[i].bbox)->0
}

/// Whether a box is the least one around the boxes of the first `n` cells after their
/// moves: it reaches as far as each of them, and on every side no farther than one.
pub open spec fn is_box_around(b: Bbox, cells: Seq<CellModel>, ts: Seq<Trans>, n: int) -> bool {
    &&& forall|i: int|
        #![trigger own_box(cells, ts, i)]
        0 <= i < n ==> b.min.x <= own_box(cells, ts, i).min.x && b.min.y <= own_box(
            cells,
            ts,
            i,
        ).min.y && own_box(cells, ts, i).max.x <= b.max.x && own_box(cells, ts, i).max.y <= b.max.y
    &&& exists|i: int| 0 <= i < n && (#[trigger] own_box(cells, ts, i)).min.x == b.min.x
    &&& exists|i: int| 0 <= i < n && (#[trigger] own_box(cells, ts, i)).min.y == b.min.y
    &&& exists|i: int| 0 <= i < n && (#[trigger] own_box(cells, ts, i)).max.x == b.max.x
    &&& exists|i: int| 0 <= i < n && (#[trigger] own_box(cells, ts, i)).max.y == b.max.y
}

proof fn lemma_box_around(cells: Seq<CellModel>, ts: Seq<Trans>, n: int)
    requires
        1 <= n,
        can_move(cells, ts, n),
    ensures
        moved_boxes(cells, ts, n) is Some,
        is_box_around(moved_boxes(cells, ts, n)->0, cells, ts, n),
    decreases n,
{
    reveal_with_fuel(moved_boxes, 2);
    let here = own_box(cells, ts, n - 1);
    if n > 1 {
        lemma_box_around(cells, ts, n - 1);
        let a = moved_boxes(cells, ts, n - 1)->0;
        let b = moved_boxes(cells, ts, n)->0;
        let i0 = choose|i: int| 0 <= i < n - 1 && (#[trigger] own_box(cells, ts, i)).min.x == a.min.x;
        let i1 = choose|i: int| 0 <= i < n - 1 && (#[trigger] own_box(cells, ts, i)).min.y == a.min.y;
        let i2 = choose|i: int| 0 <= i < n - 1 && (#[trigger] own_box(cells, ts, i)).max.x == a.max.x;
        let i3 = choose|i: int| 0 <= i < n - 1 && (#[trigger] own_box(cells, ts, i)).max.y == a.max.y;
        assert(own_box(cells, ts, i0).min.x == b.min.x || here.min.x == b.min.x);
        assert(own_box(cells, ts, i1).min.y == b.min.y || here.min.y == b.min.y);
        assert(own_box(cells, ts, i2).max.x == b.max.x || here.max.x == b.max.x);
        assert(own_box(cells, ts, i3).max.y == b.max.y || here.max.y == b.max.y);
    } else {
        assert(moved_boxes(cells, ts, 1) == Some(here));
    }
}

/// The box around all cells is the least one that reaches as far as each of them.
pub proof fn placed_box_is_tight(cells: Seq<CellModel>, ts: Seq<Trans>)
    requires
        placed_box(cells, ts) is Some,
        cells.len() > 0,
        ts.len() > 0,
    ensures
        is_box_around(placed_box(cells, ts)->0, cells, ts, paired(cells, ts)),
{
    lemma_box_around(cells, ts, paired(cells, ts));
}

} // verus!
