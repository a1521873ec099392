//! Tiles that abut: grids of one tile, with matching edges, rails and currents.

use crate::double::Real;
use crate::geom;
use crate::geom::{Trans, Vec2};
use crate::layout;
use crate::numfmt;
use crate::text;
use klayout_core::{CellBuilder, CellId, LayerIndex, Library};
use vstd::prelude::*;
use vstd::string::*;

verus! {

/// A side of a tile.
#[derive(Debug, Clone, Copy, PartialEq, Eq, Hash, Structural)]
pub enum Side {
    North,
    South,
    East,
    West,
}

impl Side {
    pub open spec fn label(self) -> Seq<char> {
        match self {
            Side::North => "North"@,
            Side::South => "South"@,
            Side::East => "East"@,
            Side::West => "West"@,
        }
    }

    pub fn as_str(self) -> (res: &'static str)
        ensures
            res@ == self.label(),
    {
        match self {
            Side::North => "North",
            Side::South => "South",
            Side::East => "East",
            Side::West => "West",
        }
    }
}

/// A port on an edge, which must meet one of the same name on the same layer at the same
/// offset.
#[derive(Debug, PartialEq, Eq, Hash)]
pub struct EdgePort {
    pub name: String,
    pub side: Side,
    /// Along the side, in database units.
    pub offset_dbu: i64,
    pub layer: LayerIndex,
}

#[verifier::ext_equal]
pub struct EdgeModel {
    pub name: Seq<char>,
    pub side: Side,
    pub offset_dbu: i64,
    pub layer: LayerIndex,
}

impl EdgePort {
    pub open spec fn model(self) -> EdgeModel {
        EdgeModel {
            name: self.name@,
            side: self.side,
            offset_dbu: self.offset_dbu,
            layer: self.layer,
        }
    }
}

pub open spec fn edge_models(v: Seq<EdgePort>) -> Seq<EdgeModel> {
    v.map_values(|p: EdgePort| p.model())
}

/// The power rails of a tile.
#[derive(Debug, PartialEq, Eq, Hash)]
pub struct RailSpec {
    pub vdd_layer: LayerIndex,
    pub gnd_layer: LayerIndex,
    pub width_dbu: i64,
    pub dbu_per_um: i64,
    /// Where the tracks lie, from the origin of the tile.
    pub vdd_tracks: Vec<i64>,
    pub gnd_tracks: Vec<i64>,
}

#[verifier::ext_equal]
pub struct RailModel {
    pub vdd_layer: LayerIndex,
    pub gnd_layer: LayerIndex,
    pub width_dbu: i64,
    pub dbu_per_um: i64,
    pub vdd_tracks: Seq<i64>,
    pub gnd_tracks: Seq<i64>,
}

impl RailSpec {
    pub open spec fn model(self) -> RailModel {
        RailModel {
            vdd_layer: self.vdd_layer,
            gnd_layer: self.gnd_layer,
            width_dbu: self.width_dbu,
            dbu_per_um: self.dbu_per_um,
            vdd_tracks: self.vdd_tracks@,
            gnd_tracks: self.gnd_tracks@,
        }
    }
}

// ── currents ───────────────────────────────────────────────────────

/// Why a strap cannot be used.
#[derive(Debug, Clone)]
pub enum PdnError {
    OverBudget { rail: &'static str, actual_ma: Real, budget_ma: Real },
    NonPositiveWidth(i64),
    NonPositiveDbu(i64),
}

impl PdnError {
    pub open spec fn text(self) -> Seq<char> {
        match self {
            PdnError::OverBudget { rail, actual_ma, budget_ma } => "strap current "@
                + numfmt::fixed(actual_ma, 3, false) + " mA exceeds budget "@ + numfmt::fixed(
                budget_ma,
                3,
                false,
            ) + " mA on rail "@ + rail@,
            PdnError::NonPositiveWidth(w) => "RailSpec.width_dbu must be > 0 (was "@
                + text::dec_int(w as int) + ")"@,
            PdnError::NonPositiveDbu(d) => "RailSpec.dbu_per_um must be > 0 (was "@
                + text::dec_int(d as int) + ")"@,
        }
    }

    /// Human-readable form of the error.
    pub fn message(&self) -> (res: String)
        ensures
            res@ == self.text(),
    {
        match self {
            PdnError::OverBudget { rail, actual_ma, budget_ma } => {
                let mut s = "strap current ".to_owned();
                s.append(numfmt::to_fixed(*actual_ma, 3, false).as_str());
                s.append(" mA exceeds budget ");
                s.append(numfmt::to_fixed(*budget_ma, 3, false).as_str());
                s.append(" mA on rail ");
                s.append(rail);
                s
            },
            PdnError::NonPositiveWidth(w) => {
                let mut s = "RailSpec.width_dbu must be > 0 (was ".to_owned();
                s.append(text::i64_to_string(*w).as_str());
                s.append(")");
                s
            },
            PdnError::NonPositiveDbu(d) => {
                let mut s = "RailSpec.dbu_per_um must be > 0 (was ".to_owned();
                s.append(text::i64_to_string(*d).as_str());
                s.append(")");
                s
            },
        }
    }
}

/// The current that a rail can carry.
pub open spec fn budget_ma(rails: RailModel, jmax_ma_per_um: Real) -> Real {
    jmax_ma_per_um.mul_spec(
        Real::of_nat(rails.width_dbu as nat).div_spec(Real::of_nat(rails.dbu_per_um as nat)),
    )
}

/// The current of all tiles on a strap.
pub open spec fn strap_ma(per_tile_peak_ma: Real, tiles: nat) -> Real {
    per_tile_peak_ma.mul_spec(Real::of_nat(tiles))
}

/// What a check of the current on a strap comes to, if not that all is well.
pub open spec fn strap_fault(
    rails: RailModel,
    per_tile_peak_ma: Real,
    tiles: nat,
    jmax_ma_per_um: Real,
) -> Option<PdnError> {
    if rails.width_dbu <= 0 {
        Some(PdnError::NonPositiveWidth(rails.width_dbu))
    } else if rails.dbu_per_um <= 0 {
        Some(PdnError::NonPositiveDbu(rails.dbu_per_um))
    } else if budget_ma(rails, jmax_ma_per_um).below(strap_ma(per_tile_peak_ma, tiles)) {
        Some(
            PdnError::OverBudget {
                rail: "vdd",
                actual_ma: strap_ma(per_tile_peak_ma, tiles),
                budget_ma: budget_ma(rails, jmax_ma_per_um),
            },
        )
    } else {
        None
    }
}

/// Checks that the current of all tiles on a strap is within what its rail can carry.
/// Both rails carry the same, so the first one is named.
pub fn current_density_check(
    rails: &RailSpec,
    per_tile_peak_ma: Real,
    tiles_per_strap: usize,
    jmax_ma_per_um: Real,
) -> (res: Result<(), PdnError>)
    ensures
        match strap_fault(
            rails.model(),
            per_tile_peak_ma,
            tiles_per_strap as nat,
            jmax_ma_per_um,
        ) {
            None => res is Ok,
            Some(e) => res == Err::<(), PdnError>(e),
        },
{
    if rails.width_dbu <= 0 {
        return Err(PdnError::NonPositiveWidth(rails.width_dbu));
    }
    if rails.dbu_per_um <= 0 {
        return Err(PdnError::NonPositiveDbu(rails.dbu_per_um));
    }
    let width_um = Real::from_u64(rails.width_dbu as u64).div(
        Real::from_u64(rails.dbu_per_um as u64),
    );
    let budget = jmax_ma_per_um.mul(width_um);
    let actual = per_tile_peak_ma.mul(Real::from_u64(tiles_per_strap as u64));
    if budget.lt(actual) {
        return Err(PdnError::OverBudget { rail: "vdd", actual_ma: actual, budget_ma: budget });
    }
    Ok(())
}

// ── grids ──────────────────────────────────────────────────────────

/// A block whose layout abuts copies of itself.
pub trait Tile<P> {
    fn name(&self) -> String;

    /// How far apart copies lie.
    fn pitch(&self) -> Vec2;

    fn rails(&self, pdk: &P) -> RailSpec;

    /// The ports on a side, in the order of their offsets.
    fn edge_ports(&self, side: Side, pdk: &P) -> Vec<EdgePort>;

    /// What laying out the tile may do to a library, and which cell it may name. Nothing is
    /// said of a tile that does not say it.
    open spec fn lays_out(&self, pdk: P, before: Library, after: Library, id: CellId) -> bool {
        true
    }

    /// The cell of the tile, after it has been added to the library.
    fn layout(&self, lib: &mut Library, pdk: &P) -> (res: CellId)
        ensures
            self.lays_out(*pdk, *old(lib), *final(lib), res),
            layout::library_cells(*final(lib)).contains_key(res),
            layout::library_listing(*final(lib)).len() < 0xffff_ffff,
    ;
}

/// Whether a view holds what a tile answers.
pub open spec fn says<T: Tile<P>, P>(tile: T, pdk: P, t: TileView) -> bool {
    &&& call_ensures(T::name, (&tile,), t.name)
    &&& call_ensures(T::pitch, (&tile,), t.pitch)
    &&& call_ensures(T::rails, (&tile, &pdk), t.rails)
    &&& call_ensures(T::edge_ports, (&tile, Side::North, &pdk), t.north)
    &&& call_ensures(T::edge_ports, (&tile, Side::South, &pdk), t.south)
    &&& call_ensures(T::edge_ports, (&tile, Side::East, &pdk), t.east)
    &&& call_ensures(T::edge_ports, (&tile, Side::West, &pdk), t.west)
}

/// What a tile says of itself.
#[derive(Debug)]
pub struct TileView {
    pub name: String,
    pub pitch: Vec2,
    pub rails: RailSpec,
    pub north: Vec<EdgePort>,
    pub south: Vec<EdgePort>,
    pub east: Vec<EdgePort>,
    pub west: Vec<EdgePort>,
}

#[verifier::ext_equal]
pub struct TileModel {
    pub name: Seq<char>,
    pub pitch: Vec2,
    pub rails: RailModel,
    pub north: Seq<EdgeModel>,
    pub south: Seq<EdgeModel>,
    pub east: Seq<EdgeModel>,
    pub west: Seq<EdgeModel>,
}

impl TileView {
    pub open spec fn model(self) -> TileModel {
        TileModel {
            name: self.name@,
            pitch: self.pitch,
            rails: self.rails.model(),
            north: edge_models(self.north@),
            south: edge_models(self.south@),
            east: edge_models(self.east@),
            west: edge_models(self.west@),
        }
    }
}

/// Why a grid cannot be built.
#[derive(Debug)]
pub enum GridError {
    RailMismatch(String),
    EdgePortMismatch { side: Side, detail: String },
    Pdn(PdnError),
}

/// What a grid error says.
#[verifier::ext_equal]
pub enum GridFault {
    Rails(Seq<char>),
    Ports { side: Side, detail: Seq<char> },
    Power(PdnError),
}

impl GridError {
    pub open spec fn model(self) -> GridFault {
        match self {
            GridError::RailMismatch(m) => GridFault::Rails(m@),
            GridError::EdgePortMismatch { side, detail } => GridFault::Ports {
                side,
                detail: detail@,
            },
            GridError::Pdn(e) => GridFault::Power(e),
        }
    }

    pub open spec fn text(self) -> Seq<char> {
        match self {
            GridError::RailMismatch(m) => "rail mismatch: "@ + m@,
            GridError::EdgePortMismatch { side, detail } => "edge port mismatch on "@
                + side.label() + ": "@ + detail@,
            GridError::Pdn(e) => "PDN: "@ + e.text(),
        }
    }

    /// Human-readable form of the error.
    pub fn message(&self) -> (res: String)
        ensures
            res@ == self.text(),
    {
        match self {
            GridError::RailMismatch(m) => {
                let mut s = "rail mismatch: ".to_owned();
                s.append(m.as_str());
                s
            },
            GridError::EdgePortMismatch { side, detail } => {
                let mut s = "edge port mismatch on ".to_owned();
                s.append(side.as_str());
                s.append(": ");
                s.append(detail.as_str());
                s
            },
            GridError::Pdn(e) => {
                let mut s = "PDN: ".to_owned();
                s.append(e.message().as_str());
                s
            },
        }
    }
}

/// What the check of the current on a strap needs.
#[derive(Debug, Clone, Copy)]
pub struct PdnCheck {
    pub per_tile_peak_ma: Real,
    pub jmax_ma_per_um: Real,
}

/// Whether two ports meet.
pub open spec fn meets(a: EdgeModel, b: EdgeModel) -> bool {
    a.name == b.name && a.offset_dbu == b.offset_dbu && a.layer == b.layer
}

/// The first place from `i` on at which two edges do not meet.
pub open spec fn first_gap(l: Seq<EdgeModel>, r: Seq<EdgeModel>, i: int) -> int
    decreases l.len() - i,
{
    if i < 0 || i >= l.len() || !meets(l[i], r[i]) {
        i
    } else {
        first_gap(l, r, i + 1)
    }
}

/// What is said of edges of different numbers of ports.
pub open spec fn count_detail(lhs: Side, rhs: Side, l: nat, r: nat) -> Seq<char> {
    lhs.label() + " has "@ + text::dec(l) + " ports, "@ + rhs.label() + " has "@ + text::dec(r)
}

/// What is said of two ports that do not meet.
pub open spec fn port_detail(lhs: Side, rhs: Side, a: EdgeModel, b: EdgeModel) -> Seq<char> {
    a.name + " ("@ + lhs.label() + ") \u{2194} "@ + b.name + " ("@ + rhs.label() + "): offset "@
        + text::dec_int(a.offset_dbu as int) + " vs "@ + text::dec_int(b.offset_dbu as int)
        + ", layer mismatch="@ + (if a.layer != b.layer {
        "true"@
    } else {
        "false"@
    })
}

/// What keeps two edges from abutting, if anything does.
pub open spec fn edge_fault(lhs: Side, rhs: Side, l: Seq<EdgeModel>, r: Seq<EdgeModel>) -> Option<
    GridFault,
> {
    if l.len() != r.len() {
        Some(GridFault::Ports { side: lhs, detail: count_detail(lhs, rhs, l.len(), r.len()) })
    } else {
        let i = first_gap(l, r, 0);
        if i < l.len() {
            Some(GridFault::Ports { side: lhs, detail: port_detail(lhs, rhs, l[i], r[i]) })
        } else {
            None
        }
    }
}

fn count_text(lhs: Side, rhs: Side, l: usize, r: usize) -> (res: String)
    ensures
        res@ == count_detail(lhs, rhs, l as nat, r as nat),
{
    let mut s = lhs.as_str().to_owned();
    s.append(" has ");
    s.append(text::usize_to_string(l).as_str());
    s.append(" ports, ");
    s.append(rhs.as_str());
    s.append(" has ");
    s.append(text::usize_to_string(r).as_str());
    s
}

fn port_text(lhs: Side, rhs: Side, a: &EdgePort, b: &EdgePort) -> (res: String)
    ensures
        res@ == port_detail(lhs, rhs, a.model(), b.model()),
{
    let mut s = a.name.clone();
    s.append(" (");
    s.append(lhs.as_str());
    s.append(") \u{2194} ");
    s.append(b.name.as_str());
    s.append(" (");
    s.append(rhs.as_str());
    s.append("): offset ");
    s.append(text::i64_to_string(a.offset_dbu).as_str());
    s.append(" vs ");
    s.append(text::i64_to_string(b.offset_dbu).as_str());
    s.append(", layer mismatch=");
    if !layout::same_layer(a.layer, b.layer) {
        s.append("true");
    } else {
        s.append("false");
    }
    s
}

pub open spec fn fault_of(res: Result<(), GridError>) -> Option<GridFault> {
    match res {
        Ok(()) => None,
        Err(e) => Some(e.model()),
    }
}

fn check_pair(lhs: Side, l: &Vec<EdgePort>, rhs: Side, r: &Vec<EdgePort>) -> (res: Result<
    (),
    GridError,
>)
    ensures
        fault_of(res) == edge_fault(lhs, rhs, edge_models(l@), edge_models(r@)),
{
    let ghost lm = edge_models(l@);
    let ghost rm = edge_models(r@);
    assert(lm.len() == l@.len() && rm.len() == r@.len());
    if l.len() != r.len() {
        return Err(
            GridError::EdgePortMismatch {
                side: lhs,
                detail: count_text(lhs, rhs, l.len(), r.len()),
            },
        );
    }
    let mut i: usize = 0;
    while i < l.len()
        invariant
            i <= l@.len(),
            l@.len() == r@.len(),
            lm == edge_models(l@),
            rm == edge_models(r@),
            first_gap(lm, rm, 0) == first_gap(lm, rm, i as int),
        decreases l@.len() - i,
    {
        let a: &EdgePort = &l[i];
        let b: &EdgePort = &r[i];
        assert(lm[i as int] == a.model() && rm[i as int] == b.model());
        if a.offset_dbu != b.offset_dbu || !layout::same_layer(a.layer, b.layer) || !text::same(
            a.name.as_str(),
            b.name.as_str(),
        ) {
            return Err(
                GridError::EdgePortMismatch { side: lhs, detail: port_text(lhs, rhs, a, b) },
            );
        }
        i = i + 1;
    }
    Ok(())
}

/// What keeps a tile from forming a grid, if anything does: first its edges, then its
/// rails, then the current on its longest strap.
pub open spec fn grid_fault(t: TileModel, nx: nat, ny: nat, pdn: Option<PdnCheck>) -> Option<
    GridFault,
> {
    let sideways = edge_fault(Side::West, Side::East, t.west, t.east);
    let upwards = edge_fault(Side::North, Side::South, t.north, t.south);
    let rails = t.rails;
    if nx > 1 && sideways is Some {
        sideways
    } else if ny > 1 && upwards is Some {
        upwards
    } else if rails.vdd_tracks.len() == 0 && rails.gnd_tracks.len() == 0 {
        Some(
            GridFault::Rails(
                "tile declares no rails \u{2014} uniform grid would have no power"@,
            ),
        )
    } else {
        match pdn {
            None => None,
            Some(p) => match strap_fault(
                rails,
                p.per_tile_peak_ma,
                if nx > ny {
                    nx
                } else {
                    ny
                },
                p.jmax_ma_per_um,
            ) {
                None => None,
                Some(e) => Some(GridFault::Power(e)),
            },
        }
    }
}

/// A move without a turn.
pub open spec fn shift(x: int, y: int) -> Trans {
    Trans { rot: geom::Rot4::R0, mirror: false, disp: Vec2 { x: x as i64, y: y as i64 } }
}

/// The first `ny` rows of `nx` copies of a cell, a pitch apart.
pub open spec fn grid_sites(id: CellId, step: Vec2, nx: nat, ny: int) -> Seq<(CellId, Trans)>
    decreases ny,
{
    if ny <= 0 {
        Seq::empty()
    } else {
        grid_sites(id, step, nx, ny - 1) + Seq::new(
            nx,
            |i: int| (id, shift(i * step.x, (ny - 1) * step.y)),
        )
    }
}

/// Whether every copy in a grid has a place.
pub open spec fn sites_fit(step: Vec2, nx: nat, ny: nat) -> bool {
    nx > 0 && ny > 0 ==> nx <= i64::MAX && ny <= i64::MAX && geom::is_coord((nx - 1) * step.x)
        && geom::is_coord((ny - 1) * step.y)
}

/// Whether a cell is a grid of copies of another.
pub open spec fn is_grid(
    b: CellBuilder,
    title: Seq<char>,
    id: CellId,
    step: Vec2,
    nx: nat,
    ny: nat,
) -> bool {
    &&& layout::builder_name(b) == title + "__grid_"@ + text::dec(nx) + "x"@ + text::dec(ny)
    &&& layout::builder_instances(b) == grid_sites(id, step, nx, ny as int)
    &&& layout::builder_shapes(b) == layout::no_shapes()
    &&& layout::builder_ports(b).len() == 0
}

proof fn lemma_between(d: int, i: int, n: int)
    requires
        0 <= i <= n,
        geom::is_coord(n * d),
    ensures
        geom::is_coord(i * d),
{
    if d >= 0 {
        assert(0 <= i * d <= n * d) by (nonlinear_arith)
            requires
                0 <= i <= n,
                d >= 0,
        ;
    } else {
        assert(n * d <= i * d <= 0) by (nonlinear_arith)
            requires
                0 <= i <= n,
                d < 0,
        ;
    }
}

fn site(i: usize, d: i64, n: usize) -> (res: i64)
    requires
        i < n,
        n <= i64::MAX,
        geom::is_coord((n - 1) * d),
    ensures
        res == i * d,
{
    proof {
        lemma_between(d as int, i as int, n - 1);
    }
    i as i64 * d
}

fn fill(b: &mut CellBuilder, id: CellId, step: Vec2, nx: usize, ny: usize)
    requires
        layout::builder_instances(*old(b)).len() == 0,
        sites_fit(step, nx as nat, ny as nat),
    ensures
        layout::builder_instances(*final(b)) == grid_sites(id, step, nx as nat, ny as int),
        layout::builder_name(*final(b)) == layout::builder_name(*old(b)),
        layout::builder_shapes(*final(b)) == layout::builder_shapes(*old(b)),
        layout::builder_ports(*final(b)) == layout::builder_ports(*old(b)),
{
    let mut j: usize = 0;
    assert(layout::builder_instances(*b) =~= grid_sites(id, step, nx as nat, 0));
    while j < ny
        invariant
            j <= ny,
            sites_fit(step, nx as nat, ny as nat),
            layout::builder_instances(*b) == grid_sites(id, step, nx as nat, j as int),
            layout::builder_name(*b) == layout::builder_name(*old(b)),
            layout::builder_shapes(*b) == layout::builder_shapes(*old(b)),
            layout::builder_ports(*b) == layout::builder_ports(*old(b)),
        decreases ny - j,
    {
        let ghost before = layout::builder_instances(*b);
        let ghost row = Seq::new(nx as nat, |i: int| (id, shift(i * step.x, j * step.y)));
        let mut i: usize = 0;
        assert(before =~= before + row.take(0));
        while i < nx
            invariant
                i <= nx,
                j < ny,
                sites_fit(step, nx as nat, ny as nat),
                row == Seq::new(nx as nat, |i: int| (id, shift(i * step.x, j * step.y))),
                layout::builder_instances(*b) == before + row.take(i as int),
                layout::builder_name(*b) == layout::builder_name(*old(b)),
                layout::builder_shapes(*b) == layout::builder_shapes(*old(b)),
                layout::builder_ports(*b) == layout::builder_ports(*old(b)),
            decreases nx - i,
        {
            let dx: i64 = site(i, step.x, nx);
            let dy: i64 = site(j, step.y, ny);
            layout::add_instance(b, id, Trans::translate(Vec2 { x: dx, y: dy }));
            i = i + 1;
            assert((before + row.take(i - 1)).push(row[i - 1]) =~= before + row.take(i as int));
        }
        assert(row.take(nx as int) =~= row);
        assert(grid_sites(id, step, nx as nat, j + 1) =~= before + row);
        j = j + 1;
    }
}

proof fn lemma_sites(id: CellId, step: Vec2, nx: nat, ny: int, k: int)
    requires
        0 <= k < grid_sites(id, step, nx, ny).len(),
    ensures
        grid_sites(id, step, nx, ny)[k].0 == id,
    decreases ny,
{
    if ny > 0 {
        let before = grid_sites(id, step, nx, ny - 1);
        if k < before.len() {
            lemma_sites(id, step, nx, ny - 1, k);
        }
    }
}

fn grid_name(title: &str, nx: usize, ny: usize) -> (res: String)
    ensures
        res@ == title@ + "__grid_"@ + text::dec(nx as nat) + "x"@ + text::dec(ny as nat),
{
    let mut s = title.to_owned();
    s.append("__grid_");
    s.append(text::usize_to_string(nx).as_str());
    s.append("x");
    s.append(text::usize_to_string(ny).as_str());
    s
}

/// Checks that copies of a tile can form a grid.
pub fn check_tile(t: &TileView, nx: usize, ny: usize, pdn: Option<PdnCheck>) -> (res: Result<
    (),
    GridError,
>)
    ensures
        fault_of(res) == grid_fault(t.model(), nx as nat, ny as nat, pdn),
{
    if nx > 1 {
        match check_pair(Side::West, &t.west, Side::East, &t.east) {
            Err(e) => {
                return Err(e);
            },
            Ok(()) => {},
        }
    }
    if ny > 1 {
        match check_pair(Side::North, &t.north, Side::South, &t.south) {
            Err(e) => {
                return Err(e);
            },
            Ok(()) => {},
        }
    }
    if t.rails.vdd_tracks.len() == 0 && t.rails.gnd_tracks.len() == 0 {
        return Err(
            GridError::RailMismatch(
                "tile declares no rails \u{2014} uniform grid would have no power".to_owned(),
            ),
        );
    }
    match pdn {
        None => Ok(()),
        Some(p) => {
            let strap: usize = if nx > ny {
                nx
            } else {
                ny
            };
            match current_density_check(&t.rails, p.per_tile_peak_ma, strap, p.jmax_ma_per_um) {
                Err(e) => Err(GridError::Pdn(e)),
                Ok(()) => Ok(()),
            }
        },
    }
}

fn reaches(n: usize, d: i64) -> (res: bool)
    requires
        n > 0,
    ensures
        res == (n <= i64::MAX && geom::is_coord((n - 1) * d)),
{
    if n as u64 > 0x7fff_ffff_ffff_ffff {
        return false;
    }
    let far: i128 = n as i128 - 1;
    proof {
        let f = far as int;
        assert(-0x8000_0000_0000_0000 * 0x8000_0000_0000_0000 <= f * d <= 0x8000_0000_0000_0000
            * 0x8000_0000_0000_0000) by (nonlinear_arith)
            requires
                0 <= f <= 0x7fff_ffff_ffff_ffff,
                -0x8000_0000_0000_0000 <= d <= 0x7fff_ffff_ffff_ffff,
        ;
    }
    geom::to_coord(far * d as i128).is_some()
}

fn check_sites(step: Vec2, nx: usize, ny: usize) -> (res: bool)
    ensures
        res == sites_fit(step, nx as nat, ny as nat),
{
    nx == 0 || ny == 0 || (reaches(nx, step.x) && reaches(ny, step.y))
}

/// Builds a grid of copies of a cell.
pub fn compose_grid(
    t: &TileView,
    child: CellId,
    nx: usize,
    ny: usize,
    lib: &mut Library,
) -> (res: CellId)
    requires
        layout::library_cells(*old(lib)).contains_key(child),
        layout::library_listing(*old(lib)).len() < 0xffff_ffff,
        sites_fit(t.pitch, nx as nat, ny as nat),
    ensures
        grid_added(*old(lib), *final(lib), res, t.model(), child, nx as nat, ny as nat),
{
    let name = grid_name(t.name.as_str(), nx, ny);
    let mut parent = layout::new_builder(name.as_str());
    fill(&mut parent, child, t.pitch, nx, ny);
    proof {
        assert forall|k: int|
            0 <= k < layout::builder_instances(
                parent,
            ).len() implies layout::library_cells(*lib).contains_key(
            (#[trigger] layout::builder_instances(parent)[k]).0,
        ) by {
            lemma_sites(child, t.pitch, nx as nat, ny as int, k);
        }
    }
    let ghost cell = parent;
    let id: CellId = layout::insert(lib, parent);
    proof {
        assert(is_grid(cell, t.model().name, child, t.pitch, nx as nat, ny as nat));
        assert(layout::inserted(*old(lib), *final(lib), id, cell));
    }
    id
}

/// Whether a library comes of another by adding a grid of copies of a cell.
pub open spec fn grid_added(
    before: Library,
    after: Library,
    id: CellId,
    t: TileModel,
    child: CellId,
    nx: nat,
    ny: nat,
) -> bool {
    exists|b: CellBuilder|
        is_grid(b, t.name, child, t.pitch, nx, ny) && #[trigger] layout::inserted(
            before,
            after,
            id,
            b,
        )
}

fn view_of<T: Tile<P>, P>(tile: &T, pdk: &P) -> (res: TileView)
    ensures
        says(*tile, *pdk, res),
{
    TileView {
        name: tile.name(),
        pitch: tile.pitch(),
        rails: tile.rails(pdk),
        north: tile.edge_ports(Side::North, pdk),
        south: tile.edge_ports(Side::South, pdk),
        east: tile.edge_ports(Side::East, pdk),
        west: tile.edge_ports(Side::West, pdk),
    }
}

/// What building a grid comes to, given what the tile says of itself.
pub open spec fn grid_outcome<T: Tile<P>, P>(
    res: Result<Option<CellId>, GridError>,
    tile: T,
    pdk: P,
    t: TileModel,
    nx: nat,
    ny: nat,
    pdn: Option<PdnCheck>,
    before: Library,
    after: Library,
) -> bool {
    match res {
        Err(e) => grid_fault(t, nx, ny, pdn) == Some(e.model()) && after == before,
        Ok(None) => grid_fault(t, nx, ny, pdn) is None && !sites_fit(t.pitch, nx, ny) && after
            == before,
        Ok(Some(id)) => grid_fault(t, nx, ny, pdn) is None && sites_fit(t.pitch, nx, ny)
            && grid_on_top(tile, pdk, before, after, id, t, nx, ny),
    }
}

/// Whether a library comes of another by laying out a tile, and then adding a grid of copies
/// of the cell that the tile named.
pub open spec fn grid_on_top<T: Tile<P>, P>(
    tile: T,
    pdk: P,
    before: Library,
    after: Library,
    id: CellId,
    t: TileModel,
    nx: nat,
    ny: nat,
) -> bool {
    exists|mid: Library, child: CellId|
        tile.lays_out(pdk, before, mid, child) && layout::library_cells(mid).contains_key(child)
            && #[trigger] grid_added(mid, after, id, t, child, nx, ny)
}

/// Builds a grid of `nx` by `ny` copies of a tile, after checking its edges, its rails
/// and, where asked for, the current on its longest strap. None is built where a copy has
/// no place.
pub fn tile_grid<T: Tile<P>, P>(
    tile: &T,
    nx: usize,
    ny: usize,
    lib: &mut Library,
    pdk: &P,
    pdn: Option<PdnCheck>,
) -> (res: Result<Option<CellId>, GridError>)
    ensures
        exists|t: TileView| #[trigger]
            says(*tile, *pdk, t) && grid_outcome(
                res,
                *tile,
                *pdk,
                t.model(),
                nx as nat,
                ny as nat,
                pdn,
                *old(lib),
                *final(lib),
            ),
{
    let t = view_of(tile, pdk);
    match check_tile(&t, nx, ny, pdn) {
        Err(e) => {
            return Err(e);
        },
        Ok(()) => {},
    }
    if !check_sites(t.pitch, nx, ny) {
        return Ok(None);
    }
    let child: CellId = tile.layout(lib, pdk);
    let ghost mid = *lib;
    let id: CellId = compose_grid(&t, child, nx, ny, lib);
    proof {
        assert(grid_added(mid, *lib, id, t.model(), child, nx as nat, ny as nat));
        assert(grid_on_top(*tile, *pdk, *old(lib), *lib, id, t.model(), nx as nat, ny as nat));
    }
    Ok(Some(id))
}

/// A grid has one copy for each column and row, a pitch apart.
pub proof fn copies_are_a_pitch_apart(id: CellId, step: Vec2, nx: nat, ny: nat, i: int, j: int)
    requires
        0 <= i < nx,
        0 <= j < ny,
    ensures
        grid_sites(id, step, nx, ny as int).len() == nx * ny,
        0 <= j * nx + i < nx * ny,
        grid_sites(id, step, nx, ny as int)[j * nx + i] == (id, shift(i * step.x, j * step.y)),
    decreases ny,
{
    lemma_site_count(id, step, nx, ny);
    lemma_site_count(id, step, nx, (ny - 1) as nat);
    assert(0 <= j * nx + i < nx * ny) by (nonlinear_arith)
        requires
            0 <= i < nx,
            0 <= j < ny,
    ;
    let before = grid_sites(id, step, nx, ny - 1);
    if j < ny - 1 {
        copies_are_a_pitch_apart(id, step, nx, (ny - 1) as nat, i, j);
        assert(before.len() == nx * (ny - 1));
    } else {
        assert((ny - 1) * nx == nx * (ny - 1)) by (nonlinear_arith);
    }
}

proof fn lemma_site_count(id: CellId, step: Vec2, nx: nat, ny: nat)
    ensures
        grid_sites(id, step, nx, ny as int).len() == nx * ny,
    decreases ny,
{
    if ny > 0 {
        lemma_site_count(id, step, nx, (ny - 1) as nat);
        assert(nx * (ny - 1) + nx == nx * ny) by (nonlinear_arith);
    } else {
        assert(nx * ny == 0) by (nonlinear_arith)
            requires
                ny == 0,
        ;
    }
}

/// Edges without a fault meet port by port.
pub proof fn sound_edges_meet(lhs: Side, rhs: Side, l: Seq<EdgeModel>, r: Seq<EdgeModel>, i: int)
    requires
        edge_fault(lhs, rhs, l, r) is None,
        0 <= i < l.len(),
    ensures
        l.len() == r.len(),
        meets(l[i], r[i]),
{
    lemma_no_gap(l, r, 0, i);
}

proof fn lemma_no_gap(l: Seq<EdgeModel>, r: Seq<EdgeModel>, k: int, i: int)
    requires
        0 <= k <= i < l.len(),
        first_gap(l, r, k) >= l.len(),
    ensures
        meets(l[i], r[i]),
    decreases i - k,
{
    if k < i {
        lemma_no_gap(l, r, k + 1, i);
    }
}

/// Whether two edges have as many ports, and each meets its opposite: under the same name,
/// at the same offset and on the same layer.
pub open spec fn edges_abut(l: Seq<EdgeModel>, r: Seq<EdgeModel>) -> bool {
    l.len() == r.len() && forall|i: int|
        #![trigger l[i]]
        0 <= i < l.len() ==> l[i].name == r[i].name && l[i].offset_dbu == r[i].offset_dbu
            && l[i].layer == r[i].layer
}

proof fn lemma_edges(lhs: Side, rhs: Side, l: Seq<EdgeModel>, r: Seq<EdgeModel>)
    ensures
        edge_fault(lhs, rhs, l, r) is None <==> edges_abut(l, r),
        edge_fault(lhs, rhs, l, r) matches Some(f) ==> f is Ports && f->side == lhs,
{
    if l.len() == r.len() {
        lemma_gap(l, r, 0);
        if edge_fault(lhs, rhs, l, r) is None {
            assert forall|i: int| #![trigger l[i]] 0 <= i < l.len() implies l[i].name == r[i].name
                && l[i].offset_dbu == r[i].offset_dbu && l[i].layer == r[i].layer by {
                sound_edges_meet(lhs, rhs, l, r, i);
            }
        }
    }
}

proof fn lemma_gap(l: Seq<EdgeModel>, r: Seq<EdgeModel>, k: int)
    requires
        0 <= k <= l.len(),
    ensures
        k <= first_gap(l, r, k) <= l.len(),
        first_gap(l, r, k) < l.len() ==> !meets(
            l[first_gap(l, r, k)],
            r[first_gap(l, r, k)],
        ),
    decreases l.len() - k,
{
    if k < l.len() && meets(l[k], r[k]) {
        lemma_gap(l, r, k + 1);
    }
}

/// Whether the longest straight line of tiles draws no more than a rail can carry: the
/// greatest current per width times the width of the rail.
pub open spec fn straps_hold(rails: RailModel, nx: nat, ny: nat, p: PdnCheck) -> bool {
    let longest = if nx > ny {
        nx
    } else {
        ny
    };
    let width_um = Real::of_nat(rails.width_dbu as nat).div_spec(
        Real::of_nat(rails.dbu_per_um as nat),
    );
    &&& rails.width_dbu > 0
    &&& rails.dbu_per_um > 0
    &&& !p.jmax_ma_per_um.mul_spec(width_um).below(
        p.per_tile_peak_ma.mul_spec(Real::of_nat(longest)),
    )
}

/// A tile forms a grid exactly where its west edge meets its east edge, if there is more
/// than one column, its north edge meets its south edge, if there is more than one row, it
/// has a power rail, and, where that is to be checked, its straps hold. What is wrong with
/// edges is said before what is wrong with rails, and that before what is wrong with straps.
pub proof fn grids_need_edges_and_rails(t: TileModel, nx: nat, ny: nat, pdn: Option<PdnCheck>)
    ensures
        ({
            let sideways = nx <= 1 || edges_abut(t.west, t.east);
            let upwards = ny <= 1 || edges_abut(t.north, t.south);
            let powered = t.rails.vdd_tracks.len() > 0 || t.rails.gnd_tracks.len() > 0;
            let strong = pdn matches Some(p) ==> straps_hold(t.rails, nx, ny, p);
            match grid_fault(t, nx, ny, pdn) {
                None => sideways && upwards && powered && strong,
                Some(GridFault::Ports { side, .. }) => (side == Side::West && !sideways) || (side
                    == Side::North && sideways && !upwards),
                Some(GridFault::Rails(_)) => sideways && upwards && !powered,
                Some(GridFault::Power(_)) => sideways && upwards && powered && !strong,
            }
        }),
{
    lemma_edges(Side::West, Side::East, t.west, t.east);
    lemma_edges(Side::North, Side::South, t.north, t.south);
}

} // verus!
