//! The layout library and its cells: what is read from it and what is put into it.

use crate::geom;
use crate::geom::{Angle90, Bbox, Path, Point, Port, PortModel, Shape, ShapeModel, Trans};
use klayout_core::{Angle90 as RawAngle, Point as RawPoint, Port as RawPort};
use klayout_core::{CellBuilder, CellId, LayerIndex, Library};
use vstd::prelude::*;
use vstd::string::*;

verus! {

/// `klayout_core::Library`, the container of cells and layers. Cells are only ever
/// added to it and never change.
#[verifier::external_type_specification]
#[verifier::external_body]
pub struct ExLibrary(klayout_core::Library);

/// `klayout_core::CellId`, the handle of a cell.
#[verifier::external_type_specification]
#[verifier::external_body]
pub struct ExCellId(klayout_core::CellId);

/// `klayout_core::CellBuilder`, a cell that is being put together.
#[verifier::external_type_specification]
#[verifier::external_body]
pub struct ExCellBuilder(klayout_core::CellBuilder);

/// `==` of `klayout_core::LayerIndex`, which compares the numbers of two layers.
#[verifier::external_body]
pub(crate) fn same_layer(a: LayerIndex, b: LayerIndex) -> (res: bool)
    ensures
        res == (a == b),
{
    a == b
}

/// What placement and routing read of a cell.
#[derive(Debug)]
pub struct CellView {
    /// The box around its own shapes.
    pub bbox: Bbox,
    pub ports: Vec<Port>,
}

#[verifier::ext_equal]
pub struct CellModel {
    pub bbox: Bbox,
    pub ports: Seq<PortModel>,
}

impl CellView {
    pub open spec fn model(self) -> CellModel {
        CellModel { bbox: self.bbox, ports: geom::port_models(self.ports@) }
    }
}

pub open spec fn cell_models(s: Seq<CellView>) -> Seq<CellModel> {
    s.map_values(|c: CellView| c.model())
}

/// The cells that a library holds.
pub uninterp spec fn library_cells(lib: Library) -> Map<CellId, CellModel>;

/// The layers that a library has.
pub uninterp spec fn library_layers(lib: Library) -> Set<LayerIndex>;

/// The name of a cell that is being put together.
pub uninterp spec fn builder_name(b: CellBuilder) -> Seq<char>;

/// The cells placed in a cell that is being put together.
pub uninterp spec fn builder_instances(b: CellBuilder) -> Seq<(CellId, Trans)>;

/// The shapes of a cell that is being put together, on each layer that has any.
pub uninterp spec fn builder_shapes(b: CellBuilder) -> Map<LayerIndex, Seq<ShapeModel>>;

/// The ports of a cell that is being put together.
pub uninterp spec fn builder_ports(b: CellBuilder) -> Seq<PortModel>;

/// `klayout_core::Library::get`, with `Cell::local_bbox` and `Cell::ports`: the box
/// around the shapes and the ports of a cell of the library. The library knows the
/// layer of every port, for it looks them up when a cell is added.
#[verifier::external_body]
pub(crate) fn read_cell(lib: &Library, id: CellId) -> (res: CellView)
    requires
        library_cells(*lib).contains_key(id),
    ensures
        res.model() == library_cells(*lib)[id],
        forall|i: int|
            0 <= i < res.ports@.len() ==> library_layers(*lib).contains(
                (#[trigger] res.ports@[i]).layer,
            ),
{
    let cell = lib.get(id);
    let b = cell.local_bbox();
    let angle = |a: RawAngle| match a {
        RawAngle::E => Angle90::E,
        RawAngle::N => Angle90::N,
        RawAngle::W => Angle90::W,
        RawAngle::S => Angle90::S,
    };
    let point = |p: RawPoint| Point { x: p.x, y: p.y };
    let port = |p: &RawPort| Port { name: p.name.to_string(), kind: p.kind.0, center: point(p.center), angle: angle(p.angle), width: p.width, layer: p.layer };
    CellView { bbox: Bbox { min: point(b.min), max: point(b.max) }, ports: cell.ports().iter().map(port).collect() }
}

/// `klayout_core::Library::try_get`: says whether a library holds a cell.
#[verifier::external_body]
pub(crate) fn has_cell(lib: &Library, id: CellId) -> (res: bool)
    ensures
        res == library_cells(*lib).contains_key(id),
{
    lib.try_get(id).is_some()
}

/// The cells of a library in the order in which they were added, with their names.
pub uninterp spec fn library_listing(lib: Library) -> Seq<(CellId, Seq<char>)>;

/// The first of the first `n` cells of a listing with a name, if there is one. A cell
/// without a name is not found.
pub open spec fn first_named(cells: Seq<(CellId, Seq<char>)>, name: Seq<char>, n: int) -> Option<
    CellId,
>
    decreases n,
{
    if n <= 0 {
        None
    } else {
        match first_named(cells, name, n - 1) {
            Some(id) => Some(id),
            None => if name.len() > 0 && cells[n - 1].1 == name {
                Some(cells[n - 1].0)
            } else {
                None
            },
        }
    }
}

/// The cell of a library with a name.
pub open spec fn named(lib: Library, name: Seq<char>) -> Option<CellId> {
    first_named(library_listing(lib), name, library_listing(lib).len() as int)
}

/// `klayout_core::Library::by_name`: the first cell that was added under a name.
#[verifier::external_body]
pub(crate) fn by_name(lib: &Library, name: &str) -> (res: Option<CellId>)
    ensures
        res == named(*lib, name@),
        res matches Some(id) ==> library_cells(*lib).contains_key(id),
{
    lib.by_name(name)
}

pub open spec fn listing_models(v: Seq<(CellId, String)>) -> Seq<(CellId, Seq<char>)> {
    v.map_values(|c: (CellId, String)| (c.0, c.1@))
}

/// `klayout_core::Library::all_cells`, with `Cell::name`: the cells of a library in the
/// order in which they were added.
#[verifier::external_body]
pub(crate) fn all_cells(lib: &Library) -> (res: Vec<(CellId, String)>)
    ensures
        listing_models(res@) == library_listing(*lib),
        forall|i: int|
            0 <= i < res@.len() ==> library_cells(*lib).contains_key((#[trigger] res@[i]).0),
{
    lib.all_cells().into_iter().map(|(id, cell)| (id, cell.name().as_str().to_string())).collect()
}

/// No shape on any layer.
pub open spec fn no_shapes() -> Map<LayerIndex, Seq<ShapeModel>> {
    Map::empty()
}

/// `klayout_core::CellBuilder::new`: a cell with a name and nothing in it.
#[verifier::external_body]
pub(crate) fn new_builder(name: &str) -> (res: CellBuilder)
    ensures
        builder_name(res) == name@,
        builder_instances(res).len() == 0,
        builder_shapes(res) == no_shapes(),
        builder_ports(res).len() == 0,
{
    CellBuilder::new(name)
}

/// `klayout_core::CellBuilder::instantiate`: places a cell, behind those placed
/// before it.
#[verifier::external_body]
pub(crate) fn add_instance(b: &mut CellBuilder, cell: CellId, t: Trans)
    ensures
        builder_instances(*final(b)) == builder_instances(*old(b)).push((cell, t)),
        builder_name(*final(b)) == builder_name(*old(b)),
        builder_shapes(*final(b)) == builder_shapes(*old(b)),
        builder_ports(*final(b)) == builder_ports(*old(b)),
{
    let rot = match t.rot {
        geom::Rot4::R0 => klayout_core::Rot4::R0,
        geom::Rot4::R90 => klayout_core::Rot4::R90,
        geom::Rot4::R180 => klayout_core::Rot4::R180,
        geom::Rot4::R270 => klayout_core::Rot4::R270,
    };
    b.instantiate(cell, klayout_core::Trans::new(rot, t.mirror, klayout_core::Vec2::new(t.disp.x, t.disp.y)));
}

/// The shapes of a cell with one more on a layer, behind those already there.
pub open spec fn with_shape(
    m: Map<LayerIndex, Seq<ShapeModel>>,
    layer: LayerIndex,
    s: ShapeModel,
) -> Map<LayerIndex, Seq<ShapeModel>> {
    m.insert(
        layer,
        (if m.contains_key(layer) {
            m[layer]
        } else {
            Seq::empty()
        }).push(s),
    )
}

/// `klayout_core::CellBuilder::add_shape`: puts a shape on a layer.
#[verifier::external_body]
pub(crate) fn add_shape(b: &mut CellBuilder, layer: LayerIndex, s: &Shape)
    ensures
        builder_shapes(*final(b)) == with_shape(builder_shapes(*old(b)), layer, s.model()),
        builder_name(*final(b)) == builder_name(*old(b)),
        builder_instances(*final(b)) == builder_instances(*old(b)),
        builder_ports(*final(b)) == builder_ports(*old(b)),
{
    let point = |p: &Point| RawPoint::new(p.x, p.y);
    let shape: klayout_core::Shape = match s {
        Shape::Box(r) => klayout_core::Bbox::new(point(&r.min), point(&r.max)).into(),
        Shape::Path(p) => klayout_core::Path::new(p.points.iter().map(point), p.width).into(),
    };
    b.add_shape(layer, shape);
}

/// `klayout_core::CellBuilder::add_port`: adds a port, behind those already there.
#[verifier::external_body]
pub(crate) fn add_port(b: &mut CellBuilder, p: &Port)
    ensures
        builder_ports(*final(b)) == builder_ports(*old(b)).push(p.model()),
        builder_name(*final(b)) == builder_name(*old(b)),
        builder_instances(*final(b)) == builder_instances(*old(b)),
        builder_shapes(*final(b)) == builder_shapes(*old(b)),
{
    let angle = match p.angle {
        Angle90::E => RawAngle::E,
        Angle90::N => RawAngle::N,
        Angle90::W => RawAngle::W,
        Angle90::S => RawAngle::S,
    };
    let center = RawPoint::new(p.center.x, p.center.y);
    let port = RawPort::new(p.name.as_str(), p.layer, center, angle, p.width);
    b.add_port(port.with_kind(klayout_core::PortKindId(p.kind)));
}

/// Whether a library knows every cell and every layer that a cell refers to.
pub open spec fn belongs(b: CellBuilder, lib: Library) -> bool {
    &&& forall|i: int|
        0 <= i < builder_instances(b).len() ==> library_cells(lib).contains_key(
            (#[trigger] builder_instances(b)[i]).0,
        )
    &&& forall|l: LayerIndex| #[trigger]
        builder_shapes(b).contains_key(l) ==> library_layers(lib).contains(l)
    &&& forall|i: int|
        0 <= i < builder_ports(b).len() ==> library_layers(lib).contains(
            (#[trigger] builder_ports(b)[i]).layer,
        )
}

/// Whether the box around every shape of a cell can be computed.
pub open spec fn outlines_fit(shapes: Map<LayerIndex, Seq<ShapeModel>>) -> bool {
    forall|l: LayerIndex, i: int|
        shapes.contains_key(l) && 0 <= i < shapes[l].len() ==> geom::outline_fits(
            #[trigger] shapes[l][i],
        )
}

/// Whether all shapes of a cell are boxes on one layer, each with some extent.
pub open spec fn only_boxes(shapes: Map<LayerIndex, Seq<ShapeModel>>, l: LayerIndex) -> bool {
    &&& shapes.dom() == set![l]
    &&& shapes[l].len() > 0
    &&& forall|i: int|
        0 <= i < shapes[l].len() ==> (#[trigger] shapes[l][i] is Box) && !(
        shapes[l][i]->Box_0).empty()
}

/// The box around the first `n` of some boxes.
pub open spec fn box_around(shapes: Seq<ShapeModel>, n: int) -> Bbox
    decreases n,
{
    if n <= 1 {
        shapes[0]->Box_0
    } else {
        geom::spanned(box_around(shapes, n - 1), shapes[n - 1]->Box_0)
    }
}

/// What a cell is made of: the cells placed in it and its shapes.
#[verifier::ext_equal]
pub struct BodyModel {
    pub instances: Seq<(CellId, Trans)>,
    pub shapes: Map<LayerIndex, Seq<ShapeModel>>,
}

/// What each cell of a library is made of.
pub uninterp spec fn library_bodies(lib: Library) -> Map<CellId, BodyModel>;

/// The content hash of each cell of a library.
pub uninterp spec fn library_hashes(lib: Library) -> Map<CellId, Seq<u8>>;

/// The content hash that a cell gets when it is added to a library.
pub uninterp spec fn frozen_hash(b: CellBuilder, lib: Library) -> Seq<u8>;

/// Whether a library has a cell with a content hash.
pub open spec fn has_hash(lib: Library, h: Seq<u8>) -> bool {
    exists|x: CellId| #[trigger]
        library_hashes(lib).contains_key(x) && library_hashes(lib)[x] == h
}

/// What adding a cell does to a library. The cell that comes back has the content hash of
/// the one that is added. Where the library has one of that hash already, it stays as it
/// is; elsewhere it has one more cell, made of what is given, with its name and its ports
/// and, where it is made of boxes on one layer, the box around them.
pub open spec fn inserted(before: Library, after: Library, id: CellId, b: CellBuilder) -> bool {
    &&& library_layers(after) == library_layers(before)
    &&& library_hashes(after).contains_key(id)
    &&& library_hashes(after)[id] == frozen_hash(b, before)
    &&& library_cells(before).contains_key(id) == has_hash(before, frozen_hash(b, before))
    &&& if library_cells(before).contains_key(id) {
        &&& library_cells(after) == library_cells(before)
        &&& library_listing(after) == library_listing(before)
        &&& library_bodies(after) == library_bodies(before)
        &&& library_hashes(after) == library_hashes(before)
    } else {
        &&& library_cells(after).remove(id) == library_cells(before)
        &&& library_cells(after).contains_key(id)
        &&& library_cells(after)[id].ports == builder_ports(b)
        &&& forall|l: LayerIndex| #[trigger]
            only_boxes(builder_shapes(b), l) ==> library_cells(after)[id].bbox == box_around(
                builder_shapes(b)[l],
                builder_shapes(b)[l].len() as int,
            )
        &&& library_listing(after) == library_listing(before).push((id, builder_name(b)))
        &&& library_bodies(after) == library_bodies(before).insert(
            id,
            BodyModel { instances: builder_instances(b), shapes: builder_shapes(b) },
        )
        &&& library_hashes(after) == library_hashes(before).insert(id, frozen_hash(b, before))
    }
}

/// `klayout_core::Library::insert`: freezes a cell, which computes its content hash, and
/// adds it, unless the library has a cell of the same hash, whose handle it then returns.
/// Left unsaid: how the hash is computed, and the box around the shapes of a new cell that
/// are paths, empty or on several layers.
#[verifier::external_body]
pub(crate) fn insert(lib: &mut Library, b: CellBuilder) -> (id: CellId)
    requires
        belongs(b, *old(lib)),
        outlines_fit(builder_shapes(b)),
        library_listing(*old(lib)).len() < 0xffff_ffff,
    ensures
        inserted(*old(lib), *final(lib), id, b),
        library_hashes(*final(lib))[id] == frozen_hash(b, *old(lib)),
        library_bodies(*final(lib)).contains_key(id),
{
    lib.insert(b)
}

/// Adding a cell takes away none.
pub proof fn cells_are_only_added(before: Library, after: Library, id: CellId, b: CellBuilder, x: CellId)
    requires
        inserted(before, after, id, b),
        library_cells(before).contains_key(x),
    ensures
        library_cells(after).contains_key(x),
        library_cells(after)[x] == library_cells(before)[x],
        library_cells(after).contains_key(id),
{
    if !library_cells(before).contains_key(id) {
        assert(library_cells(after).remove(id).contains_key(x));
        assert(library_cells(after).remove(id)[x] == library_cells(before)[x]);
    }
}

/// What a library finds under a name after a cell is added: what it found before, or, where
/// that is nothing and the cell is new and of that name, the cell.
pub proof fn new_cells_are_found_by_name(
    before: Library,
    after: Library,
    id: CellId,
    b: CellBuilder,
    name: Seq<char>,
)
    requires
        inserted(before, after, id, b),
    ensures
        named(after, name) == (match named(before, name) {
            Some(earlier) => Some(earlier),
            None => if !library_cells(before).contains_key(id) && builder_name(b) == name
                && name.len() > 0 {
                Some(id)
            } else {
                None
            },
        }),
{
    let had = library_listing(before);
    if !library_cells(before).contains_key(id) {
        let has = library_listing(after);
        assert(has == had.push((id, builder_name(b))));
        lemma_first_named(had, (id, builder_name(b)), name, had.len() as int);
        assert(has[had.len() as int] == (id, builder_name(b)));
    }
}

proof fn lemma_first_named(
    cells: Seq<(CellId, Seq<char>)>,
    more: (CellId, Seq<char>),
    name: Seq<char>,
    n: int,
)
    requires
        0 <= n <= cells.len(),
    ensures
        first_named(cells.push(more), name, n) == first_named(cells, name, n),
    decreases n,
{
    if n > 0 {
        lemma_first_named(cells, more, name, n - 1);
    }
}

// ── planning ───────────────────────────────────────────────────────

/// The line from one port to another, with a bend in the direction in which the
/// first one faces, unless the bend would lie on either of them.
pub open spec fn bent_line(src: PortModel, dst: PortModel) -> Seq<Point> {
    let elbow = if src.angle is E || src.angle is W {
        Point { x: dst.center.x, y: src.center.y }
    } else {
        Point { x: src.center.x, y: dst.center.y }
    };
    if elbow != src.center && elbow != dst.center {
        seq![src.center, elbow, dst.center]
    } else {
        seq![src.center, dst.center]
    }
}

/// `klayout_route::ManhattanPlanner::plan`, without obstacles: the line from one port
/// to another with at most one bend, as wide as the wider port.
#[verifier::external_body]
pub(crate) fn plan(src: &Port, dst: &Port) -> (res: Path)
    ensures
        res.points@ == bent_line(src.model(), dst.model()),
        res.width == geom::top(src.width, dst.width),
{
    let angle = |a: Angle90| match a {
        Angle90::E => RawAngle::E,
        Angle90::N => RawAngle::N,
        Angle90::W => RawAngle::W,
        Angle90::S => RawAngle::S,
    };
    let port = |p: &Port| RawPort::new(p.name.as_str(), p.layer, RawPoint::new(p.center.x, p.center.y), angle(p.angle), p.width);
    let path = klayout_route::Planner::plan(&klayout_route::ManhattanPlanner, &port(src), &port(dst), &klayout_route::Obstacles::default());
    let points = path.points.iter().map(|q| Point { x: q.x, y: q.y }).collect();
    Path { points, width: path.width }
}

/// A tree that connects points.
#[derive(Debug)]
pub struct Tree {
    pub nodes: Vec<Point>,
    pub edges: Vec<(usize, usize)>,
}

/// Whether every coordinate lies within `m` of zero.
pub open spec fn all_within(pins: Seq<Point>, m: int) -> bool {
    forall|i: int|
        #![trigger pins[i]]
        0 <= i < pins.len() ==> -m <= pins[i].x <= m && -m <= pins[i].y <= m
}

/// Whether the length of every tree over the points can be a coordinate.
pub open spec fn lengths_fit(pins: Seq<Point>) -> bool {
    exists|m: int|
        0 <= m && 4 * m * pins.len() <= i64::MAX && #[trigger] all_within(pins, m)
}

/// Nodes and edges of the Steiner tree over some points.
pub uninterp spec fn steiner(pins: Seq<Point>) -> (Seq<Point>, Seq<(usize, usize)>);

/// Whether a set holds both ends of each edge or neither.
pub open spec fn closed_along(s: Set<int>, edges: Seq<(usize, usize)>) -> bool {
    forall|i: int|
        #![trigger edges[i]]
        0 <= i < edges.len() ==> (s.contains(edges[i].0 as int) <==> s.contains(edges[i].1 as int))
}

/// Whether edges lead from each of `n` nodes to every other.
pub open spec fn is_connected(n: nat, edges: Seq<(usize, usize)>) -> bool {
    forall|s: Set<int>, a: int, b: int|
        #![trigger closed_along(s, edges), s.contains(a), s.contains(b)]
        closed_along(s, edges) && 0 <= a < n && 0 <= b < n && s.contains(a) ==> s.contains(b)
}

/// `klayout_route::rsmt`: the rectilinear Steiner tree over some points. All the points
/// are among its nodes, its edges join its nodes, and they lead from each node to every
/// other. Left unsaid: which tree it is.
#[verifier::external_body]
pub(crate) fn steiner_tree(pins: &Vec<Point>) -> (res: Tree)
    requires
        lengths_fit(pins@),
    ensures
        (res.nodes@, res.edges@) == steiner(pins@),
        forall|i: int|
            #![trigger res.edges@[i]]
            0 <= i < res.edges@.len() ==> res.edges@[i].0 < res.nodes@.len() && res.edges@[i].1
                < res.nodes@.len(),
        forall|i: int| 0 <= i < pins@.len() ==> res.nodes@.contains(#[trigger] pins@[i]),
        is_connected(res.nodes@.len(), res.edges@),
{
    let points: Vec<RawPoint> = pins.iter().map(|p| RawPoint::new(p.x, p.y)).collect();
    let tree = klayout_route::rsmt(&points);
    Tree {
        nodes: tree.nodes.iter().map(|p| Point { x: p.x, y: p.y }).collect(),
        edges: tree.edges,
    }
}

} // verus!
