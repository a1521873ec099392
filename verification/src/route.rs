//! How the nets of a placed design are wired.

use crate::geom;
use crate::geom::{Bbox, Path, Point, Port, PortModel, Shape, ShapeModel, Trans};
use crate::layout;
use crate::layout::{CellModel, CellView};
use crate::netlist;
use crate::netlist::{Net, NetModel, Netlist, PinModel, PinRef};
use crate::place::Placement;
use crate::text;
use klayout_core::LayerIndex;
use vstd::prelude::*;
use vstd::string::*;

verus! {

/// The wires of one net.
#[derive(Debug)]
pub struct Wire {
    pub net: String,
    pub layer: LayerIndex,
    pub shapes: Vec<Shape>,
}

#[verifier::ext_equal]
pub struct WireModel {
    pub net: Seq<char>,
    pub layer: LayerIndex,
    pub shapes: Seq<ShapeModel>,
}

impl Wire {
    pub open spec fn model(self) -> WireModel {
        WireModel { net: self.net@, layer: self.layer, shapes: geom::shape_models(self.shapes@) }
    }
}

pub open spec fn wire_models(s: Seq<Wire>) -> Seq<WireModel> {
    s.map_values(|w: Wire| w.model())
}

/// The wires of a design, and the names of the nets that have none.
#[derive(Debug)]
pub struct RoutedDesign {
    pub wires: Vec<Wire>,
    pub failed_nets: Vec<String>,
}

#[verifier::ext_equal]
pub struct Routing {
    pub wires: Seq<WireModel>,
    pub failed: Seq<Seq<char>>,
}

impl RoutedDesign {
    pub open spec fn model(self) -> Routing {
        Routing { wires: wire_models(self.wires@), failed: text::texts(self.failed_nets@) }
    }
}

impl Default for RoutedDesign {
    fn default() -> (res: Self)
        ensures
            res.wires@.len() == 0,
            res.failed_nets@.len() == 0,
    {
        RoutedDesign { wires: Vec::new(), failed_nets: Vec::new() }
    }
}

/// A way to wire the nets of a placed design.
pub trait Router {
    /// The wires and the nets without any; none where a coordinate would not fit.
    spec fn routing(&self, netlist: Netlist, moves: Seq<Trans>, cells: Seq<CellModel>) -> Option<
        Routing,
    >;

    /// The layers that the wires of a design can be on.
    spec fn layers(&self, netlist: Netlist) -> Set<LayerIndex>;

    /// Wires the nets. `cells` holds what is known of the cell of each instance.
    fn route(&self, netlist: &Netlist, place: &Placement, cells: &Vec<CellView>) -> (res: Option<
        RoutedDesign,
    >)
        requires
            cells@.len() == netlist.instances@.len(),
            place.transforms@.len() >= netlist.instances@.len(),
        ensures
            match res {
                Some(r) => self.routing(
                    *netlist,
                    place.transforms@,
                    layout::cell_models(cells@),
                ) == Some(r.model()),
                None => self.routing(
                    *netlist,
                    place.transforms@,
                    layout::cell_models(cells@),
                ) is None,
            },
            res matches Some(r) ==> on_layers(r.model().wires, self.layers(*netlist)),
    ;
}

/// Whether every wire is on one of the layers.
pub open spec fn on_layers(wires: Seq<WireModel>, layers: Set<LayerIndex>) -> bool {
    forall|i: int| 0 <= i < wires.len() ==> layers.contains((#[trigger] wires[i]).layer)
}

/// The layers that a design names.
pub open spec fn design_layers(nl: Netlist) -> Set<LayerIndex> {
    Set::new(
        |l: LayerIndex|
            nl.default_signal_layer == Some(l) || exists|i: int|
                0 <= i < nl.nets@.len() && (#[trigger] nl.nets@[i]).layer == Some(l),
    )
}

/// How a planned line becomes shapes.
#[derive(Debug, Clone, Copy, PartialEq, Eq, Structural)]
pub enum WireStyle {
    /// As a single path.
    Path,
    /// As one box for each straight piece.
    Polygon,
}

/// How a net of three or more pins is wired.
#[derive(Debug, Clone, Copy, PartialEq, Eq, Structural)]
pub enum MultiPinStrategy {
    /// From the first pin to each of the others.
    Star,
    /// Along a Steiner tree.
    Steiner,
}

/// Wires every net on one layer, with right-angled lines.
#[derive(Debug)]
pub struct ManhattanRouter {
    pub style: WireStyle,
    pub multi_pin: MultiPinStrategy,
}

impl Default for ManhattanRouter {
    fn default() -> (res: Self)
        ensures
            res == (ManhattanRouter {
                style: WireStyle::Polygon,
                multi_pin: MultiPinStrategy::Star,
            }),
    {
        ManhattanRouter { style: WireStyle::Polygon, multi_pin: MultiPinStrategy::Star }
    }
}

impl ManhattanRouter {
    pub fn new(style: WireStyle) -> (res: Self)
        ensures
            res == (ManhattanRouter { style, multi_pin: MultiPinStrategy::Star }),
    {
        ManhattanRouter { style, multi_pin: MultiPinStrategy::Star }
    }

    pub fn with_multi_pin(self, strat: MultiPinStrategy) -> (res: Self)
        ensures
            res == (ManhattanRouter { style: self.style, multi_pin: strat }),
    {
        ManhattanRouter { style: self.style, multi_pin: strat }
    }
}

// ── shapes ─────────────────────────────────────────────────────────

/// The box around a straight piece from `a` to `b` of a wire of width `w`, if its
/// corners can be points.
pub open spec fn segment_box(a: Point, b: Point, w: i64) -> Option<Bbox> {
    let h = geom::half(w);
    match (
        geom::point_at(geom::low(a.x, b.x) - h, geom::low(a.y, b.y) - h),
        geom::point_at(geom::top(a.x, b.x) + h, geom::top(a.y, b.y) + h),
    ) {
        (Some(min), Some(max)) => Some(Bbox { min, max }),
        _ => None,
    }
}

fn segment_box_of(a: Point, b: Point, w: i64) -> (res: Option<Bbox>)
    ensures
        res == segment_box(a, b, w),
{
    let h: i128 = geom::half_of(w);
    match (
        geom::to_coord(geom::low_of(a.x, b.x) as i128 - h),
        geom::to_coord(geom::low_of(a.y, b.y) as i128 - h),
        geom::to_coord(geom::top_of(a.x, b.x) as i128 + h),
        geom::to_coord(geom::top_of(a.y, b.y) as i128 + h),
    ) {
        (Some(x0), Some(y0), Some(x1), Some(y1)) => Some(
            Bbox { min: Point { x: x0, y: y0 }, max: Point { x: x1, y: y1 } },
        ),
        _ => None,
    }
}

/// Whether the boxes around the first `n` pieces of a line have corners that can be
/// points.
pub open spec fn boxes_fit(points: Seq<Point>, w: i64, n: int) -> bool {
    forall|i: int|
        #![trigger points[i]]
        0 <= i < n ==> segment_box(points[i], points[i + 1], w) is Some
}

/// The boxes around the first `n` pieces of a line.
pub open spec fn segment_boxes(points: Seq<Point>, w: i64, n: int) -> Seq<ShapeModel>
    decreases n,
{
    if n <= 0 {
        Seq::empty()
    } else {
        segment_boxes(points, w, n - 1).push(
            ShapeModel::Box(segment_box(points[n - 1], points[n], w)->0),
        )
    }
}

/// The shapes of a line as boxes, if their corners can be points.
pub open spec fn polygon_shapes(points: Seq<Point>, w: i64) -> Option<Seq<ShapeModel>> {
    if boxes_fit(points, w, points.len() - 1) {
        Some(segment_boxes(points, w, points.len() - 1))
    } else {
        None
    }
}

/// Boxes as shapes.
pub open spec fn box_shapes(s: Seq<Bbox>) -> Seq<ShapeModel> {
    s.map_values(|b: Bbox| ShapeModel::Box(b))
}

fn line_boxes(path: &Path) -> (res: Option<Vec<Bbox>>)
    ensures
        match res {
            Some(v) => polygon_shapes(path.points@, path.width) == Some(box_shapes(v@)),
            None => polygon_shapes(path.points@, path.width) is None,
        },
{
    let mut out: Vec<Bbox> = Vec::new();
    assert(box_shapes(out@) =~= Seq::empty());
    if path.points.len() == 0 {
        return Some(out);
    }
    let last: usize = path.points.len() - 1;
    let mut i: usize = 0;
    while i < last
        invariant
            i <= last,
            last == path.points@.len() - 1,
            boxes_fit(path.points@, path.width, i as int),
            box_shapes(out@) == segment_boxes(path.points@, path.width, i as int),
        decreases last - i,
    {
        match segment_box_of(path.points[i], path.points[i + 1], path.width) {
            None => {
                assert(segment_box(
                    path.points@[i as int],
                    path.points@[i + 1],
                    path.width,
                ) is None);
                return None;
            },
            Some(b) => {
                let ghost before = out@;
                out.push(b);
                assert(box_shapes(out@) =~= box_shapes(before).push(ShapeModel::Box(b)));
            },
        }
        i = i + 1;
    }
    Some(out)
}

/// Shapes with their layers.
pub open spec fn layer_models(s: Seq<(LayerIndex, Shape)>) -> Seq<(LayerIndex, ShapeModel)> {
    s.map_values(|x: (LayerIndex, Shape)| (x.0, x.1.model()))
}

/// Shapes that are all on one layer.
pub open spec fn on_layer(layer: LayerIndex, s: Seq<ShapeModel>) -> Seq<(LayerIndex, ShapeModel)> {
    s.map_values(|x: ShapeModel| (layer, x))
}

/// Draws a line as one box for each straight piece.
#[derive(Debug, Clone, Copy)]
pub struct PolygonWireStylizer;

impl PolygonWireStylizer {
    /// The boxes around the pieces of a line, on its layer; none where a corner would not
    /// fit.
    pub fn stylize(&self, layer: LayerIndex, path: Path) -> (res: Option<Vec<(LayerIndex, Shape)>>)
        ensures
            match res {
                Some(v) => polygon_shapes(path.points@, path.width) is Some && layer_models(v@)
                    == on_layer(layer, polygon_shapes(path.points@, path.width)->0),
                None => polygon_shapes(path.points@, path.width) is None,
            },
    {
        match line_boxes(&path) {
            None => None,
            Some(boxes) => {
                let ghost all = on_layer(layer, box_shapes(boxes@));
                let mut out: Vec<(LayerIndex, Shape)> = Vec::new();
                let mut i: usize = 0;
                while i < boxes.len()
                    invariant
                        i <= boxes@.len(),
                        all == on_layer(layer, box_shapes(boxes@)),
                        layer_models(out@) =~= all.take(i as int),
                    decreases boxes@.len() - i,
                {
                    let ghost before = out@;
                    out.push((layer, Shape::Box(boxes[i])));
                    assert(layer_models(out@) =~= layer_models(before).push(all[i as int]));
                    i = i + 1;
                }
                assert(all.take(boxes@.len() as int) =~= all);
                Some(out)
            },
        }
    }
}

/// The shapes of a line in a style; none where a corner would not fit.
pub open spec fn styled(style: WireStyle, points: Seq<Point>, w: i64) -> Option<Seq<ShapeModel>> {
    match style {
        WireStyle::Path => Some(seq![ShapeModel::Path(points, w)]),
        WireStyle::Polygon => polygon_shapes(points, w),
    }
}

/// More shapes behind others; none where there are none to add.
pub open spec fn more_shapes(s: Option<Seq<ShapeModel>>, t: Option<Seq<ShapeModel>>) -> Option<
    Seq<ShapeModel>,
> {
    match (s, t) {
        (Some(a), Some(b)) => Some(a + b),
        _ => None,
    }
}

/// Adds the shapes of a line; says whether they fit.
fn push_styled(style: WireStyle, path: Path, out: &mut Vec<Shape>) -> (res: bool)
    ensures
        res == (styled(style, path.points@, path.width) is Some),
        res ==> geom::shape_models(final(out)@) == geom::shape_models(old(out)@) + styled(
            style,
            path.points@,
            path.width,
        )->0,
{
    let ghost before = geom::shape_models(out@);
    match style {
        WireStyle::Path => {
            let ghost m = ShapeModel::Path(path.points@, path.width);
            out.push(Shape::Path(path));
            assert(geom::shape_models(out@) =~= before + seq![m]);
            true
        },
        WireStyle::Polygon => match line_boxes(&path) {
            None => false,
            Some(boxes) => {
                let ghost more = box_shapes(boxes@);
                let mut i: usize = 0;
                assert(before =~= before + more.take(0));
                while i < boxes.len()
                    invariant
                        i <= boxes@.len(),
                        more == box_shapes(boxes@),
                        geom::shape_models(out@) == before + more.take(i as int),
                    decreases boxes@.len() - i,
                {
                    let ghost had = out@;
                    out.push(Shape::Box(boxes[i]));
                    assert(geom::shape_models(out@) =~= geom::shape_models(had).push(
                        more[i as int],
                    ));
                    i = i + 1;
                    assert(geom::shape_models(out@) =~= before + more.take(i as int));
                }
                assert(more.take(boxes@.len() as int) =~= more);
                true
            },
        },
    }
}

// ── pins ───────────────────────────────────────────────────────────

/// The first port of a name.
pub open spec fn port_named(s: Seq<PortModel>, name: Seq<char>) -> Option<PortModel>
    decreases s.len(),
{
    if s.len() == 0 {
        None
    } else if s[0].name == name {
        Some(s[0])
    } else {
        port_named(s.skip(1), name)
    }
}

/// Finds the first port of a name.
pub fn find_port<'a>(ports: &'a Vec<Port>, name: &str) -> (res: Option<&'a Port>)
    ensures
        match res {
            Some(p) => port_named(geom::port_models(ports@), name@) == Some(p.model())
                && ports@.contains(*p),
            None => port_named(geom::port_models(ports@), name@) is None,
        },
{
    let ghost all = geom::port_models(ports@);
    let mut i: usize = 0;
    assert(all.skip(0) =~= all);
    while i < ports.len()
        invariant
            i <= ports.len(),
            all == geom::port_models(ports@),
            port_named(all, name@) == port_named(all.skip(i as int), name@),
        decreases ports.len() - i,
    {
        assert(all.skip(i as int)[0] == ports@[i as int].model());
        assert(all.skip(i as int).skip(1) =~= all.skip(i + 1));
        if text::same(ports[i].name.as_str(), name) {
            assert(ports@.contains(ports@[i as int]));
            return Some(&ports[i]);
        }
        i = i + 1;
    }
    None
}

/// What becomes of a pin: it may be on no port, its port may not fit, or it is at a
/// port.
#[verifier::ext_equal]
pub enum PinFate {
    Missing,
    OffGrid,
    At(PortModel),
}

/// The port of a pin, after the move of its cell.
pub open spec fn pin_fate(pin: PinModel, moves: Seq<Trans>, cells: Seq<CellModel>) -> PinFate {
    if pin.instance >= cells.len() {
        PinFate::Missing
    } else {
        match port_named(cells[pin.instance as int].ports, pin.port) {
            None => PinFate::Missing,
            Some(p) => match p.moved(moves[pin.instance as int]) {
                None => PinFate::OffGrid,
                Some(q) => PinFate::At(q),
            },
        }
    }
}

/// What becomes of a net: a pin of it may be on no port, a coordinate may not fit, or
/// all its pins are at ports.
#[verifier::ext_equal]
pub enum NetFate {
    Failed,
    OffGrid,
    At(Seq<PortModel>),
}

/// The ports of the first `n` pins of a net. The first pin that is not at a port
/// decides.
pub open spec fn net_fate(
    pins: Seq<PinModel>,
    moves: Seq<Trans>,
    cells: Seq<CellModel>,
    n: int,
) -> NetFate
    decreases n,
{
    if n <= 0 {
        NetFate::At(Seq::empty())
    } else {
        match net_fate(pins, moves, cells, n - 1) {
            NetFate::At(ports) => match pin_fate(pins[n - 1], moves, cells) {
                PinFate::Missing => NetFate::Failed,
                PinFate::OffGrid => NetFate::OffGrid,
                PinFate::At(p) => NetFate::At(ports.push(p)),
            },
            other => other,
        }
    }
}

/// The ports of a net.
#[derive(Debug)]
pub enum NetPorts {
    Failed,
    OffGrid,
    At(Vec<Port>),
}

impl NetPorts {
    pub open spec fn model(self) -> NetFate {
        match self {
            NetPorts::Failed => NetFate::Failed,
            NetPorts::OffGrid => NetFate::OffGrid,
            NetPorts::At(v) => NetFate::At(geom::port_models(v@)),
        }
    }
}

proof fn lemma_fate_is_final(
    pins: Seq<PinModel>,
    moves: Seq<Trans>,
    cells: Seq<CellModel>,
    k: int,
    n: int,
)
    requires
        0 <= k <= n,
        !(net_fate(pins, moves, cells, k) is At),
    ensures
        net_fate(pins, moves, cells, n) == net_fate(pins, moves, cells, k),
    decreases n,
{
    if k < n {
        lemma_fate_is_final(pins, moves, cells, k, n - 1);
    }
}

/// Finds the ports of a net.
pub fn resolve_net(net: &Net, moves: &Vec<Trans>, cells: &Vec<CellView>) -> (res: NetPorts)
    requires
        moves@.len() >= cells@.len(),
    ensures
        res.model() == net_fate(
            net.model().pins,
            moves@,
            layout::cell_models(cells@),
            net.pins@.len() as int,
        ),
        res matches NetPorts::At(v) ==> v@.len() == net.pins@.len(),
{
    let ghost pins = net.model().pins;
    let ghost ms = layout::cell_models(cells@);
    let mut ports: Vec<Port> = Vec::new();
    assert(geom::port_models(ports@) =~= Seq::empty());
    let mut i: usize = 0;
    while i < net.pins.len()
        invariant
            i <= net.pins@.len(),
            moves@.len() >= cells@.len(),
            pins == netlist::pin_models(net.pins@),
            pins == net.model().pins,
            ms == layout::cell_models(cells@),
            ports@.len() == i,
            net_fate(pins, moves@, ms, i as int) == NetFate::At(geom::port_models(ports@)),
        decreases net.pins@.len() - i,
    {
        let pin: &PinRef = &net.pins[i];
        assert(pins[i as int] == pin.model());
        assert(ms.len() == cells@.len());
        let ghost fate = pin_fate(pins[i as int], moves@, ms);
        if pin.instance >= cells.len() {
            assert(fate is Missing);
            proof {
                lemma_fate_is_final(pins, moves@, ms, i + 1, net.pins@.len() as int);
            }
            return NetPorts::Failed;
        }
        assert(ms[pin.instance as int] == cells@[pin.instance as int].model());
        match find_port(&cells[pin.instance].ports, pin.port.as_str()) {
            None => {
                assert(fate is Missing);
                proof {
                    lemma_fate_is_final(pins, moves@, ms, i + 1, net.pins@.len() as int);
                }
                return NetPorts::Failed;
            },
            Some(p) => match p.transform(moves[pin.instance]) {
                None => {
                    assert(fate is OffGrid);
                    proof {
                        lemma_fate_is_final(pins, moves@, ms, i + 1, net.pins@.len() as int);
                    }
                    return NetPorts::OffGrid;
                },
                Some(q) => {
                    let ghost before = ports@;
                    ports.push(q);
                    assert(geom::port_models(ports@) =~= geom::port_models(before).push(
                        q.model(),
                    ));
                },
            },
        }
        i = i + 1;
    }
    NetPorts::At(ports)
}

// ── lines ──────────────────────────────────────────────────────────

/// The shapes of the lines from the first port to the next `n`.
pub open spec fn star_shapes(style: WireStyle, ports: Seq<PortModel>, n: int) -> Option<
    Seq<ShapeModel>,
>
    decreases n,
{
    if n <= 0 {
        Some(Seq::empty())
    } else {
        more_shapes(
            star_shapes(style, ports, n - 1),
            styled(
                style,
                layout::bent_line(ports[0], ports[n]),
                geom::top(ports[0].width, ports[n].width),
            ),
        )
    }
}

proof fn lemma_star_none(style: WireStyle, ports: Seq<PortModel>, k: int, n: int)
    requires
        0 <= k <= n,
        star_shapes(style, ports, k) is None,
    ensures
        star_shapes(style, ports, n) is None,
    decreases n,
{
    if k < n {
        lemma_star_none(style, ports, k, n - 1);
    }
}

fn star(style: WireStyle, ports: &Vec<Port>) -> (res: Option<Vec<Shape>>)
    requires
        ports@.len() > 0,
    ensures
        match res {
            Some(v) => star_shapes(style, geom::port_models(ports@), ports@.len() - 1) == Some(
                geom::shape_models(v@),
            ),
            None => star_shapes(style, geom::port_models(ports@), ports@.len() - 1) is None,
        },
{
    let ghost ms = geom::port_models(ports@);
    let mut out: Vec<Shape> = Vec::new();
    assert(geom::shape_models(out@) =~= Seq::empty());
    let mut i: usize = 1;
    while i < ports.len()
        invariant
            1 <= i <= ports@.len(),
            ms == geom::port_models(ports@),
            star_shapes(style, ms, i - 1) == Some(geom::shape_models(out@)),
        decreases ports@.len() - i,
    {
        assert(ms[0] == ports@[0].model());
        assert(ms[i as int] == ports@[i as int].model());
        let path = layout::plan(&ports[0], &ports[i]);
        if !push_styled(style, path, &mut out) {
            proof {
                lemma_star_none(style, ms, i as int, ports@.len() - 1);
            }
            return None;
        }
        i = i + 1;
    }
    Some(out)
}

/// The line along an edge of a tree, with a bend where it is not straight.
pub open spec fn edge_line(a: Point, b: Point) -> Seq<Point> {
    if a.x != b.x && a.y != b.y {
        seq![a, Point { x: b.x, y: a.y }, b]
    } else {
        seq![a, b]
    }
}

/// The shapes of the lines along the first `n` edges of a tree; an edge between equal
/// points has none.
pub open spec fn tree_shapes(
    style: WireStyle,
    nodes: Seq<Point>,
    edges: Seq<(usize, usize)>,
    w: i64,
    n: int,
) -> Option<Seq<ShapeModel>>
    decreases n,
{
    if n <= 0 {
        Some(Seq::empty())
    } else {
        let a = nodes[edges[n - 1].0 as int];
        let b = nodes[edges[n - 1].1 as int];
        let before = tree_shapes(style, nodes, edges, w, n - 1);
        if a == b {
            before
        } else {
            more_shapes(before, styled(style, edge_line(a, b), w))
        }
    }
}

proof fn lemma_tree_none(
    style: WireStyle,
    nodes: Seq<Point>,
    edges: Seq<(usize, usize)>,
    w: i64,
    k: int,
    n: int,
)
    requires
        0 <= k <= n,
        tree_shapes(style, nodes, edges, w, k) is None,
    ensures
        tree_shapes(style, nodes, edges, w, n) is None,
    decreases n,
{
    if k < n {
        lemma_tree_none(style, nodes, edges, w, k, n - 1);
    }
}

/// The shapes along a given tree.
pub fn along_tree(style: WireStyle, tree: &layout::Tree, w: i64) -> (res: Option<Vec<Shape>>)
    requires
        forall|i: int|
            #![trigger tree.edges@[i]]
            0 <= i < tree.edges@.len() ==> tree.edges@[i].0 < tree.nodes@.len()
                && tree.edges@[i].1 < tree.nodes@.len(),
    ensures
        match res {
            Some(v) => tree_shapes(
                style,
                tree.nodes@,
                tree.edges@,
                w,
                tree.edges@.len() as int,
            ) == Some(geom::shape_models(v@)),
            None => tree_shapes(
                style,
                tree.nodes@,
                tree.edges@,
                w,
                tree.edges@.len() as int,
            ) is None,
        },
{
    let mut out: Vec<Shape> = Vec::new();
    assert(geom::shape_models(out@) =~= Seq::empty());
    let mut i: usize = 0;
    while i < tree.edges.len()
        invariant
            i <= tree.edges@.len(),
            forall|i: int|
                #![trigger tree.edges@[i]]
                0 <= i < tree.edges@.len() ==> tree.edges@[i].0 < tree.nodes@.len()
                    && tree.edges@[i].1 < tree.nodes@.len(),
            tree_shapes(style, tree.nodes@, tree.edges@, w, i as int) == Some(
                geom::shape_models(out@),
            ),
        decreases tree.edges@.len() - i,
    {
        let e: (usize, usize) = tree.edges[i];
        let a: Point = tree.nodes[e.0];
        let b: Point = tree.nodes[e.1];
        if a != b {
            let mut points: Vec<Point> = Vec::new();
            points.push(a);
            if a.x != b.x && a.y != b.y {
                points.push(Point { x: b.x, y: a.y });
            }
            points.push(b);
            assert(points@ =~= edge_line(a, b));
            if !push_styled(style, Path { points, width: w }, &mut out) {
                proof {
                    lemma_tree_none(
                        style,
                        tree.nodes@,
                        tree.edges@,
                        w,
                        i + 1,
                        tree.edges@.len() as int,
                    );
                }
                return None;
            }
        }
        i = i + 1;
    }
    Some(out)
}

/// The centres of ports.
pub open spec fn centers(ports: Seq<PortModel>) -> Seq<Point> {
    ports.map_values(|p: PortModel| p.center)
}

/// The greatest width of the first `n` ports.
pub open spec fn widest(ports: Seq<PortModel>, n: int) -> i64
    decreases n,
{
    if n <= 1 {
        ports[0].width
    } else {
        geom::top(widest(ports, n - 1), ports[n - 1].width)
    }
}

/// The shapes of the lines along the Steiner tree over the ports; none where the
/// lengths of trees would not fit.
pub open spec fn steiner_shapes(style: WireStyle, ports: Seq<PortModel>) -> Option<
    Seq<ShapeModel>,
> {
    if layout::lengths_fit(centers(ports)) {
        let (nodes, edges) = layout::steiner(centers(ports));
        tree_shapes(style, nodes, edges, widest(ports, ports.len() as int), edges.len() as int)
    } else {
        None
    }
}

/// Distance from zero.
fn far(n: i64) -> (res: u64)
    ensures
        res == (if n >= 0 {
            n as int
        } else {
            -(n as int)
        }),
{
    if n >= 0 {
        n as u64
    } else {
        (-(n as i128)) as u64
    }
}

/// The greatest distance of a coordinate from zero.
fn reach(pins: &Vec<Point>) -> (m: u64)
    ensures
        layout::all_within(pins@, m as int),
        forall|k: int| 0 <= k && #[trigger] layout::all_within(pins@, k) ==> m <= k,
{
    let mut m: u64 = 0;
    let mut i: usize = 0;
    while i < pins.len()
        invariant
            i <= pins@.len(),
            forall|j: int|
                #![trigger pins@[j]]
                0 <= j < i ==> -m <= pins@[j].x <= m && -m <= pins@[j].y <= m,
            forall|k: int| 0 <= k && #[trigger] layout::all_within(pins@, k) ==> m <= k,
        decreases pins@.len() - i,
    {
        let x: u64 = far(pins[i].x);
        let y: u64 = far(pins[i].y);
        if x > m {
            m = x;
        }
        if y > m {
            m = y;
        }
        i = i + 1;
    }
    m
}

/// Whether the lengths of trees over the points fit.
fn check_lengths(pins: &Vec<Point>) -> (res: bool)
    ensures
        res == layout::lengths_fit(pins@),
{
    let m: u64 = reach(pins);
    let n: u64 = pins.len() as u64;
    let ghost len = pins@.len() as int;
    let fits: bool = m == 0 || n <= (i64::MAX as u64 / 4) / m;
    proof {
        let q = (i64::MAX / 4) as int;
        if fits {
            assert(4 * (m as int) * len <= i64::MAX) by (nonlinear_arith)
                requires
                    m == 0 || n <= (i64::MAX as u64 / 4) / m,
                    len == n as int,
            ;
            assert(layout::all_within(pins@, m as int));
        } else {
            assert forall|k: int| 0 <= k && #[trigger] layout::all_within(pins@, k) implies 4 * k
                * len > i64::MAX by {
                assert(4 * k * len > i64::MAX) by (nonlinear_arith)
                    requires
                        m > 0,
                        n > (i64::MAX as u64 / 4) / m,
                        len == n as int,
                        m <= k,
                ;
            }
        }
    }
    fits
}

fn along_steiner(style: WireStyle, ports: &Vec<Port>) -> (res: Option<Vec<Shape>>)
    requires
        ports@.len() > 0,
    ensures
        match res {
            Some(v) => steiner_shapes(style, geom::port_models(ports@)) == Some(
                geom::shape_models(v@),
            ),
            None => steiner_shapes(style, geom::port_models(ports@)) is None,
        },
        res matches Some(v) ==> (have_widths(geom::port_models(ports@)) ==> joined(
            geom::shape_models(v@),
            geom::port_models(ports@),
        )),
{
    let ghost ms = geom::port_models(ports@);
    assert(ms[0] == ports@[0].model());
    let mut pins: Vec<Point> = Vec::new();
    let mut w: i64 = ports[0].width;
    let mut i: usize = 0;
    while i < ports.len()
        invariant
            i <= ports@.len(),
            ms == geom::port_models(ports@),
            pins@ =~= centers(ms).take(i as int),
            w == widest(ms, i as int),
        decreases ports@.len() - i,
    {
        assert(ms[i as int] == ports@[i as int].model());
        pins.push(ports[i].center);
        w = geom::top_of(w, ports[i].width);
        i = i + 1;
    }
    assert(pins@ =~= centers(ms));
    if !check_lengths(&pins) {
        return None;
    }
    let tree = layout::steiner_tree(&pins);
    let res = along_tree(style, &tree, w);
    proof {
        if res is Some && have_widths(ms) {
            lemma_tree_joins_pins(style, ms, tree.nodes@, tree.edges@);
        }
    }
    res
}

/// The shapes of a net with the given ports: of one line for two ports, else by the
/// strategy.
pub open spec fn net_shapes(r: ManhattanRouter, ports: Seq<PortModel>) -> Option<Seq<ShapeModel>> {
    if ports.len() == 2 || r.multi_pin == MultiPinStrategy::Star {
        star_shapes(r.style, ports, ports.len() - 1)
    } else {
        steiner_shapes(r.style, ports)
    }
}

// ── joining pins ───────────────────────────────────────────────────

/// Whether a shape reaches a point: one in the box, or one of the line.
pub open spec fn covers(s: ShapeModel, p: Point) -> bool {
    match s {
        ShapeModel::Box(b) => b.holds(p),
        ShapeModel::Path(points, _) => points.contains(p),
    }
}

/// Whether a set of points holds, with one point of a shape, all of it.
pub open spec fn closed_over(s: Set<Point>, shapes: Seq<ShapeModel>) -> bool {
    forall|i: int, a: Point, b: Point|
        #![trigger covers(shapes[i], a), covers(shapes[i], b)]
        0 <= i < shapes.len() && covers(shapes[i], a) && covers(shapes[i], b) && s.contains(a)
            ==> s.contains(b)
}

/// Whether one can go from a point to another over shapes that touch.
pub open spec fn connects(shapes: Seq<ShapeModel>, p: Point, q: Point) -> bool {
    forall|s: Set<Point>| #[trigger] closed_over(s, shapes) && s.contains(p) ==> s.contains(q)
}

/// Whether shapes connect each of some ports with every other.
pub open spec fn joined(shapes: Seq<ShapeModel>, ports: Seq<PortModel>) -> bool {
    forall|i: int, j: int|
        #![trigger ports[i], ports[j]]
        0 <= i < ports.len() && 0 <= j < ports.len() ==> connects(
            shapes,
            ports[i].center,
            ports[j].center,
        )
}

/// Whether no port has a negative width.
pub open spec fn have_widths(ports: Seq<PortModel>) -> bool {
    forall|i: int| 0 <= i < ports.len() ==> (#[trigger] ports[i]).width >= 0
}

proof fn lemma_closed_parts(s: Set<Point>, a: Seq<ShapeModel>, b: Seq<ShapeModel>)
    requires
        closed_over(s, a + b),
    ensures
        closed_over(s, a),
        closed_over(s, b),
{
    let all = a + b;
    assert forall|i: int, p: Point, q: Point|
        #![trigger covers(a[i], p), covers(a[i], q)]
        0 <= i < a.len() && covers(a[i], p) && covers(a[i], q) && s.contains(p) implies s.contains(
        q,
    ) by {
        assert(all[i] == a[i]);
        assert(covers(all[i], p) && covers(all[i], q));
    }
    assert forall|i: int, p: Point, q: Point|
        #![trigger covers(b[i], p), covers(b[i], q)]
        0 <= i < b.len() && covers(b[i], p) && covers(b[i], q) && s.contains(p) implies s.contains(
        q,
    ) by {
        assert(all[a.len() + i] == b[i]);
        assert(covers(all[a.len() + i], p) && covers(all[a.len() + i], q));
    }
}

proof fn lemma_segment_boxes(points: Seq<Point>, w: i64, n: int, i: int)
    requires
        0 <= i < n,
    ensures
        segment_boxes(points, w, n).len() == n,
        segment_boxes(points, w, n)[i] == ShapeModel::Box(
            segment_box(points[i], points[i + 1], w)->0,
        ),
    decreases n,
{
    reveal_with_fuel(segment_boxes, 2);
    if n > 1 {
        if i < n - 1 {
            lemma_segment_boxes(points, w, n - 1, i);
        } else {
            lemma_segment_boxes(points, w, n - 1, 0);
        }
    }
}

proof fn lemma_line_joins(style: WireStyle, points: Seq<Point>, w: i64, s: Set<Point>, k: int)
    requires
        w >= 0,
        styled(style, points, w) is Some,
        closed_over(s, styled(style, points, w)->0),
        0 <= k < points.len(),
    ensures
        s.contains(points[0]) <==> s.contains(points[k]),
    decreases k,
{
    let shapes = styled(style, points, w)->0;
    match style {
        WireStyle::Path => {
            assert(points.contains(points[0]) && points.contains(points[k]));
            assert(covers(shapes[0], points[0]));
            assert(covers(shapes[0], points[k]));
        },
        WireStyle::Polygon => {
            if k > 0 {
                lemma_line_joins(style, points, w, s, k - 1);
                lemma_segment_boxes(points, w, points.len() - 1, k - 1);
                assert(segment_box(points[k - 1], points[k], w) is Some);
                assert(covers(shapes[k - 1], points[k - 1]));
                assert(covers(shapes[k - 1], points[k]));
            }
        },
    }
}

proof fn lemma_star_joins(style: WireStyle, ports: Seq<PortModel>, n: int, s: Set<Point>, k: int)
    requires
        have_widths(ports),
        0 <= k <= n < ports.len(),
        star_shapes(style, ports, n) is Some,
        closed_over(s, star_shapes(style, ports, n)->0),
    ensures
        s.contains(ports[0].center) <==> s.contains(ports[k].center),
    decreases n,
{
    if k > 0 {
        let line = layout::bent_line(ports[0], ports[n]);
        let w = geom::top(ports[0].width, ports[n].width);
        lemma_closed_parts(s, star_shapes(style, ports, n - 1)->0, styled(style, line, w)->0);
        if k < n {
            lemma_star_joins(style, ports, n - 1, s, k);
        } else {
            assert(ports[0].width >= 0);
            lemma_line_joins(style, line, w, s, line.len() - 1);
        }
    }
}

proof fn lemma_tree_joins(
    style: WireStyle,
    nodes: Seq<Point>,
    edges: Seq<(usize, usize)>,
    w: i64,
    n: int,
    s: Set<Point>,
    k: int,
)
    requires
        w >= 0,
        0 <= k < n <= edges.len(),
        tree_shapes(style, nodes, edges, w, n) is Some,
        closed_over(s, tree_shapes(style, nodes, edges, w, n)->0),
    ensures
        s.contains(nodes[edges[k].0 as int]) <==> s.contains(nodes[edges[k].1 as int]),
    decreases n,
{
    let a = nodes[edges[n - 1].0 as int];
    let b = nodes[edges[n - 1].1 as int];
    if a != b {
        lemma_closed_parts(
            s,
            tree_shapes(style, nodes, edges, w, n - 1)->0,
            styled(style, edge_line(a, b), w)->0,
        );
        if k == n - 1 {
            lemma_line_joins(style, edge_line(a, b), w, s, edge_line(a, b).len() - 1);
        }
    }
    if k < n - 1 {
        lemma_tree_joins(style, nodes, edges, w, n - 1, s, k);
    }
}

proof fn lemma_widest(ports: Seq<PortModel>, n: int)
    requires
        have_widths(ports),
        ports.len() > 0,
        n <= ports.len(),
    ensures
        widest(ports, n) >= 0,
    decreases n,
{
    assert(ports[0].width >= 0);
    if n > 1 {
        lemma_widest(ports, n - 1);
    }
}

proof fn lemma_tree_joins_pins(
    style: WireStyle,
    ports: Seq<PortModel>,
    nodes: Seq<Point>,
    edges: Seq<(usize, usize)>,
)
    requires
        have_widths(ports),
        ports.len() > 0,
        forall|i: int|
            0 <= i < ports.len() ==> nodes.contains(#[trigger] centers(ports)[i]),
        layout::is_connected(nodes.len(), edges),
        tree_shapes(style, nodes, edges, widest(ports, ports.len() as int), edges.len() as int)
            is Some,
    ensures
        joined(
            tree_shapes(
                style,
                nodes,
                edges,
                widest(ports, ports.len() as int),
                edges.len() as int,
            )->0,
            ports,
        ),
{
    let w = widest(ports, ports.len() as int);
    let shapes = tree_shapes(style, nodes, edges, w, edges.len() as int)->0;
    lemma_widest(ports, ports.len() as int);
    assert forall|i: int, j: int|
        #![trigger ports[i], ports[j]]
        0 <= i < ports.len() && 0 <= j < ports.len() implies connects(
        shapes,
        ports[i].center,
        ports[j].center,
    ) by {
        assert forall|s: Set<Point>| #[trigger]
            closed_over(s, shapes) && s.contains(ports[i].center) implies s.contains(
            ports[j].center,
        ) by {
            let t = Set::new(|k: int| s.contains(nodes[k]));
            assert forall|k: int| #![trigger edges[k]] 0 <= k < edges.len() implies (t.contains(
                edges[k].0 as int,
            ) <==> t.contains(edges[k].1 as int)) by {
                lemma_tree_joins(style, nodes, edges, w, edges.len() as int, s, k);
            }
            assert(layout::closed_along(t, edges));
            assert(centers(ports)[i] == ports[i].center);
            assert(centers(ports)[j] == ports[j].center);
            let a = choose|a: int| 0 <= a < nodes.len() && nodes[a] == ports[i].center;
            let b = choose|b: int| 0 <= b < nodes.len() && nodes[b] == ports[j].center;
            assert(t.contains(a));
            assert(t.contains(b));
        }
    }
}

/// A star of wires connects each of its ports with every other.
pub proof fn stars_join_their_ports(style: WireStyle, ports: Seq<PortModel>)
    requires
        have_widths(ports),
        star_shapes(style, ports, ports.len() - 1) is Some,
    ensures
        joined(star_shapes(style, ports, ports.len() - 1)->0, ports),
{
    let shapes = star_shapes(style, ports, ports.len() - 1)->0;
    assert forall|i: int, j: int|
        #![trigger ports[i], ports[j]]
        0 <= i < ports.len() && 0 <= j < ports.len() implies connects(
        shapes,
        ports[i].center,
        ports[j].center,
    ) by {
        assert forall|s: Set<Point>| #[trigger]
            closed_over(s, shapes) && s.contains(ports[i].center) implies s.contains(
            ports[j].center,
        ) by {
            lemma_star_joins(style, ports, ports.len() - 1, s, i);
            lemma_star_joins(style, ports, ports.len() - 1, s, j);
        }
    }
}

/// Whether a wire connects each pin of a net of its name with every other.
pub open spec fn joins_pins(
    w: WireModel,
    nets: Seq<NetModel>,
    moves: Seq<Trans>,
    cells: Seq<CellModel>,
) -> bool {
    exists|i: int|
        0 <= i < nets.len() && w.net == (#[trigger] nets[i]).name && shapes_join(
            w.shapes,
            nets[i],
            moves,
            cells,
        )
}

/// Whether all pins of a net are at ports and, where these have widths, shapes connect
/// each with every other.
pub open spec fn shapes_join(
    shapes: Seq<ShapeModel>,
    net: NetModel,
    moves: Seq<Trans>,
    cells: Seq<CellModel>,
) -> bool {
    match net_fate(net.pins, moves, cells, net.pins.len() as int) {
        NetFate::At(ports) => have_widths(ports) ==> joined(shapes, ports),
        _ => false,
    }
}

// ── nets ───────────────────────────────────────────────────────────

/// The layer of a net's wires, if it has one.
pub open spec fn net_layer(net: NetModel, default_layer: Option<LayerIndex>) -> Option<LayerIndex> {
    match net.layer {
        Some(l) => Some(l),
        None => default_layer,
    }
}

/// The wires so far and those of one more net. A net of fewer than two pins, without a
/// layer, or with a pin on no port has none; none at all where a coordinate would not
/// fit.
pub open spec fn with_net(
    r: ManhattanRouter,
    so_far: Option<Routing>,
    net: NetModel,
    default_layer: Option<LayerIndex>,
    moves: Seq<Trans>,
    cells: Seq<CellModel>,
) -> Option<Routing> {
    match so_far {
        None => None,
        Some(s) => {
            let failed = Some(Routing { wires: s.wires, failed: s.failed.push(net.name) });
            if net.pins.len() < 2 {
                failed
            } else {
                match net_layer(net, default_layer) {
                    None => failed,
                    Some(layer) => match net_fate(
                        net.pins,
                        moves,
                        cells,
                        net.pins.len() as int,
                    ) {
                        NetFate::Failed => failed,
                        NetFate::OffGrid => None,
                        NetFate::At(ports) => match net_shapes(r, ports) {
                            None => None,
                            Some(shapes) => Some(
                                Routing {
                                    wires: s.wires.push(
                                        WireModel { net: net.name, layer, shapes },
                                    ),
                                    failed: s.failed,
                                },
                            ),
                        },
                    },
                }
            }
        },
    }
}

/// The wires of the first `n` nets.
pub open spec fn routed(
    r: ManhattanRouter,
    nets: Seq<NetModel>,
    default_layer: Option<LayerIndex>,
    moves: Seq<Trans>,
    cells: Seq<CellModel>,
    n: int,
) -> Option<Routing>
    decreases n,
{
    if n <= 0 {
        Some(Routing { wires: Seq::empty(), failed: Seq::empty() })
    } else {
        with_net(
            r,
            routed(r, nets, default_layer, moves, cells, n - 1),
            nets[n - 1],
            default_layer,
            moves,
            cells,
        )
    }
}

proof fn lemma_routed_none(
    r: ManhattanRouter,
    nets: Seq<NetModel>,
    default_layer: Option<LayerIndex>,
    moves: Seq<Trans>,
    cells: Seq<CellModel>,
    k: int,
    n: int,
)
    requires
        0 <= k <= n,
        routed(r, nets, default_layer, moves, cells, k) is None,
    ensures
        routed(r, nets, default_layer, moves, cells, n) is None,
    decreases n,
{
    if k < n {
        lemma_routed_none(r, nets, default_layer, moves, cells, k, n - 1);
    }
}

/// What comes of wiring one net.
#[derive(Debug)]
pub enum NetOutcome {
    Failed,
    OffGrid,
    Wired(LayerIndex, Vec<Shape>),
}

impl ManhattanRouter {
    pub open spec fn net_outcome(
        self,
        net: NetModel,
        default_layer: Option<LayerIndex>,
        moves: Seq<Trans>,
        cells: Seq<CellModel>,
        o: NetOutcome,
    ) -> bool {
        forall|s: Routing| #[trigger]
            with_net(self, Some(s), net, default_layer, moves, cells) == (match o {
                NetOutcome::Failed => Some(
                    Routing { wires: s.wires, failed: s.failed.push(net.name) },
                ),
                NetOutcome::OffGrid => None,
                NetOutcome::Wired(layer, shapes) => Some(
                    Routing {
                        wires: s.wires.push(
                            WireModel {
                                net: net.name,
                                layer,
                                shapes: geom::shape_models(shapes@),
                            },
                        ),
                        failed: s.failed,
                    },
                ),
            })
    }

    fn route_net(
        &self,
        net: &Net,
        default_layer: Option<LayerIndex>,
        moves: &Vec<Trans>,
        cells: &Vec<CellView>,
    ) -> (res: NetOutcome)
        requires
            moves@.len() >= cells@.len(),
        ensures
            self.net_outcome(
                net.model(),
                default_layer,
                moves@,
                layout::cell_models(cells@),
                res,
            ),
            res matches NetOutcome::Wired(_, v) ==> shapes_join(
                geom::shape_models(v@),
                net.model(),
                moves@,
                layout::cell_models(cells@),
            ),
    {
        assert(net.model().pins.len() == net.pins@.len());
        if net.pins.len() < 2 {
            return NetOutcome::Failed;
        }
        let layer: LayerIndex = match net.layer {
            Some(l) => l,
            None => match default_layer {
                Some(l) => l,
                None => {
                    return NetOutcome::Failed;
                },
            },
        };
        match resolve_net(net, moves, cells) {
            NetPorts::Failed => NetOutcome::Failed,
            NetPorts::OffGrid => NetOutcome::OffGrid,
            NetPorts::At(ports) => {
                let shapes = if ports.len() == 2 || self.multi_pin == MultiPinStrategy::Star {
                    star(self.style, &ports)
                } else {
                    along_steiner(self.style, &ports)
                };
                assert(geom::port_models(ports@).len() == ports@.len());
                proof {
                    let ms = geom::port_models(ports@);
                    if have_widths(ms) && star_shapes(self.style, ms, ms.len() - 1) is Some {
                        stars_join_their_ports(self.style, ms);
                    }
                }
                match shapes {
                    None => NetOutcome::OffGrid,
                    Some(v) => NetOutcome::Wired(layer, v),
                }
            },
        }
    }
}

impl Router for ManhattanRouter {
    open spec fn routing(
        &self,
        netlist: Netlist,
        moves: Seq<Trans>,
        cells: Seq<CellModel>,
    ) -> Option<Routing> {
        routed(
            *self,
            netlist::net_models(netlist.nets@),
            netlist.default_signal_layer,
            moves,
            cells,
            netlist.nets@.len() as int,
        )
    }

    open spec fn layers(&self, netlist: Netlist) -> Set<LayerIndex> {
        design_layers(netlist)
    }

    fn route(&self, netlist: &Netlist, place: &Placement, cells: &Vec<CellView>) -> (res: Option<
        RoutedDesign,
    >)
        ensures
            res matches Some(r) ==> forall|k: int|
                0 <= k < r.model().wires.len() ==> joins_pins(
                    #[trigger] r.model().wires[k],
                    netlist::net_models(netlist.nets@),
                    place.transforms@,
                    layout::cell_models(cells@),
                ),
    {
        let ghost nets = netlist::net_models(netlist.nets@);
        let ghost ms = layout::cell_models(cells@);
        let mut out = RoutedDesign { wires: Vec::new(), failed_nets: Vec::new() };
        assert(out.model() =~= (Routing { wires: Seq::empty(), failed: Seq::empty() }));
        let mut i: usize = 0;
        while i < netlist.nets.len()
            invariant
                i <= netlist.nets@.len(),
                place.transforms@.len() >= cells@.len(),
                nets == netlist::net_models(netlist.nets@),
                ms == layout::cell_models(cells@),
                routed(
                    *self,
                    nets,
                    netlist.default_signal_layer,
                    place.transforms@,
                    ms,
                    i as int,
                ) == Some(out.model()),
                forall|k: int|
                    0 <= k < out.model().wires.len() ==> joins_pins(
                        #[trigger] out.model().wires[k],
                        nets,
                        place.transforms@,
                        ms,
                    ),
            decreases netlist.nets@.len() - i,
        {
            let net: &Net = &netlist.nets[i];
            assert(nets[i as int] == net.model());
            let ghost before = out.model();
            match self.route_net(net, netlist.default_signal_layer, &place.transforms, cells) {
                NetOutcome::OffGrid => {
                    proof {
                        lemma_routed_none(
                            *self,
                            nets,
                            netlist.default_signal_layer,
                            place.transforms@,
                            ms,
                            i + 1,
                            netlist.nets@.len() as int,
                        );
                    }
                    return None;
                },
                NetOutcome::Failed => {
                    out.failed_nets.push(net.name.clone());
                    assert(out.model() =~= (Routing {
                        wires: before.wires,
                        failed: before.failed.push(net.name@),
                    }));
                },
                NetOutcome::Wired(layer, shapes) => {
                    let w = Wire { net: net.name.clone(), layer, shapes };
                    out.wires.push(w);
                    assert(out.model() =~= (Routing {
                        wires: before.wires.push(w.model()),
                        failed: before.failed,
                    }));
                    assert(joins_pins(w.model(), nets, place.transforms@, ms));
                },
            }
            i = i + 1;
        }
        proof {
            lemma_routed_layers(
                *self,
                *netlist,
                place.transforms@,
                ms,
                netlist.nets@.len() as int,
            );
        }
        Some(out)
    }
}

proof fn lemma_routed_layers(
    r: ManhattanRouter,
    nl: Netlist,
    moves: Seq<Trans>,
    cells: Seq<CellModel>,
    n: int,
)
    requires
        0 <= n <= nl.nets@.len(),
        routed(
            r,
            netlist::net_models(nl.nets@),
            nl.default_signal_layer,
            moves,
            cells,
            n,
        ) is Some,
    ensures
        on_layers(
            routed(
                r,
                netlist::net_models(nl.nets@),
                nl.default_signal_layer,
                moves,
                cells,
                n,
            )->0.wires,
            design_layers(nl),
        ),
    decreases n,
{
    if n > 0 {
        lemma_routed_layers(r, nl, moves, cells, n - 1);
        let nets = netlist::net_models(nl.nets@);
        assert(nets[n - 1] == nl.nets@[n - 1].model());
        let before = routed(r, nets, nl.default_signal_layer, moves, cells, n - 1)->0;
        let after = routed(r, nets, nl.default_signal_layer, moves, cells, n)->0;
        assert forall|i: int| 0 <= i < after.wires.len() implies design_layers(nl).contains(
            (#[trigger] after.wires[i]).layer,
        ) by {
            if i < before.wires.len() {
                assert(after.wires[i] == before.wires[i]);
            } else {
                let l = after.wires[i].layer;
                assert(net_layer(nets[n - 1], nl.default_signal_layer) == Some(l));
                assert(nl.nets@[n - 1].layer == Some(l) || nl.default_signal_layer == Some(l));
            }
        }
    }
}

// ── laws ───────────────────────────────────────────────────────────

/// Every net is either wired or listed as failed, and none is both: there are as many
/// wires and failures as nets.
pub proof fn every_net_is_wired_or_failed(
    r: ManhattanRouter,
    nets: Seq<NetModel>,
    default_layer: Option<LayerIndex>,
    moves: Seq<Trans>,
    cells: Seq<CellModel>,
    n: int,
)
    requires
        0 <= n <= nets.len(),
        routed(r, nets, default_layer, moves, cells, n) is Some,
    ensures
        ({
            let s = routed(r, nets, default_layer, moves, cells, n)->0;
            &&& s.wires.len() + s.failed.len() == n
            &&& forall|i: int|
                0 <= i < n ==> (s.failed.contains((#[trigger] nets[i]).name) || exists|k: int|
                    0 <= k < s.wires.len() && (#[trigger] s.wires[k]).net == nets[i].name)
        }),
    decreases n,
{
    if n > 0 {
        every_net_is_wired_or_failed(r, nets, default_layer, moves, cells, n - 1);
        let before = routed(r, nets, default_layer, moves, cells, n - 1)->0;
        let s = routed(r, nets, default_layer, moves, cells, n)->0;
        assert forall|i: int| 0 <= i < n implies (s.failed.contains((#[trigger] nets[i]).name)
            || exists|k: int|
            0 <= k < s.wires.len() && (#[trigger] s.wires[k]).net == nets[i].name) by {
            if i < n - 1 {
                if before.failed.contains(nets[i].name) {
                    let k = choose|k: int|
                        0 <= k < before.failed.len() && before.failed[k] == nets[i].name;
                    assert(s.failed[k] == nets[i].name);
                } else {
                    let k = choose|k: int|
                        0 <= k < before.wires.len() && (#[trigger] before.wires[k]).net
                            == nets[i].name;
                    assert(s.wires[k].net == nets[i].name);
                }
            } else if s.failed.len() > before.failed.len() {
                assert(s.failed.last() == nets[i].name);
            } else {
                assert(s.wires.last().net == nets[i].name);
            }
        }
    }
}

/// A line as boxes touches itself: the end of each straight piece is in its box and in
/// the next one.
pub proof fn boxes_of_a_line_join(points: Seq<Point>, w: i64, i: int)
    requires
        w >= 0,
        boxes_fit(points, w, points.len() - 1),
        0 <= i < points.len() - 2,
    ensures
        segment_box(points[i], points[i + 1], w)->0.holds(points[i + 1]),
        segment_box(points[i + 1], points[i + 2], w)->0.holds(points[i + 1]),
{
    assert(segment_box(points[i], points[i + 1], w) is Some);
    assert(segment_box(points[i + 1], points[i + 2], w) is Some);
}

/// A planned line runs from port to port, and every piece of it is straight.
pub proof fn planned_lines_are_right_angled(src: PortModel, dst: PortModel, i: int)
    requires
        0 <= i < layout::bent_line(src, dst).len() - 1,
    ensures
        layout::bent_line(src, dst)[0] == src.center,
        layout::bent_line(src, dst).last() == dst.center,
        ({
            let a = layout::bent_line(src, dst)[i];
            let b = layout::bent_line(src, dst)[i + 1];
            a.x == b.x || a.y == b.y
        }),
{
}

/// The port found under a name is the first of those that have it; none is found exactly
/// where none has it.
pub proof fn ports_are_found_by_name(s: Seq<PortModel>, name: Seq<char>)
    ensures
        match port_named(s, name) {
            None => forall|i: int| 0 <= i < s.len() ==> (#[trigger] s[i]).name != name,
            Some(p) => exists|i: int|
                0 <= i < s.len() && #[trigger] s[i] == p && p.name == name && (forall|j: int|
                    0 <= j < i ==> (#[trigger] s[j]).name != name),
        },
    decreases s.len(),
{
    if s.len() > 0 {
        if s[0].name == name {
            assert(s[0] == s[0]);
        } else {
            let rest = s.skip(1);
            ports_are_found_by_name(rest, name);
            match port_named(rest, name) {
                None => {
                    assert forall|i: int| 0 <= i < s.len() implies (#[trigger] s[i]).name != name by {
                        if i > 0 {
                            assert(rest[i - 1] == s[i]);
                        }
                    }
                },
                Some(p) => {
                    let i = choose|i: int|
                        0 <= i < rest.len() && #[trigger] rest[i] == p && p.name == name && (forall|
                            j: int,
                        |
                            0 <= j < i ==> (#[trigger] rest[j]).name != name);
                    assert(s[i + 1] == p);
                    assert forall|j: int| 0 <= j < i + 1 implies (#[trigger] s[j]).name != name by {
                        if j > 0 {
                            assert(rest[j - 1] == s[j]);
                        }
                    }
                },
            }
        }
    }
}

/// Whether the cell of a pin has a port of the pin's name.
pub open spec fn has_port(pin: PinModel, cells: Seq<CellModel>) -> bool {
    pin.instance < cells.len() && exists|i: int|
        0 <= i < cells[pin.instance as int].ports.len() && (
        #[trigger] cells[pin.instance as int].ports[i]).name == pin.port
}

/// Whether a port is that of a pin, moved as the pin's cell is: the first of its name in
/// that cell.
pub open spec fn is_port_of(
    p: PortModel,
    pin: PinModel,
    moves: Seq<Trans>,
    cells: Seq<CellModel>,
) -> bool {
    let ports = cells[pin.instance as int].ports;
    pin.instance < cells.len() && exists|i: int|
        #![trigger ports[i]]
        0 <= i < ports.len() && ports[i].name == pin.port && ports[i].moved(
            moves[pin.instance as int],
        ) == Some(p) && (forall|j: int| 0 <= j < i ==> (#[trigger] ports[j]).name != pin.port)
}

/// The ports of a net are those of its pins, one for each and in the same order, where
/// every pin has one. A net fails only for a pin that has none.
pub proof fn nets_end_at_their_pins(
    pins: Seq<PinModel>,
    moves: Seq<Trans>,
    cells: Seq<CellModel>,
    n: int,
)
    requires
        0 <= n <= pins.len(),
    ensures
        match net_fate(pins, moves, cells, n) {
            NetFate::At(ports) => ports.len() == n && forall|k: int|
                #![trigger ports[k]]
                0 <= k < n ==> is_port_of(ports[k], pins[k], moves, cells),
            NetFate::Failed => exists|k: int| 0 <= k < n && !has_port(#[trigger] pins[k], cells),
            NetFate::OffGrid => true,
        },
    decreases n,
{
    if n > 0 {
        nets_end_at_their_pins(pins, moves, cells, n - 1);
        let pin = pins[n - 1];
        if pin.instance < cells.len() {
            let all = cells[pin.instance as int].ports;
            ports_are_found_by_name(all, pin.port);
        }
        match net_fate(pins, moves, cells, n - 1) {
            NetFate::At(before) => match pin_fate(pin, moves, cells) {
                PinFate::Missing => {
                    assert(net_fate(pins, moves, cells, n) is Failed);
                    assert(!has_port(pins[n - 1], cells));
                },
                PinFate::OffGrid => {},
                PinFate::At(q) => {
                    let all = cells[pin.instance as int].ports;
                    let p = port_named(all, pin.port)->0;
                    let i = choose|i: int|
                        0 <= i < all.len() && #[trigger] all[i] == p && p.name == pin.port && (
                        forall|j: int| 0 <= j < i ==> (#[trigger] all[j]).name != pin.port);
                    assert(cells[pin.instance as int].ports[i].name == pin.port);
                    assert(is_port_of(q, pin, moves, cells));
                    let ports = before.push(q);
                    assert(net_fate(pins, moves, cells, n) == NetFate::At(ports));
                    assert forall|k: int|
                        #![trigger ports[k]]
                        0 <= k < n implies is_port_of(ports[k], pins[k], moves, cells) by {
                        if k < n - 1 {
                            assert(ports[k] == before[k]);
                        }
                    }
                },
            },
            NetFate::Failed => {
                let k = choose|k: int| 0 <= k < n - 1 && !has_port(#[trigger] pins[k], cells);
                assert(!has_port(pins[k], cells));
            },
            NetFate::OffGrid => {},
        }
    }
}

/// Whether a net can be wired: it has at least two pins, it or the design names a layer,
/// and every pin is on a port.
pub open spec fn can_be_wired(
    net: NetModel,
    default_layer: Option<LayerIndex>,
    cells: Seq<CellModel>,
) -> bool {
    &&& net.pins.len() >= 2
    &&& net.layer is Some || default_layer is Some
    &&& forall|k: int| 0 <= k < net.pins.len() ==> has_port(#[trigger] net.pins[k], cells)
}

/// Whether wires and failures are those of nets: `wired` lists the nets that can be wired
/// and `failed` the others, both in order. A wire has the name of its net and is on the
/// layer that the net names; only the wire of a net that names none is on that of the
/// design.
pub open spec fn accounts_for(
    s: Routing,
    wired: Seq<int>,
    failed: Seq<int>,
    nets: Seq<NetModel>,
    default_layer: Option<LayerIndex>,
    cells: Seq<CellModel>,
    n: int,
) -> bool {
    &&& wired.len() == s.wires.len()
    &&& failed.len() == s.failed.len()
    &&& wired.len() + failed.len() == n
    &&& forall|k: int|
        #![trigger wired[k]]
        0 <= k < wired.len() ==> 0 <= wired[k] < n && {
            let net = nets[wired[k]];
            &&& can_be_wired(net, default_layer, cells)
            &&& s.wires[k].net == net.name
            &&& net.layer is Some ==> net.layer == Some(s.wires[k].layer)
            &&& net.layer is None ==> default_layer == Some(s.wires[k].layer)
        }
    &&& forall|k: int|
        #![trigger failed[k]]
        0 <= k < failed.len() ==> 0 <= failed[k] < n && {
            let net = nets[failed[k]];
            !can_be_wired(net, default_layer, cells) && s.failed[k] == net.name
        }
    &&& forall|j: int, k: int|
        0 <= j < k < wired.len() ==> (#[trigger] wired[j]) < (#[trigger] wired[k])
    &&& forall|j: int, k: int|
        0 <= j < k < failed.len() ==> (#[trigger] failed[j]) < (#[trigger] failed[k])
}

/// The nets that can be wired have one wire each, under their names and on their own
/// layers, or on that of the design where they name none; all others are listed as failed.
pub proof fn wires_are_on_the_layers_of_their_nets(
    r: ManhattanRouter,
    nets: Seq<NetModel>,
    default_layer: Option<LayerIndex>,
    moves: Seq<Trans>,
    cells: Seq<CellModel>,
    n: int,
) -> (res: (Seq<int>, Seq<int>))
    requires
        0 <= n <= nets.len(),
        routed(r, nets, default_layer, moves, cells, n) is Some,
    ensures
        accounts_for(
            routed(r, nets, default_layer, moves, cells, n)->0,
            res.0,
            res.1,
            nets,
            default_layer,
            cells,
            n,
        ),
    decreases n,
{
    if n == 0 {
        (Seq::empty(), Seq::empty())
    } else {
        let (wired, failed) = wires_are_on_the_layers_of_their_nets(
            r,
            nets,
            default_layer,
            moves,
            cells,
            n - 1,
        );
        let before = routed(r, nets, default_layer, moves, cells, n - 1)->0;
        let s = routed(r, nets, default_layer, moves, cells, n)->0;
        let net = nets[n - 1];
        nets_end_at_their_pins(net.pins, moves, cells, net.pins.len() as int);
        if s.wires.len() > before.wires.len() {
            let ports = net_fate(net.pins, moves, cells, net.pins.len() as int)->At_0;
            assert forall|k: int| 0 <= k < net.pins.len() implies has_port(
                #[trigger] net.pins[k],
                cells,
            ) by {
                let all = cells[net.pins[k].instance as int].ports;
                assert(is_port_of(ports[k], net.pins[k], moves, cells));
                let i = choose|i: int|
                    #![trigger all[i]]
                    0 <= i < all.len() && all[i].name == net.pins[k].port && all[i].moved(
                        moves[net.pins[k].instance as int],
                    ) == Some(ports[k]) && (forall|j: int|
                        0 <= j < i ==> (#[trigger] all[j]).name != net.pins[k].port);
                assert(cells[net.pins[k].instance as int].ports[i].name == net.pins[k].port);
            }
            assert(s.wires.last().net == net.name);
            assert(s.wires.drop_last() =~= before.wires);
            (wired.push(n - 1), failed)
        } else {
            assert(!can_be_wired(net, default_layer, cells));
            (wired, failed.push(n - 1))
        }
    }
}

/// What a router makes of a design: each wire is one of a net that can be wired, has its
/// name and is on its layer, or on the default layer of the design where the net names
/// none. The wires are as many as the nets that can be wired.
pub proof fn routers_keep_to_the_layers_of_nets(
    r: ManhattanRouter,
    nl: Netlist,
    moves: Seq<Trans>,
    cells: Seq<CellModel>,
) -> (res: (Seq<int>, Seq<int>))
    requires
        r.routing(nl, moves, cells) is Some,
    ensures
        accounts_for(
            r.routing(nl, moves, cells)->0,
            res.0,
            res.1,
            netlist::net_models(nl.nets@),
            nl.default_signal_layer,
            cells,
            nl.nets@.len() as int,
        ),
{
    wires_are_on_the_layers_of_their_nets(
        r,
        netlist::net_models(nl.nets@),
        nl.default_signal_layer,
        moves,
        cells,
        nl.nets@.len() as int,
    )
}

/// Whether a line runs from one point to another in straight pieces, with one bend at most.
pub open spec fn is_line(points: Seq<Point>, from: Point, to: Point) -> bool {
    &&& 2 <= points.len() <= 3
    &&& points[0] == from
    &&& points[points.len() - 1] == to
    &&& points[0].x == points[1].x || points[0].y == points[1].y
    &&& points.len() == 3 ==> points[1].x == points[2].x || points[1].y == points[2].y
}

/// Drawn as paths, a star has one line from the first port to each of the others, as wide
/// as the wider of the two.
pub proof fn stars_are_lines_from_the_first_port(ports: Seq<PortModel>, n: int)
    requires
        0 <= n < ports.len(),
    ensures
        star_shapes(WireStyle::Path, ports, n) is Some,
        star_shapes(WireStyle::Path, ports, n)->0.len() == n,
        forall|k: int|
            #![trigger star_shapes(WireStyle::Path, ports, n)->0[k]]
            0 <= k < n ==> {
                let shape = star_shapes(WireStyle::Path, ports, n)->0[k];
                let w = shape->Path_1;
                &&& shape is Path
                &&& is_line(shape->Path_0, ports[0].center, ports[k + 1].center)
                &&& w >= ports[0].width && w >= ports[k + 1].width
                &&& w == ports[0].width || w == ports[k + 1].width
            },
    decreases n,
{
    if n > 0 {
        stars_are_lines_from_the_first_port(ports, n - 1);
        let before = star_shapes(WireStyle::Path, ports, n - 1)->0;
        let now = star_shapes(WireStyle::Path, ports, n)->0;
        assert forall|k: int| #![trigger now[k]] 0 <= k < n implies ({
            let shape = now[k];
            let w = shape->Path_1;
            &&& shape is Path
            &&& is_line(shape->Path_0, ports[0].center, ports[k + 1].center)
            &&& w >= ports[0].width && w >= ports[k + 1].width
            &&& w == ports[0].width || w == ports[k + 1].width
        }) by {
            if k < n - 1 {
                assert(now[k] == before[k]);
            }
        }
    }
}

/// Drawn as boxes, a line has one for each straight piece. It reaches from end to end of
/// the piece and half the width, rounded towards zero, beyond it on every side.
pub proof fn boxes_cover_pieces(points: Seq<Point>, w: i64)
    requires
        points.len() > 0,
        w >= 0,
        polygon_shapes(points, w) is Some,
    ensures
        polygon_shapes(points, w)->0.len() == points.len() - 1,
        forall|k: int|
            #![trigger polygon_shapes(points, w)->0[k]]
            0 <= k < points.len() - 1 ==> {
                let shape = polygon_shapes(points, w)->0[k];
                let b = shape->Box_0;
                let (p, q) = (points[k], points[k + 1]);
                &&& shape is Box
                &&& p.x <= q.x ==> b.min.x == p.x - w / 2 && b.max.x == q.x + w / 2
                &&& q.x <= p.x ==> b.min.x == q.x - w / 2 && b.max.x == p.x + w / 2
                &&& p.y <= q.y ==> b.min.y == p.y - w / 2 && b.max.y == q.y + w / 2
                &&& q.y <= p.y ==> b.min.y == q.y - w / 2 && b.max.y == p.y + w / 2
            },
{
    lemma_all_boxes(points, w, points.len() - 1);
    let shapes = polygon_shapes(points, w)->0;
    assert forall|k: int| #![trigger shapes[k]] 0 <= k < points.len() - 1 implies ({
        let b = shapes[k]->Box_0;
        let (p, q) = (points[k], points[k + 1]);
        &&& shapes[k] is Box
        &&& p.x <= q.x ==> b.min.x == p.x - w / 2 && b.max.x == q.x + w / 2
        &&& q.x <= p.x ==> b.min.x == q.x - w / 2 && b.max.x == p.x + w / 2
        &&& p.y <= q.y ==> b.min.y == p.y - w / 2 && b.max.y == q.y + w / 2
        &&& q.y <= p.y ==> b.min.y == q.y - w / 2 && b.max.y == p.y + w / 2
    }) by {
        assert(segment_box(points[k], points[k + 1], w) is Some);
    }
}

proof fn lemma_all_boxes(points: Seq<Point>, w: i64, n: int)
    requires
        0 <= n < points.len(),
    ensures
        segment_boxes(points, w, n).len() == n,
        forall|k: int|
            0 <= k < n ==> #[trigger] segment_boxes(points, w, n)[k] == ShapeModel::Box(
                segment_box(points[k], points[k + 1], w)->0,
            ),
    decreases n,
{
    if n > 0 {
        lemma_all_boxes(points, w, n - 1);
    }
}

/// The widest of some ports is one of them, and none is wider.
pub proof fn widest_is_widest(ports: Seq<PortModel>, n: int)
    requires
        1 <= n <= ports.len(),
    ensures
        forall|i: int| 0 <= i < n ==> (#[trigger] ports[i]).width <= widest(ports, n),
        exists|i: int| 0 <= i < n && (#[trigger] ports[i]).width == widest(ports, n),
    decreases n,
{
    if n > 1 {
        widest_is_widest(ports, n - 1);
        let i = choose|i: int|
            0 <= i < n - 1 && (#[trigger] ports[i]).width == widest(ports, n - 1);
        if widest(ports, n) == widest(ports, n - 1) {
            assert(ports[i].width == widest(ports, n));
        } else {
            assert(ports[n - 1].width == widest(ports, n));
        }
    } else {
        assert(ports[0].width == widest(ports, n));
    }
}

/// The line along an edge of a tree is straight where it can be. Else it bends once: it
/// leaves one point sideways and comes to the other from above or below.
pub proof fn edges_leave_sideways(a: Point, b: Point)
    ensures
        is_line(edge_line(a, b), a, b),
        edge_line(a, b).len() == 2 <==> a.x == b.x || a.y == b.y,
        edge_line(a, b).len() == 3 ==> edge_line(a, b)[1].y == a.y && edge_line(a, b)[1].x == b.x,
{
}

proof fn lemma_tree_step(nodes: Seq<Point>, edges: Seq<(usize, usize)>, w: i64, n: int)
    requires
        0 < n <= edges.len(),
        tree_shapes(WireStyle::Path, nodes, edges, w, n - 1) is Some,
    ensures
        ({
            let a = nodes[edges[n - 1].0 as int];
            let b = nodes[edges[n - 1].1 as int];
            let before = tree_shapes(WireStyle::Path, nodes, edges, w, n - 1)->0;
            tree_shapes(WireStyle::Path, nodes, edges, w, n) == Some(
                if a == b {
                    before
                } else {
                    before.push(ShapeModel::Path(edge_line(a, b), w))
                },
            )
        }),
{
}

/// Drawn as paths, a tree has one line of the given width for each edge between different
/// points, from one to the other and in the order of the edges.
#[verifier::spinoff_prover]
pub proof fn trees_are_lines_along_edges(
    nodes: Seq<Point>,
    edges: Seq<(usize, usize)>,
    w: i64,
    n: int,
) -> (of: Seq<int>)
    requires
        0 <= n <= edges.len(),
    ensures
        tree_shapes(WireStyle::Path, nodes, edges, w, n) is Some,
        tree_shapes(WireStyle::Path, nodes, edges, w, n)->0.len() == of.len(),
        forall|j: int, k: int| 0 <= j < k < of.len() ==> (#[trigger] of[j]) < (#[trigger] of[k]),
        forall|i: int|
            #![trigger edges[i]]
            0 <= i < n && nodes[edges[i].0 as int] != nodes[edges[i].1 as int] ==> of.contains(i),
        forall|k: int|
            #![trigger of[k]]
            0 <= k < of.len() ==> 0 <= of[k] < n && {
                let shape = tree_shapes(WireStyle::Path, nodes, edges, w, n)->0[k];
                let a = nodes[edges[of[k]].0 as int];
                let b = nodes[edges[of[k]].1 as int];
                a != b && shape is Path && shape->Path_1 == w && is_line(shape->Path_0, a, b)
            },
    decreases n,
{
    if n == 0 {
        Seq::empty()
    } else {
        let less = trees_are_lines_along_edges(nodes, edges, w, n - 1);
        let a = nodes[edges[n - 1].0 as int];
        let b = nodes[edges[n - 1].1 as int];
        let before = tree_shapes(WireStyle::Path, nodes, edges, w, n - 1)->0;
        let now = tree_shapes(WireStyle::Path, nodes, edges, w, n)->0;
        lemma_tree_step(nodes, edges, w, n);
        if a == b {
            less
        } else {
            let of = less.push(n - 1);
            assert forall|i: int|
                #![trigger edges[i]]
                0 <= i < n && nodes[edges[i].0 as int] != nodes[edges[i].1 as int] implies of.contains(
            i) by {
                if i < n - 1 {
                    let k = choose|k: int| 0 <= k < less.len() && less[k] == i;
                    assert(of[k] == i);
                } else {
                    assert(of[of.len() - 1] == i);
                }
            }
            edges_leave_sideways(a, b);
            assert forall|k: int| #![trigger of[k]] 0 <= k < of.len() implies 0 <= of[k] < n && ({
                let shape = now[k];
                let p = nodes[edges[of[k]].0 as int];
                let q = nodes[edges[of[k]].1 as int];
                p != q && shape is Path && shape->Path_1 == w && is_line(shape->Path_0, p, q)
            }) by {
                if k < less.len() {
                    assert(of[k] == less[k]);
                    assert(now[k] == before[k]);
                } else {
                    assert(now[k] == ShapeModel::Path(edge_line(a, b), w));
                }
            }
            of
        }
    }
}

/// How the pins of a net are joined: by lines from the first one where there are two, or where
/// that is the strategy; else along the tree over their centres, with lines as wide as the
/// widest port. With two pins both strategies come to the same.
pub proof fn strategies_part_beyond_two_pins(style: WireStyle, ports: Seq<PortModel>)
    requires
        ports.len() >= 2,
    ensures
        ({
            let by_star = net_shapes(
                (ManhattanRouter { style, multi_pin: MultiPinStrategy::Star }),
                ports,
            );
            let by_tree = net_shapes(
                (ManhattanRouter { style, multi_pin: MultiPinStrategy::Steiner }),
                ports,
            );
            let middles = ports.map_values(|p: PortModel| p.center);
            let (nodes, edges) = layout::steiner(middles);
            &&& by_star == star_shapes(style, ports, ports.len() - 1)
            &&& ports.len() == 2 ==> by_tree == by_star
            &&& ports.len() > 2 && layout::lengths_fit(middles) ==> exists|w: i64|
                by_tree == #[trigger] tree_shapes(style, nodes, edges, w, edges.len() as int) && (
                forall|i: int| 0 <= i < ports.len() ==> (#[trigger] ports[i]).width <= w) && (
                exists|i: int| 0 <= i < ports.len() && (#[trigger] ports[i]).width == w)
            &&& ports.len() > 2 && !layout::lengths_fit(middles) ==> by_tree is None
        }),
{
    let n = ports.len() as int;
    widest_is_widest(ports, n);
    let middles = ports.map_values(|p: PortModel| p.center);
    assert(middles == centers(ports));
    let (nodes, edges) = layout::steiner(middles);
    let w = widest(ports, n);
    assert(tree_shapes(style, nodes, edges, w, edges.len() as int) == tree_shapes(
        style,
        nodes,
        edges,
        w,
        edges.len() as int,
    ));
}

} // verus!
