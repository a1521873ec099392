//! From a design to a cell: place its cells, wire its nets, and put both together.

use crate::geom;
use crate::geom::{Port, PortModel, ShapeModel, Trans};
use crate::layout;
use crate::layout::{CellModel, CellView};
use crate::netlist;
use crate::netlist::{ExternalPin, NetInstance, NetModel, Netlist};
use crate::place::{ManualPlacer, Placement, Placer};
use crate::route;
use crate::route::{ManhattanRouter, MultiPinStrategy, RoutedDesign, Router, Routing, Wire, WireModel, WireStyle};
use klayout_core::{CellBuilder, CellId, LayerIndex, Library};
use vstd::prelude::*;
use vstd::string::*;

verus! {

// ── what the new cell holds ────────────────────────────────────────

/// The cells of a design with their moves, the first `n` of them.
pub open spec fn placed_cells(instances: Seq<NetInstance>, moves: Seq<Trans>, n: int) -> Seq<
    (CellId, Trans),
> {
    Seq::new(n as nat, |i: int| (instances[i].cell, moves[i]))
}

/// The shapes on every layer with the first `n` of some shapes on one layer.
pub open spec fn with_shapes(
    m: Map<LayerIndex, Seq<ShapeModel>>,
    layer: LayerIndex,
    shapes: Seq<ShapeModel>,
    n: int,
) -> Map<LayerIndex, Seq<ShapeModel>>
    decreases n,
{
    if n <= 0 {
        m
    } else {
        layout::with_shape(with_shapes(m, layer, shapes, n - 1), layer, shapes[n - 1])
    }
}

/// The shapes of the first `n` wires, on every layer.
pub open spec fn wire_shapes(wires: Seq<WireModel>, n: int) -> Map<LayerIndex, Seq<ShapeModel>>
    decreases n,
{
    if n <= 0 {
        layout::no_shapes()
    } else {
        with_shapes(
            wire_shapes(wires, n - 1),
            wires[n - 1].layer,
            wires[n - 1].shapes,
            wires[n - 1].shapes.len() as int,
        )
    }
}

/// What becomes of an outer pin: its net, the first pin of that net or the port of
/// that pin may be missing, the port may not fit, or it becomes a port under its own
/// name.
pub open spec fn outer_pin(
    ext: ExternalPin,
    nets: Seq<NetModel>,
    moves: Seq<Trans>,
    cells: Seq<CellModel>,
) -> route::PinFate {
    let i = netlist::net_index(nets, ext.net@);
    if i >= nets.len() || nets[i].pins.len() == 0 {
        route::PinFate::Missing
    } else {
        match route::pin_fate(nets[i].pins[0], moves, cells) {
            route::PinFate::At(p) => route::PinFate::At(PortModel { name: ext.name@, ..p }),
            other => other,
        }
    }
}

/// The ports of a design, from its first `n` outer pins; none where one does not fit.
pub open spec fn outer_ports(
    pins: Seq<ExternalPin>,
    nets: Seq<NetModel>,
    moves: Seq<Trans>,
    cells: Seq<CellModel>,
    n: int,
) -> Option<Seq<PortModel>>
    decreases n,
{
    if n <= 0 {
        Some(Seq::empty())
    } else {
        match outer_ports(pins, nets, moves, cells, n - 1) {
            None => None,
            Some(s) => match outer_pin(pins[n - 1], nets, moves, cells) {
                route::PinFate::Missing => Some(s),
                route::PinFate::OffGrid => None,
                route::PinFate::At(p) => Some(s.push(p)),
            },
        }
    }
}

proof fn lemma_outer_none(
    pins: Seq<ExternalPin>,
    nets: Seq<NetModel>,
    moves: Seq<Trans>,
    cells: Seq<CellModel>,
    k: int,
    n: int,
)
    requires
        0 <= k <= n,
        outer_ports(pins, nets, moves, cells, k) is None,
    ensures
        outer_ports(pins, nets, moves, cells, n) is None,
    decreases n,
{
    if k < n {
        lemma_outer_none(pins, nets, moves, cells, k, n - 1);
    }
}

/// Whether a cell is what a design, placed and wired, comes to.
pub open spec fn is_top_of(
    b: CellBuilder,
    netlist: Netlist,
    moves: Seq<Trans>,
    wires: Seq<WireModel>,
    cells: Seq<CellModel>,
) -> bool {
    &&& layout::builder_name(b) == netlist.name@
    &&& layout::builder_instances(b) == placed_cells(
        netlist.instances@,
        moves,
        netlist.instances@.len() as int,
    )
    &&& layout::builder_shapes(b) == wire_shapes(wires, wires.len() as int)
    &&& outer_ports(
        netlist.external_pins@,
        netlist::net_models(netlist.nets@),
        moves,
        cells,
        netlist.external_pins@.len() as int,
    ) == Some(layout::builder_ports(b))
}

/// Whether all that is new in a library is the cell of a design with its cells moved and
/// wired.
pub open spec fn adds_top(
    netlist: Netlist,
    moves: Seq<Trans>,
    wires: Seq<WireModel>,
    before: Library,
    after: Library,
    id: CellId,
) -> bool {
    exists|b: CellBuilder|
        is_top_of(b, netlist, moves, wires, cells_of(before, netlist))
            && #[trigger] layout::inserted(before, after, id, b)
}

// ── what a library must know ───────────────────────────────────────

/// Whether a library knows the cells of a design and some layers.
pub open spec fn knows(lib: Library, netlist: Netlist, layers: Set<LayerIndex>) -> bool {
    &&& forall|i: int|
        0 <= i < netlist.instances@.len() ==> layout::library_cells(lib).contains_key(
            (#[trigger] netlist.instances@[i]).cell,
        )
    &&& forall|l: LayerIndex| #[trigger]
        layers.contains(l) ==> layout::library_layers(lib).contains(l)
}

/// Says whether a library knows the cells of a design.
pub fn check_cells(lib: &Library, netlist: &Netlist) -> (res: bool)
    ensures
        res == knows(*lib, *netlist, Set::empty()),
{
    let mut i: usize = 0;
    while i < netlist.instances.len()
        invariant
            i <= netlist.instances@.len(),
            forall|k: int|
                0 <= k < i ==> layout::library_cells(*lib).contains_key(
                    (#[trigger] netlist.instances@[k]).cell,
                ),
        decreases netlist.instances@.len() - i,
    {
        if !layout::has_cell(lib, netlist.instances[i].cell) {
            return false;
        }
        i = i + 1;
    }
    true
}

/// What a library holds of the cells of a design.
pub open spec fn cells_of(lib: Library, netlist: Netlist) -> Seq<CellModel> {
    Seq::new(
        netlist.instances@.len(),
        |i: int| layout::library_cells(lib)[netlist.instances@[i].cell],
    )
}

/// Whether a library knows the layer of every port of some cells.
pub open spec fn knows_ports(lib: Library, cells: Seq<CellModel>) -> bool {
    forall|i: int, j: int|
        0 <= i < cells.len() && 0 <= j < cells[i].ports.len() ==> layout::library_layers(
            lib,
        ).contains((#[trigger] cells[i].ports[j]).layer)
}

/// Reads what a library holds of the cells of a design.
pub fn read_cells(lib: &Library, netlist: &Netlist) -> (res: Vec<CellView>)
    requires
        knows(*lib, *netlist, Set::empty()),
    ensures
        layout::cell_models(res@) == cells_of(*lib, *netlist),
        res@.len() == netlist.instances@.len(),
        knows_ports(*lib, layout::cell_models(res@)),
{
    let mut out: Vec<CellView> = Vec::new();
    let mut i: usize = 0;
    while i < netlist.instances.len()
        invariant
            i <= netlist.instances@.len(),
            knows(*lib, *netlist, Set::empty()),
            out@.len() == i,
            layout::cell_models(out@) =~= cells_of(*lib, *netlist).take(i as int),
            knows_ports(*lib, layout::cell_models(out@)),
        decreases netlist.instances@.len() - i,
    {
        let cell: CellId = netlist.instances[i].cell;
        assert(layout::library_cells(*lib).contains_key(netlist.instances@[i as int].cell));
        let view = layout::read_cell(lib, cell);
        let ghost before = out@;
        out.push(view);
        let ghost ms = layout::cell_models(out@);
        assert(ms =~= layout::cell_models(before).push(view.model()));
        assert forall|k: int, j: int|
            0 <= k < ms.len() && 0 <= j < ms[k].ports.len() implies layout::library_layers(
            *lib,
        ).contains((#[trigger] ms[k].ports[j]).layer) by {
            if k < i {
                assert(ms[k] == layout::cell_models(before)[k]);
                assert(layout::cell_models(before)[k].ports[j] == ms[k].ports[j]);
            } else {
                assert(ms[k].ports[j] == view.ports@[j].model());
            }
        }
        i = i + 1;
    }
    assert(layout::cell_models(out@) =~= cells_of(*lib, *netlist));
    out
}

proof fn lemma_port_layer(lib: Library, cells: Seq<CellModel>, k: int, name: Seq<char>, m: int)
    requires
        knows_ports(lib, cells),
        0 <= k < cells.len(),
        0 <= m <= cells[k].ports.len(),
        route::port_named(cells[k].ports.skip(m), name) is Some,
    ensures
        layout::library_layers(lib).contains(
            route::port_named(cells[k].ports.skip(m), name)->0.layer,
        ),
    decreases cells[k].ports.len() - m,
{
    let s = cells[k].ports.skip(m);
    assert(s[0] == cells[k].ports[m]);
    if s[0].name != name {
        assert(s.skip(1) =~= cells[k].ports.skip(m + 1));
        lemma_port_layer(lib, cells, k, name, m + 1);
    }
}

proof fn lemma_pin_layer(
    lib: Library,
    cells: Seq<CellModel>,
    moves: Seq<Trans>,
    pin: netlist::PinModel,
)
    requires
        knows_ports(lib, cells),
        route::pin_fate(pin, moves, cells) is At,
    ensures
        layout::library_layers(lib).contains(route::pin_fate(pin, moves, cells)->At_0.layer),
{
    let k = pin.instance as int;
    assert(cells[k].ports.skip(0) =~= cells[k].ports);
    lemma_port_layer(lib, cells, k, pin.port, 0);
}

proof fn lemma_with_shapes_layers(
    m: Map<LayerIndex, Seq<ShapeModel>>,
    layer: LayerIndex,
    shapes: Seq<ShapeModel>,
    n: int,
    l: LayerIndex,
)
    requires
        with_shapes(m, layer, shapes, n).contains_key(l),
    ensures
        l == layer || m.contains_key(l),
    decreases n,
{
    if n > 0 && l != layer {
        lemma_with_shapes_layers(m, layer, shapes, n - 1, l);
    }
}

proof fn lemma_wire_layers(layers: Set<LayerIndex>, wires: Seq<WireModel>, n: int)
    requires
        route::on_layers(wires, layers),
        0 <= n <= wires.len(),
    ensures
        forall|l: LayerIndex| #[trigger]
            wire_shapes(wires, n).contains_key(l) ==> layers.contains(l),
    decreases n,
{
    if n > 0 {
        lemma_wire_layers(layers, wires, n - 1);
        assert forall|l: LayerIndex| #[trigger]
            wire_shapes(wires, n).contains_key(l) implies layers.contains(l) by {
            lemma_with_shapes_layers(
                wire_shapes(wires, n - 1),
                wires[n - 1].layer,
                wires[n - 1].shapes,
                wires[n - 1].shapes.len() as int,
                l,
            );
            assert(layers.contains(wires[n - 1].layer));
        }
    }
}

// ── putting a cell together ────────────────────────────────────────

fn stamp_cells(b: &mut CellBuilder, netlist: &Netlist, moves: &Vec<Trans>)
    requires
        moves@.len() >= netlist.instances@.len(),
        layout::builder_instances(*old(b)).len() == 0,
    ensures
        layout::builder_instances(*final(b)) == placed_cells(
            netlist.instances@,
            moves@,
            netlist.instances@.len() as int,
        ),
        layout::builder_name(*final(b)) == layout::builder_name(*old(b)),
        layout::builder_shapes(*final(b)) == layout::builder_shapes(*old(b)),
        layout::builder_ports(*final(b)) == layout::builder_ports(*old(b)),
{
    let mut i: usize = 0;
    assert(layout::builder_instances(*b) =~= placed_cells(netlist.instances@, moves@, 0));
    while i < netlist.instances.len()
        invariant
            i <= netlist.instances@.len(),
            moves@.len() >= netlist.instances@.len(),
            layout::builder_instances(*b) == placed_cells(netlist.instances@, moves@, i as int),
            layout::builder_name(*b) == layout::builder_name(*old(b)),
            layout::builder_shapes(*b) == layout::builder_shapes(*old(b)),
            layout::builder_ports(*b) == layout::builder_ports(*old(b)),
        decreases netlist.instances@.len() - i,
    {
        layout::add_instance(b, netlist.instances[i].cell, moves[i]);
        assert(layout::builder_instances(*b) =~= placed_cells(
            netlist.instances@,
            moves@,
            i + 1,
        ));
        i = i + 1;
    }
}

fn stamp_wires(b: &mut CellBuilder, routed: &RoutedDesign)
    requires
        layout::builder_shapes(*old(b)) == layout::no_shapes(),
    ensures
        layout::builder_shapes(*final(b)) == wire_shapes(
            routed.model().wires,
            routed.wires@.len() as int,
        ),
        layout::builder_name(*final(b)) == layout::builder_name(*old(b)),
        layout::builder_instances(*final(b)) == layout::builder_instances(*old(b)),
        layout::builder_ports(*final(b)) == layout::builder_ports(*old(b)),
{
    let ghost wires = routed.model().wires;
    let mut i: usize = 0;
    while i < routed.wires.len()
        invariant
            i <= routed.wires@.len(),
            wires == route::wire_models(routed.wires@),
            layout::builder_shapes(*b) == wire_shapes(wires, i as int),
            layout::builder_name(*b) == layout::builder_name(*old(b)),
            layout::builder_instances(*b) == layout::builder_instances(*old(b)),
            layout::builder_ports(*b) == layout::builder_ports(*old(b)),
        decreases routed.wires@.len() - i,
    {
        let ghost w = wires[i as int];
        assert(w == routed.wires@[i as int].model());
        let mut k: usize = 0;
        while k < routed.wires[i].shapes.len()
            invariant
                i < routed.wires@.len(),
                k <= routed.wires@[i as int].shapes@.len(),
                w == routed.wires@[i as int].model(),
                layout::builder_shapes(*b) == with_shapes(
                    wire_shapes(wires, i as int),
                    w.layer,
                    w.shapes,
                    k as int,
                ),
                layout::builder_name(*b) == layout::builder_name(*old(b)),
                layout::builder_instances(*b) == layout::builder_instances(*old(b)),
                layout::builder_ports(*b) == layout::builder_ports(*old(b)),
            decreases routed.wires@[i as int].shapes@.len() - k,
        {
            assert(w.shapes[k as int] == routed.wires@[i as int].shapes@[k as int].model());
            layout::add_shape(b, routed.wires[i].layer, &routed.wires[i].shapes[k]);
            k = k + 1;
        }
        i = i + 1;
    }
}

/// The port that an outer pin becomes.
#[derive(Debug)]
pub enum OuterPort {
    Missing,
    OffGrid,
    At(Port),
}

impl OuterPort {
    pub open spec fn model(self) -> route::PinFate {
        match self {
            OuterPort::Missing => route::PinFate::Missing,
            OuterPort::OffGrid => route::PinFate::OffGrid,
            OuterPort::At(p) => route::PinFate::At(p.model()),
        }
    }
}

fn resolve_outer_pin(
    ext: &ExternalPin,
    netlist: &Netlist,
    moves: &Vec<Trans>,
    cells: &Vec<CellView>,
) -> (res: OuterPort)
    requires
        moves@.len() >= cells@.len(),
    ensures
        res.model() == outer_pin(
            *ext,
            netlist::net_models(netlist.nets@),
            moves@,
            layout::cell_models(cells@),
        ),
{
    let ghost nets = netlist::net_models(netlist.nets@);
    let ghost ms = layout::cell_models(cells@);
    assert(ms.len() == cells@.len());
    assert(nets.len() == netlist.nets@.len());
    match netlist.net_position(ext.net.as_str()) {
        None => OuterPort::Missing,
        Some(i) => {
            assert(nets[i as int] == netlist.nets@[i as int].model());
            if netlist.nets[i].pins.len() == 0 {
                return OuterPort::Missing;
            }
            let first = &netlist.nets[i].pins[0];
            assert(nets[i as int].pins[0] == first.model());
            if first.instance >= cells.len() {
                return OuterPort::Missing;
            }
            assert(ms[first.instance as int] == cells@[first.instance as int].model());
            match route::find_port(&cells[first.instance].ports, first.port.as_str()) {
                None => OuterPort::Missing,
                Some(p) => match p.transform(moves[first.instance]) {
                    None => OuterPort::OffGrid,
                    Some(q) => {
                        let r = Port {
                            name: ext.name.clone(),
                            kind: q.kind,
                            center: q.center,
                            angle: q.angle,
                            width: q.width,
                            layer: q.layer,
                        };
                        assert(r.model() =~= (PortModel { name: ext.name@, ..q.model() }));
                        OuterPort::At(r)
                    },
                },
            }
        },
    }
}

fn stamp_ports(
    b: &mut CellBuilder,
    netlist: &Netlist,
    moves: &Vec<Trans>,
    cells: &Vec<CellView>,
    Ghost(lib): Ghost<Library>,
) -> (res: bool)
    requires
        moves@.len() >= cells@.len(),
        layout::builder_ports(*old(b)).len() == 0,
        knows_ports(lib, layout::cell_models(cells@)),
    ensures
        res == (outer_ports(
            netlist.external_pins@,
            netlist::net_models(netlist.nets@),
            moves@,
            layout::cell_models(cells@),
            netlist.external_pins@.len() as int,
        ) is Some),
        res ==> outer_ports(
            netlist.external_pins@,
            netlist::net_models(netlist.nets@),
            moves@,
            layout::cell_models(cells@),
            netlist.external_pins@.len() as int,
        ) == Some(layout::builder_ports(*final(b))),
        res ==> forall|i: int|
            0 <= i < layout::builder_ports(*final(b)).len() ==> layout::library_layers(
                lib,
            ).contains((#[trigger] layout::builder_ports(*final(b))[i]).layer),
        layout::builder_name(*final(b)) == layout::builder_name(*old(b)),
        layout::builder_instances(*final(b)) == layout::builder_instances(*old(b)),
        layout::builder_shapes(*final(b)) == layout::builder_shapes(*old(b)),
{
    let ghost nets = netlist::net_models(netlist.nets@);
    let ghost ms = layout::cell_models(cells@);
    assert(layout::builder_ports(*b) =~= Seq::empty());
    let mut i: usize = 0;
    while i < netlist.external_pins.len()
        invariant
            i <= netlist.external_pins@.len(),
            moves@.len() >= cells@.len(),
            nets == netlist::net_models(netlist.nets@),
            ms == layout::cell_models(cells@),
            knows_ports(lib, ms),
            outer_ports(netlist.external_pins@, nets, moves@, ms, i as int) == Some(
                layout::builder_ports(*b),
            ),
            forall|k: int|
                0 <= k < layout::builder_ports(*b).len() ==> layout::library_layers(lib).contains(
                    (#[trigger] layout::builder_ports(*b)[k]).layer,
                ),
            layout::builder_name(*b) == layout::builder_name(*old(b)),
            layout::builder_instances(*b) == layout::builder_instances(*old(b)),
            layout::builder_shapes(*b) == layout::builder_shapes(*old(b)),
        decreases netlist.external_pins@.len() - i,
    {
        match resolve_outer_pin(&netlist.external_pins[i], netlist, moves, cells) {
            OuterPort::Missing => {},
            OuterPort::OffGrid => {
                proof {
                    lemma_outer_none(
                        netlist.external_pins@,
                        nets,
                        moves@,
                        ms,
                        i + 1,
                        netlist.external_pins@.len() as int,
                    );
                }
                return false;
            },
            OuterPort::At(p) => {
                proof {
                    let ext = netlist.external_pins@[i as int];
                    let k = netlist::net_index(nets, ext.net@);
                    lemma_pin_layer(lib, ms, moves@, nets[k].pins[0]);
                }
                layout::add_port(b, &p);
            },
        }
        i = i + 1;
    }
    true
}

// ── the flow ───────────────────────────────────────────────────────

/// A way to place and a way to wire.
#[derive(Debug)]
pub struct PnrFlow<P: Placer, R: Router> {
    pub placer: P,
    pub router: R,
}

/// The new cell, with its placement and its wires.
#[derive(Debug)]
pub struct PnrResult {
    pub top: CellId,
    pub placement: Placement,
    pub routed: RoutedDesign,
}

/// Whether the box around every piece of every wire can be computed.
pub open spec fn wires_fit(wires: Seq<WireModel>) -> bool {
    forall|i: int, k: int|
        0 <= i < wires.len() && 0 <= k < wires[i].shapes.len() ==> geom::outline_fits(
            #[trigger] wires[i].shapes[k],
        )
}

fn check_wires(wires: &Vec<Wire>) -> (res: bool)
    ensures
        res == wires_fit(route::wire_models(wires@)),
{
    let ghost ms = route::wire_models(wires@);
    let mut i: usize = 0;
    while i < wires.len()
        invariant
            i <= wires@.len(),
            ms == route::wire_models(wires@),
            forall|a: int, k: int|
                0 <= a < i && 0 <= k < ms[a].shapes.len() ==> geom::outline_fits(
                    #[trigger] ms[a].shapes[k],
                ),
        decreases wires@.len() - i,
    {
        assert(ms[i as int] == wires@[i as int].model());
        let mut k: usize = 0;
        while k < wires[i].shapes.len()
            invariant
                i < wires@.len(),
                k <= wires@[i as int].shapes@.len(),
                ms == route::wire_models(wires@),
                ms[i as int] == wires@[i as int].model(),
                forall|j: int|
                    0 <= j < k ==> geom::outline_fits(#[trigger] ms[i as int].shapes[j]),
            decreases wires@[i as int].shapes@.len() - k,
        {
            assert(ms[i as int].shapes[k as int] == wires@[i as int].shapes@[k as int].model());
            if !wires[i].shapes[k].fits() {
                return false;
            }
            k = k + 1;
        }
        i = i + 1;
    }
    true
}

proof fn lemma_with_shapes_fit(
    m: Map<LayerIndex, Seq<ShapeModel>>,
    layer: LayerIndex,
    shapes: Seq<ShapeModel>,
    n: int,
)
    requires
        layout::outlines_fit(m),
        0 <= n <= shapes.len(),
        forall|k: int| 0 <= k < shapes.len() ==> geom::outline_fits(#[trigger] shapes[k]),
    ensures
        layout::outlines_fit(with_shapes(m, layer, shapes, n)),
    decreases n,
{
    if n > 0 {
        lemma_with_shapes_fit(m, layer, shapes, n - 1);
    }
}

proof fn lemma_wires_fit(wires: Seq<WireModel>, n: int)
    requires
        wires_fit(wires),
        0 <= n <= wires.len(),
    ensures
        layout::outlines_fit(wire_shapes(wires, n)),
    decreases n,
{
    if n > 0 {
        lemma_wires_fit(wires, n - 1);
        lemma_with_shapes_fit(
            wire_shapes(wires, n - 1),
            wires[n - 1].layer,
            wires[n - 1].shapes,
            wires[n - 1].shapes.len() as int,
        );
    }
}

/// The placement and the wires of a design; none where there is no placement of all
/// its cells or a coordinate would not fit.
pub open spec fn planned<P: Placer, R: Router>(
    placer: P,
    router: R,
    nl: Netlist,
    cells: Seq<CellModel>,
) -> Option<(Seq<Trans>, geom::Bbox, Routing)> {
    match placer.placement(nl, cells) {
        None => None,
        Some((moves, bbox)) => if moves.len() < nl.instances@.len() {
            None
        } else {
            match router.routing(nl, moves, cells) {
                None => None,
                Some(r) => if wires_fit(r.wires) && outer_ports(
                    nl.external_pins@,
                    netlist::net_models(nl.nets@),
                    moves,
                    cells,
                    nl.external_pins@.len() as int,
                ) is Some {
                    Some((moves, bbox, r))
                } else {
                    None
                },
            }
        },
    }
}

impl<P: Placer, R: Router> PnrFlow<P, R> {
    pub fn new(placer: P, router: R) -> (res: Self)
        ensures
            res.placer == placer,
            res.router == router,
    {
        PnrFlow { placer, router }
    }

    /// Places and wires a design and adds the cell that it comes to. Nothing is added
    /// where there is no placement of all its cells or a coordinate would not fit.
    pub fn run(&self, netlist: &Netlist, lib: &mut Library) -> (res: Option<PnrResult>)
        requires
            knows(*old(lib), *netlist, self.router.layers(*netlist)),
            layout::library_listing(*old(lib)).len() < 0xffff_ffff,
        ensures
            match res {
                None => planned(
                    self.placer,
                    self.router,
                    *netlist,
                    cells_of(*old(lib), *netlist),
                ) is None,
                Some(r) => planned(
                    self.placer,
                    self.router,
                    *netlist,
                    cells_of(*old(lib), *netlist),
                ) == Some((r.placement.transforms@, r.placement.bbox, r.routed.model())),
            },
            res is None ==> *final(lib) == *old(lib),
            res matches Some(r) ==> adds_top(
                *netlist,
                r.placement.transforms@,
                r.routed.model().wires,
                *old(lib),
                *final(lib),
                r.top,
            ),
    {
        let cells = read_cells(lib, netlist);
        let placement = match self.placer.place(netlist, &cells) {
            None => {
                return None;
            },
            Some(p) => p,
        };
        if placement.transforms.len() < netlist.instances.len() {
            return None;
        }
        let routed = match self.router.route(netlist, &placement, &cells) {
            None => {
                return None;
            },
            Some(r) => r,
        };
        if !check_wires(&routed.wires) {
            return None;
        }
        let ghost before = *lib;
        let ghost wires = routed.model().wires;
        proof {
            lemma_wire_layers(self.router.layers(*netlist), wires, wires.len() as int);
            lemma_wires_fit(wires, wires.len() as int);
        }
        let mut b = layout::new_builder(netlist.name.as_str());
        stamp_cells(&mut b, netlist, &placement.transforms);
        stamp_wires(&mut b, &routed);
        assert(wires.len() == routed.wires@.len());
        if !stamp_ports(&mut b, netlist, &placement.transforms, &cells, Ghost(before)) {
            return None;
        }
        proof {
            let insts = layout::builder_instances(b);
            assert forall|i: int| 0 <= i < insts.len() implies layout::library_cells(
                before,
            ).contains_key((#[trigger] insts[i]).0) by {
                assert(layout::library_cells(before).contains_key(netlist.instances@[i].cell));
            }
            assert forall|l: LayerIndex| #[trigger]
                layout::builder_shapes(b).contains_key(l) implies layout::library_layers(
                before,
            ).contains(l) by {
                assert(self.router.layers(*netlist).contains(l));
            }
            assert(is_top_of(
                b,
                *netlist,
                placement.transforms@,
                wires,
                cells_of(before, *netlist),
            ));
        }
        let ghost top_cell = b;
        let top: CellId = layout::insert(lib, b);
        assert(layout::inserted(before, *lib, top, top_cell));
        let r = PnrResult { top, placement, routed };
        assert(r.top == top && r.placement == placement && r.routed == routed);
        assert(layout::inserted(*old(lib), *final(lib), r.top, top_cell));
        Some(r)
    }
}

/// A design in a library that knows it is still known after a cell is added.
pub proof fn known_designs_stay_known(
    before: Library,
    after: Library,
    id: CellId,
    b: CellBuilder,
    nl: Netlist,
    layers: Set<LayerIndex>,
)
    requires
        knows(before, nl, layers),
        layout::inserted(before, after, id, b),
    ensures
        knows(after, nl, layers),
        cells_of(after, nl) == cells_of(before, nl),
{
    assert forall|i: int| 0 <= i < nl.instances@.len() implies layout::library_cells(
        after,
    ).contains_key((#[trigger] nl.instances@[i]).cell) && layout::library_cells(
        after,
    )[nl.instances@[i].cell] == layout::library_cells(before)[nl.instances@[i].cell] by {
        layout::cells_are_only_added(before, after, id, b, nl.instances@[i].cell);
    }
    assert(cells_of(after, nl) =~= cells_of(before, nl));
}

// ── blocks that say what they connect ──────────────────────────────

/// A block that is made of other blocks: it says what it connects and where its
/// parts go.
pub trait Connectivity<P> {
    /// What describing the block may do to a library, and which design it may come to.
    /// Nothing is said of a block that does not say it.
    open spec fn describes(&self, pdk: P, before: Library, after: Library, netlist: Netlist) -> bool {
        true
    }

    /// The design, after its cells have been added to the library. No layer is taken away.
    fn connectivity(&self, lib: &mut Library, pdk: &P) -> (res: Netlist)
        ensures
            self.describes(*pdk, *old(lib), *final(lib), res),
            layout::library_layers(*old(lib)).subset_of(layout::library_layers(*final(lib))),
            knows(*final(lib), res, route::design_layers(res)),
            layout::library_listing(*final(lib)).len() < 0xffff_ffff,
    ;

    /// A move for every cell of the design.
    fn transforms(&self, netlist: &Netlist, lib: &Library) -> Vec<Trans>;
}

/// Whether a block may answer with the moves for a design in a library.
pub open spec fn moves_for<P, T: Connectivity<P>>(
    t: T,
    netlist: Netlist,
    lib: Library,
    moves: Vec<Trans>,
) -> bool {
    call_ensures(T::transforms, (&t, &netlist, &lib), moves)
}

/// Lays out a block with boxes for wires, and a star for each net of more than two
/// pins.
pub fn pnr_layout<P, T: Connectivity<P>>(t: &T, lib: &mut Library, pdk: &P) -> (res: Option<
    CellId,
>)
    ensures
        block_laid_out(
            *t,
            *pdk,
            ManhattanRouter { style: WireStyle::Polygon, multi_pin: MultiPinStrategy::Star },
            *old(lib),
            *final(lib),
            res,
        ),
{
    pnr_layout_with(
        t,
        lib,
        pdk,
        ManhattanRouter { style: WireStyle::Polygon, multi_pin: MultiPinStrategy::Star },
    )
}

/// Whether a library holds what a design, placed by given moves and wired by a router,
/// comes to; it is as before exactly where there is no such placement or a coordinate
/// would not fit.
pub open spec fn laid_out<R: Router>(
    router: R,
    netlist: Netlist,
    placer: ManualPlacer,
    before: Library,
    after: Library,
    res: Option<CellId>,
) -> bool {
    &&& knows(before, netlist, route::design_layers(netlist))
    &&& match planned(placer, router, netlist, cells_of(before, netlist)) {
        None => res is None && after == before,
        Some((moves, _, r)) => res is Some && adds_top(
            netlist,
            moves,
            r.wires,
            before,
            after,
            res->0,
        ),
    }
}

/// Whether a library comes of another by describing a block, and then laying out the design
/// that it described by the moves that it gave.
pub open spec fn block_laid_out<P, T: Connectivity<P>, R: Router>(
    t: T,
    pdk: P,
    router: R,
    before: Library,
    after: Library,
    res: Option<CellId>,
) -> bool {
    exists|netlist: Netlist, placer: ManualPlacer, mid: Library|
        t.describes(pdk, before, mid, netlist) && moves_for::<P, T>(
            t,
            netlist,
            mid,
            placer.transforms,
        ) && #[trigger] laid_out(router, netlist, placer, mid, after, res)
}

/// Lays out a block with a router that keeps to the layers of a design and those that the
/// library has: the design is the block's, once its cells have been added to the library,
/// and so are the moves. Nothing more is added where there is not one move for each cell or
/// a coordinate would not fit.
pub fn pnr_layout_with<P, T: Connectivity<P>, R: Router>(
    t: &T,
    lib: &mut Library,
    pdk: &P,
    router: R,
) -> (res: Option<CellId>)
    requires
        forall|nl: Netlist| #[trigger]
            router.layers(nl).subset_of(
                route::design_layers(nl).union(layout::library_layers(*old(lib))),
            ),
    ensures
        block_laid_out(*t, *pdk, router, *old(lib), *final(lib), res),
{
    let netlist = t.connectivity(lib, pdk);
    let ghost mid = *lib;
    let moves = t.transforms(&netlist, lib);
    let placer = ManualPlacer::new(moves);
    assert(moves_for::<P, T>(*t, netlist, mid, placer.transforms));
    assert(router.layers(netlist).subset_of(
        route::design_layers(netlist).union(layout::library_layers(*old(lib))),
    ));
    let flow = PnrFlow::new(placer, router);
    match flow.run(&netlist, lib) {
        None => {
            assert(laid_out(router, netlist, flow.placer, mid, *lib, None));
            None
        },
        Some(r) => {
            assert(laid_out(router, netlist, flow.placer, mid, *lib, Some(r.top)));
            Some(r.top)
        },
    }
}

/// Whether a port is that of an outer pin: it has the pin's name and is otherwise the port
/// of the first pin of the first net that the outer pin names, moved as its cell is.
pub open spec fn is_outer_port(
    p: PortModel,
    ext: ExternalPin,
    nets: Seq<NetModel>,
    moves: Seq<Trans>,
    cells: Seq<CellModel>,
) -> bool {
    p.name == ext.name@ && exists|i: int, q: PortModel|
        0 <= i < nets.len() && (#[trigger] nets[i]).name == ext.net@ && nets[i].pins.len() > 0
            && #[trigger] route::is_port_of(q, nets[i].pins[0], moves, cells) && p == (PortModel {
            name: p.name,
            ..q
        }) && (forall|j: int| 0 <= j < i ==> (#[trigger] nets[j]).name != ext.net@)
}

/// Whether an outer pin leads nowhere: no net has the name it gives, or the first that does
/// has no pin, or its first pin is on no port.
pub open spec fn leads_nowhere(
    ext: ExternalPin,
    nets: Seq<NetModel>,
    cells: Seq<CellModel>,
) -> bool {
    forall|i: int|
        0 <= i < nets.len() && (#[trigger] nets[i]).name == ext.net@ && (forall|j: int|
            0 <= j < i ==> (#[trigger] nets[j]).name != ext.net@) ==> nets[i].pins.len() == 0
            || !route::has_port(nets[i].pins[0], cells)
}

proof fn lemma_outer_pin(
    ext: ExternalPin,
    nets: Seq<NetModel>,
    moves: Seq<Trans>,
    cells: Seq<CellModel>,
)
    ensures
        match outer_pin(ext, nets, moves, cells) {
            route::PinFate::Missing => leads_nowhere(ext, nets, cells),
            route::PinFate::OffGrid => true,
            route::PinFate::At(p) => is_outer_port(p, ext, nets, moves, cells),
        },
{
    let i = netlist::net_index(nets, ext.net@);
    netlist::lemma_net_index(nets, ext.net@);
    if i < nets.len() && nets[i].pins.len() > 0 {
        let pins = nets[i].pins.take(1);
        assert(pins[0] == nets[i].pins[0]);
        route::nets_end_at_their_pins(pins, moves, cells, 1);
        reveal_with_fuel(route::net_fate, 2);
        match route::pin_fate(nets[i].pins[0], moves, cells) {
            route::PinFate::At(q) => {
                let ports = Seq::<PortModel>::empty().push(q);
                assert(route::net_fate(pins, moves, cells, 1) == route::NetFate::At(ports));
                assert(ports[0] == q);
                assert(route::is_port_of(q, nets[i].pins[0], moves, cells));
            },
            route::PinFate::Missing => {
                assert(route::net_fate(pins, moves, cells, 1) is Failed);
                assert(!route::has_port(nets[i].pins[0], cells));
            },
            route::PinFate::OffGrid => {},
        }
    }
}

/// The ports of a design are those of its outer pins, in order and under their own names.
/// Only outer pins that lead nowhere have none. `of` says which outer pin each port is of.
pub proof fn designs_end_at_their_outer_pins(
    pins: Seq<ExternalPin>,
    nets: Seq<NetModel>,
    moves: Seq<Trans>,
    cells: Seq<CellModel>,
    n: int,
) -> (of: Seq<int>)
    requires
        0 <= n <= pins.len(),
        outer_ports(pins, nets, moves, cells, n) is Some,
    ensures
        of.len() == outer_ports(pins, nets, moves, cells, n)->0.len(),
        forall|j: int, k: int| 0 <= j < k < of.len() ==> (#[trigger] of[j]) < (#[trigger] of[k]),
        forall|k: int|
            #![trigger of[k]]
            0 <= k < of.len() ==> 0 <= of[k] < n && is_outer_port(
                outer_ports(pins, nets, moves, cells, n)->0[k],
                pins[of[k]],
                nets,
                moves,
                cells,
            ),
        forall|i: int|
            0 <= i < n ==> of.contains(i) || leads_nowhere(#[trigger] pins[i], nets, cells),
    decreases n,
{
    if n == 0 {
        Seq::empty()
    } else {
        let less = designs_end_at_their_outer_pins(pins, nets, moves, cells, n - 1);
        let before = outer_ports(pins, nets, moves, cells, n - 1)->0;
        lemma_outer_pin(pins[n - 1], nets, moves, cells);
        match outer_pin(pins[n - 1], nets, moves, cells) {
            route::PinFate::At(p) => {
                let of = less.push(n - 1);
                let now = before.push(p);
                assert(outer_ports(pins, nets, moves, cells, n) == Some(now));
                assert forall|i: int| 0 <= i < n implies of.contains(i) || leads_nowhere(
                    #[trigger] pins[i],
                    nets,
                    cells,
                ) by {
                    if i == n - 1 {
                        assert(of[of.len() - 1] == i);
                    } else if less.contains(i) {
                        let k = choose|k: int| 0 <= k < less.len() && less[k] == i;
                        assert(of[k] == i);
                    }
                }
                assert forall|k: int| #![trigger of[k]] 0 <= k < of.len() implies 0 <= of[k] < n
                    && is_outer_port(now[k], pins[of[k]], nets, moves, cells) by {
                    if k < less.len() {
                        assert(of[k] == less[k]);
                    }
                }
                of
            },
            _ => less,
        }
    }
}

/// Whether a shape is on a layer.
pub open spec fn is_on(
    m: Map<LayerIndex, Seq<ShapeModel>>,
    layer: LayerIndex,
    s: ShapeModel,
) -> bool {
    m.contains_key(layer) && m[layer].contains(s)
}

/// Whether a shape is one of the first `n`.
pub open spec fn among(shapes: Seq<ShapeModel>, s: ShapeModel, n: int) -> bool {
    exists|i: int| 0 <= i < n && #[trigger] shapes[i] == s
}

proof fn lemma_with_shapes(
    m: Map<LayerIndex, Seq<ShapeModel>>,
    layer: LayerIndex,
    shapes: Seq<ShapeModel>,
    n: int,
    l: LayerIndex,
    s: ShapeModel,
)
    requires
        0 <= n <= shapes.len(),
    ensures
        is_on(with_shapes(m, layer, shapes, n), l, s) <==> is_on(m, l, s) || (l == layer && among(
            shapes,
            s,
            n,
        )),
    decreases n,
{
    if n > 0 {
        lemma_with_shapes(m, layer, shapes, n - 1, l, s);
        let before = with_shapes(m, layer, shapes, n - 1);
        let now = with_shapes(m, layer, shapes, n);
        if l == layer {
            let old_list = if before.contains_key(layer) {
                before[layer]
            } else {
                Seq::empty()
            };
            assert(now[layer] == old_list.push(shapes[n - 1]));
            if old_list.contains(s) {
                let k = choose|k: int| 0 <= k < old_list.len() && old_list[k] == s;
                assert(now[layer][k] == s);
            }
            if s == shapes[n - 1] {
                assert(now[layer][old_list.len() as int] == s);
            }
            if now[layer].contains(s) && s != shapes[n - 1] {
                let k = choose|k: int| 0 <= k < now[layer].len() && now[layer][k] == s;
                assert(old_list[k] == s);
            }
        }
    }
}

/// Every shape of a wire is on the layer of that wire, and no layer holds another shape.
pub proof fn wires_are_drawn_on_their_layers(
    wires: Seq<WireModel>,
    n: int,
    l: LayerIndex,
    s: ShapeModel,
)
    requires
        0 <= n <= wires.len(),
    ensures
        is_on(wire_shapes(wires, n), l, s) <==> exists|k: int|
            0 <= k < n && (#[trigger] wires[k]).layer == l && wires[k].shapes.contains(s),
    decreases n,
{
    if n > 0 {
        wires_are_drawn_on_their_layers(wires, n - 1, l, s);
        let w = wires[n - 1];
        lemma_with_shapes(
            wire_shapes(wires, n - 1),
            w.layer,
            w.shapes,
            w.shapes.len() as int,
            l,
            s,
        );
        assert(among(w.shapes, s, w.shapes.len() as int) <==> w.shapes.contains(s));
    }
}

} // verus!
