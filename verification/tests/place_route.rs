//! Placing and wiring on the real layout library.

use klayout_core::{
    Angle90, Bbox, CellBuilder, CellId, LayerIndex, LayerInfo, Library, Point, Port, PortKindId, Rect, Shape,
};

/// A library of 1000 units to the micron, with one metal layer.
fn new_library(name: &str) -> (Library, LayerIndex) {
    let lib = Library::new(name, 1000);
    let metal1 = lib.layer(LayerInfo::gds(10, 0));
    (lib, metal1)
}

/// A square cell with a port in its middle.
fn build_unit(lib: &Library, metal1: LayerIndex, name: &str, half: i64) -> CellId {
    let mut cb = CellBuilder::new(name);
    cb.add_shape(
        metal1,
        Shape::Box(Rect::new(Bbox::new(Point::new(-half, -half), Point::new(half, half)))),
    );
    cb.add_port(
        Port::new("p", metal1, Point::new(0, 0), Angle90::E, half * 2).with_kind(PortKindId(1)),
    );
    lib.insert(cb)
}
use rlx_eda::flow::{pnr_layout, read_cells, Connectivity, PnrFlow};
use rlx_eda::geom;
use rlx_eda::liberty::PinDirection;
use rlx_eda::netlist::Netlist;
use rlx_eda::place::{GridPlacer, ManualPlacer, Placement};
use rlx_eda::route::{ManhattanRouter, MultiPinStrategy, PolygonWireStylizer, Router, WireStyle};

fn shift(x: i64, y: i64) -> geom::Trans {
    geom::Trans::translate(geom::Vec2 { x, y })
}

fn wire_area(lib: &Library, top: CellId, layer: LayerIndex) -> i64 {
    let cell = lib.get(top);
    let mut area = 0i64;
    for shape in cell.shapes_on(layer) {
        if let Shape::Box(b) = shape {
            let bb = b.bbox;
            area += (bb.max.x - bb.min.x) * (bb.max.y - bb.min.y);
        }
    }
    area
}

#[test]
fn steiner_beats_star_on_dense_4_pin_net() {
    let route = |name: &str, strategy: MultiPinStrategy| {
        let (mut lib, metal1) = new_library(name);
        let mut nl = Netlist::new(name).with_default_signal_layer(metal1);
        for i in 0..4 {
            let c = build_unit(&lib, metal1, &format!("U{i}"), 500);
            nl.add_instance(&format!("U{i}"), c);
        }
        for i in 0..4 {
            nl.connect("net", i, "p");
        }
        let moves = vec![shift(0, 0), shift(20_000, 0), shift(0, 20_000), shift(20_000, 20_000)];
        let router = ManhattanRouter::new(WireStyle::Polygon).with_multi_pin(strategy);
        let top = PnrFlow::new(ManualPlacer::new(moves), router).run(&nl, &mut lib).unwrap().top;
        wire_area(&lib, top, metal1)
    };
    let star = route("star", MultiPinStrategy::Star);
    let steiner = route("steiner", MultiPinStrategy::Steiner);
    assert!(star > 0);
    assert!(steiner <= star, "Steiner ({steiner}) should be ≤ star ({star})");
}

fn build_resistor(lib: &Library, res: LayerIndex, metal1: LayerIndex, name: &str, length: i64) -> CellId {
    let mut cb = CellBuilder::new(name);
    cb.add_shape(
        res,
        Shape::Box(Rect::new(Bbox::new(Point::new(0, -500), Point::new(length, 500)))),
    );
    cb.add_port(Port::new("a", metal1, Point::new(0, 0), Angle90::W, 1_000).with_kind(PortKindId(1)));
    cb.add_port(Port::new("b", metal1, Point::new(length, 0), Angle90::E, 1_000).with_kind(PortKindId(1)));
    lib.insert(cb)
}

#[test]
fn place_route_two_resistors_end_to_end() {
    let mut lib = Library::new("pnr_smoke", 1000);
    let res = lib.layer(LayerInfo::gds(50, 0));
    let metal1 = lib.layer(LayerInfo::gds(10, 0));
    let r1 = build_resistor(&lib, res, metal1, "R1", 5_000);
    let r2 = build_resistor(&lib, res, metal1, "R2", 5_000);

    let mut nl = Netlist::new("pnr_top").with_default_signal_layer(metal1);
    let i1 = nl.add_instance("R1", r1);
    let i2 = nl.add_instance("R2", r2);
    nl.connect("vmid", i1, "b");
    nl.connect("vmid", i2, "a");
    nl.expose("vin", "vin_net", Some(PinDirection::Input));
    nl.connect("vin_net", i1, "a");
    nl.expose("vout", "vout_net", Some(PinDirection::Output));
    nl.connect("vout_net", i2, "b");
    // A net of one pin has no wire.
    nl.connect("dangling", i1, "a");
    if let Some(net) = nl.nets.iter_mut().find(|n| n.name == "dangling") {
        net.pins.truncate(1);
    }

    let placer = ManualPlacer::new(vec![shift(0, 0), shift(10_000, 4_000)]);
    let flow = PnrFlow::new(placer, ManhattanRouter::new(WireStyle::Polygon));
    let result = flow.run(&nl, &mut lib).expect("coordinates fit");
    let cell = lib.get(result.top);
    assert_eq!(cell.instances().len(), 2);
    let has_metal1_wire = cell.shapes_on(metal1).any(|s| matches!(s, Shape::Box(_)));
    assert!(has_metal1_wire, "expected at least one Box on METAL1");
    assert!(cell.port("vin").is_some(), "vin external pin missing");
    assert!(cell.port("vout").is_some(), "vout external pin missing");
    let vout = cell.port("vout").unwrap();
    assert_eq!((vout.center.x, vout.center.y), (15_000, 4_000));
    assert!(
        result.routed.failed_nets.iter().any(|n| n == "dangling"),
        "single-pin net should appear in failed_nets",
    );
    assert!(result.routed.failed_nets.len() >= 1);
    assert_eq!(cell.name().as_str(), "pnr_top");
}

#[test]
fn paths_keep_the_planned_line() {
    let (mut lib, metal1) = new_library("paths");
    let mut nl = Netlist::new("paths").with_default_signal_layer(metal1);
    for i in 0..2 {
        let c = build_unit(&lib, metal1, &format!("U{i}"), 500 + i);
        nl.add_instance(&format!("U{i}"), c);
        nl.connect("net", i as usize, "p");
    }
    let flow = PnrFlow::new(
        ManualPlacer::new(vec![shift(0, 0), shift(9_000, 7_000)]),
        ManhattanRouter::new(WireStyle::Path),
    );
    let top = flow.run(&nl, &mut lib).unwrap().top;
    let cell = lib.get(top);
    let mut lines = Vec::new();
    for s in cell.shapes_on(metal1) {
        if let Shape::Path(p) = s {
            lines.push((p.points.iter().map(|q| (q.x, q.y)).collect::<Vec<_>>(), p.width));
        }
    }
    // The first port faces east: the line bends where it is below the second one.
    assert_eq!(lines, vec![(vec![(0, 0), (9_000, 0), (9_000, 7_000)], 1_002)]);
}

#[test]
fn grids_leave_gaps_between_cells() {
    let (mut lib, metal1) = new_library("grid");
    let mut nl = Netlist::new("grid").with_default_signal_layer(metal1);
    for i in 0..3 {
        let c = build_unit(&lib, metal1, &format!("U{i}"), 500 + i);
        nl.add_instance(&format!("U{i}"), c);
    }
    let flow = PnrFlow::new(GridPlacer::new(100, 200, 2), ManhattanRouter::new(WireStyle::Polygon));
    let r = flow.run(&nl, &mut lib).unwrap();
    let corner = |i: usize, half: i64| {
        let d = r.placement.transforms[i].disp;
        (d.x - half, d.y - half)
    };
    assert_eq!(corner(0, 500), (0, 0));
    assert_eq!(corner(1, 501), (1_100, 0));
    assert_eq!(corner(2, 502), (0, 1_202));
}

#[test]
fn nothing_is_placed_where_a_coordinate_does_not_fit() {
    let (mut lib, metal1) = new_library("far");
    let c = build_unit(&lib, metal1, "U", 500);
    let mut nl = Netlist::new("far").with_default_signal_layer(metal1);
    nl.add_instance("U0", c);
    let flow = PnrFlow::new(
        ManualPlacer::new(vec![shift(i64::MAX, 0)]),
        ManhattanRouter::new(WireStyle::Polygon),
    );
    let before = lib.cell_count();
    assert!(flow.run(&nl, &mut lib).is_none());
    assert_eq!(lib.cell_count(), before);
    // One move for each cell, or none.
    let flow = PnrFlow::new(ManualPlacer::new(vec![]), ManhattanRouter::new(WireStyle::Polygon));
    assert!(flow.run(&nl, &mut lib).is_none());
}

#[test]
fn demonstration_designs_have_their_nets() {
    let (lib, metal1) = new_library("demo");
    let cells: Vec<CellId> = (0..8).map(|i| build_unit(&lib, metal1, &format!("U{i}"), 500 + i)).collect();
    let small = rlx_eda::demo::small_design(&cells[..6].to_vec(), metal1);
    let pins = |nl: &Netlist| nl.nets.iter().map(|n| (n.name.clone(), n.pins.len())).collect::<Vec<_>>();
    assert_eq!(
        pins(&small),
        [("netA", 3), ("bridge", 2), ("chainA", 2), ("chainB", 2)].map(|(n, k)| (n.to_string(), k))
    );
    let ring = rlx_eda::demo::ring_design(&cells, metal1, 2, 4);
    assert_eq!(ring.nets.len(), 8);
    let bridge = ring.nets.iter().find(|n| n.name == "bridge_1_0").unwrap();
    assert_eq!(bridge.pins.iter().map(|p| p.instance).collect::<Vec<_>>(), [4, 2]);
}

/// Two unit cells with a wire between them.
struct Pair {
    moves: usize,
}

impl Connectivity<LayerIndex> for Pair {
    fn connectivity(&self, lib: &mut Library, metal1: &LayerIndex) -> Netlist {
        let a = build_unit(lib, *metal1, "A", 500);
        let b = build_unit(lib, *metal1, "B", 500);
        let mut nl = Netlist::new("pair").with_default_signal_layer(*metal1);
        nl.add_instance("A", a);
        nl.add_instance("B", b);
        nl.connect("n", 0, "p");
        nl.connect("n", 1, "p");
        nl.set_net_layer("n", *metal1);
        nl
    }

    fn transforms(&self, _: &Netlist, _: &Library) -> Vec<geom::Trans> {
        (0..self.moves).map(|i| shift(i as i64 * 10_000, 0)).collect()
    }
}

#[test]
fn blocks_are_laid_out_where_every_cell_has_a_move() {
    let (mut lib, metal1) = new_library("blocks");
    let top = pnr_layout(&Pair { moves: 2 }, &mut lib, &metal1).unwrap();
    assert_eq!(lib.get(top).instances().len(), 2);
    assert!(wire_area(&lib, top, metal1) > 0);
    let (mut lib, metal1) = new_library("short");
    assert!(pnr_layout(&Pair { moves: 1 }, &mut lib, &metal1).is_none());
}

#[test]
fn wires_reach_every_pin() {
    for strategy in [MultiPinStrategy::Star, MultiPinStrategy::Steiner] {
        let (mut lib, metal1) = new_library("reach");
        let mut nl = Netlist::new("reach").with_default_signal_layer(metal1);
        let at = [(0, 0), (30_000, 4_000), (12_000, 50_000), (-9_000, 21_000), (0, 0)];
        for i in 0..at.len() {
            let c = build_unit(&lib, metal1, &format!("U{i}"), 500);
            nl.add_instance(&format!("U{i}"), c);
            nl.connect("n", i, "p");
        }
        let moves = at.iter().map(|&(x, y)| shift(x, y)).collect();
        let router = ManhattanRouter::new(WireStyle::Polygon).with_multi_pin(strategy);
        let r = PnrFlow::new(ManualPlacer::new(moves), router).run(&nl, &mut lib).unwrap();
        let boxes: Vec<geom::Bbox> = r.routed.wires[0]
            .shapes
            .iter()
            .map(|s| match s {
                geom::Shape::Box(b) => *b,
                geom::Shape::Path(_) => panic!("wires are boxes"),
            })
            .collect();
        // Boxes that touch the first pin, then all that touch those.
        let holds = |b: &geom::Bbox, x: i64, y: i64| b.min.x <= x && x <= b.max.x && b.min.y <= y && y <= b.max.y;
        let touch = |a: &geom::Bbox, b: &geom::Bbox| {
            a.min.x <= b.max.x && b.min.x <= a.max.x && a.min.y <= b.max.y && b.min.y <= a.max.y
        };
        let mut reached: Vec<bool> = boxes.iter().map(|b| holds(b, 0, 0)).collect();
        for _ in 0..boxes.len() {
            for i in 0..boxes.len() {
                for j in 0..boxes.len() {
                    if reached[i] && touch(&boxes[i], &boxes[j]) {
                        reached[j] = true;
                    }
                }
            }
        }
        assert!(reached.iter().all(|r| *r));
        assert!(at.iter().all(|&(x, y)| boxes.iter().any(|b| holds(b, x, y))));
    }
}

#[test]
fn moves_beyond_the_cells_are_left_alone() {
    let (mut lib, metal1) = new_library("spare");
    let nl = Pair { moves: 2 }.connectivity(&mut lib, &metal1);
    let cells = read_cells(&lib, &nl);
    let router = ManhattanRouter::new(WireStyle::Polygon);
    let wires = |n: i64| {
        let bbox = geom::Bbox { min: geom::Point { x: 0, y: 0 }, max: geom::Point { x: 0, y: 0 } };
        let place = Placement { transforms: (0..n).map(|i| shift(i * 10_000, 0)).collect(), bbox };
        router.route(&nl, &place, &cells).unwrap()
    };
    let (two, three) = (wires(2), wires(3));
    assert_eq!(two.wires.len(), 1);
    assert_eq!(three.wires.len(), 1);
    assert!(three.failed_nets.is_empty());
    assert_eq!(format!("{:?}", two.wires[0].shapes), format!("{:?}", three.wires[0].shapes));
}

#[test]
fn lines_become_boxes_on_their_layer() {
    let (_, metal1) = new_library("boxes");
    let at = |x, y| geom::Point { x, y };
    let line = |points, width| geom::Path { points, width };
    let boxes = PolygonWireStylizer.stylize(metal1, line(vec![at(0, 0), at(100, 0), at(100, 50)], 20)).unwrap();
    assert_eq!(boxes.len(), 2);
    assert!(boxes.iter().all(|(l, _)| *l == metal1));
    assert!(matches!(
        boxes[1].1,
        geom::Shape::Box(geom::Bbox { min: geom::Point { x: 90, y: -10 }, max: geom::Point { x: 110, y: 60 } })
    ));
    assert!(PolygonWireStylizer.stylize(metal1, line(vec![at(5, 5)], 20)).unwrap().is_empty());
    assert!(PolygonWireStylizer.stylize(metal1, line(vec![at(0, 0), at(i64::MAX, 0)], 20)).is_none());
}
