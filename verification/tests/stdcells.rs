//! Standard cells and their stand-ins.

use klayout_core::{Bbox, CellBuilder, LayerIndex, LayerInfo, Library, Point, Rect};
use rlx_eda::geom;
use rlx_eda::mock::{mock_cell_names, populate_mock_sc_hd};
use rlx_eda::stdcells::{
    build_composite, default_sc_hd_path, list_gds_places, list_versions_dirs, GdsRead, LibertyRead,
    LibraryError, ScHdLibrary, StdCell,
};

fn library(name: &str) -> (Library, LayerIndex) {
    let lib = Library::new(name, 1000);
    let metal1 = lib.layer(LayerInfo::gds(68, 20));
    (lib, metal1)
}

fn lib_with_mocks() -> ScHdLibrary {
    let (mut library, metal1) = library("area-sum");
    let cells = populate_mock_sc_hd(&mut library, metal1);
    ScHdLibrary { library, cells }
}

fn at(x: i64, y: i64) -> geom::Point {
    geom::Point { x, y }
}

#[test]
fn sum_area_returns_per_cell_total() {
    let l = lib_with_mocks();
    let sum = l.sum_area_um2_x1000(&[("sky130_fd_sc_hd__nand2_1", 1)]).expect("nand2_1 has metadata");
    assert_eq!(sum, 6_256);
}

#[test]
fn sum_area_scales_linearly_with_count() {
    let l = lib_with_mocks();
    let one = l.sum_area_um2_x1000(&[("sky130_fd_sc_hd__inv_1", 1)]).unwrap();
    let ten = l.sum_area_um2_x1000(&[("sky130_fd_sc_hd__inv_1", 10)]).unwrap();
    assert_eq!(ten, one * 10);
}

#[test]
fn sum_area_aggregates_across_multiple_cell_types() {
    let l = lib_with_mocks();
    let inv_area = l.sum_area_um2_x1000(&[("sky130_fd_sc_hd__inv_1", 1)]).unwrap();
    let nand_area = l.sum_area_um2_x1000(&[("sky130_fd_sc_hd__nand2_1", 1)]).unwrap();
    let combined = l
        .sum_area_um2_x1000(&[("sky130_fd_sc_hd__inv_1", 3), ("sky130_fd_sc_hd__nand2_1", 2)])
        .unwrap();
    assert_eq!(combined, 3 * inv_area + 2 * nand_area);
}

#[test]
fn sum_area_returns_none_for_unknown_cell() {
    let l = lib_with_mocks();
    let sum = l.sum_area_um2_x1000(&[("sky130_fd_sc_hd__no_such_cell", 1)]);
    assert!(sum.is_none());
}

#[test]
fn sum_area_handles_empty_inventory() {
    let l = lib_with_mocks();
    let sum = l.sum_area_um2_x1000(&[]).expect("empty inventory");
    assert_eq!(sum, 0);
}

#[test]
fn sums_that_do_not_fit_are_none() {
    let l = lib_with_mocks();
    assert!(l.sum_area_um2_x1000(&[("sky130_fd_sc_hd__inv_1", usize::MAX)]).is_none());
}

#[test]
fn populate_inserts_every_advertised_cell() {
    let (mut lib, metal1) = library("mock-test");
    let cells = populate_mock_sc_hd(&mut lib, metal1);
    let names = mock_cell_names();
    assert_eq!(cells.len(), names.len(), "populate should produce one StdCellRef per advertised name");
    for name in &names {
        assert!(cells.contains_key(name), "missing {name}");
        assert!(lib.by_name(name).is_some(), "cell {name} not registered in target library");
        let b = lib.get(cells.find(name).unwrap().cell_id).local_bbox();
        assert_eq!((b.min.x, b.min.y, b.max.y), (0, 0, 2_720));
    }
}

#[test]
fn mock_cells_carry_liberty_metadata_with_nonzero_area() {
    let (mut lib, metal1) = library("mock-meta-test");
    let cells = populate_mock_sc_hd(&mut lib, metal1);
    let nand = cells.find("sky130_fd_sc_hd__nand2_1").expect("nand2_1 mock");
    let meta = nand.metadata.as_ref().expect("metadata");
    assert!(meta.area_um2_x1000 > 0);
    let inv = cells.find("sky130_fd_sc_hd__inv_1").unwrap();
    assert!(
        nand.metadata.as_ref().unwrap().area_um2_x1000 > inv.metadata.as_ref().unwrap().area_um2_x1000
    );
}

#[test]
fn stdcell_layout_resolves_against_mock_library() {
    let (mut lib, metal1) = library("mock-stdcell-test");
    let _ = populate_mock_sc_hd(&mut lib, metal1);
    let cell = StdCell::new("sky130_fd_sc_hd__nand2_1", "u_test");
    let cid = cell.layout(&lib, &());
    assert_eq!(cid, lib.by_name("sky130_fd_sc_hd__nand2_1").unwrap());
    assert_eq!(cell.name(), "sky130_fd_sc_hd__nand2_1__u_test");
}

#[test]
fn build_composite_against_mock_library_produces_correct_instance_count() {
    let (mut lib, metal1) = library("mock-composite-test");
    let _ = populate_mock_sc_hd(&mut lib, metal1);
    let mut row = CellBuilder::new("mock_row0");
    let cells: Vec<_> = (0..4)
        .map(|i| (StdCell::new("sky130_fd_sc_hd__dfxtp_1", &format!("wreg_{i}")), at(i * 2_300, 0)))
        .chain((0..4).map(|i| {
            (StdCell::new("sky130_fd_sc_hd__and2_1", &format!("pp_{i}")), at(4 * 2_300 + i * 1_290, 0))
        }))
        .collect();
    build_composite(&mut row, &lib, &(), &cells);
    let frozen = row.freeze(&lib);
    assert_eq!(frozen.instances().len(), 8);
}

/// A square cell of its own size.
fn distinct_test_cell(name: &str, layer: LayerIndex, mark: i64) -> CellBuilder {
    let mut b = CellBuilder::new(name);
    b.add_shape(layer, Rect::new(Bbox::new(Point::new(0, 0), Point::new(mark, mark))));
    b
}

#[test]
fn layout_resolves_cell_by_name_in_target_library() {
    let (lib, metal1) = library("test");
    let cell_id = lib.insert(distinct_test_cell("sky130_fd_sc_hd__nand2_1", metal1, 100));
    let cell = StdCell::new("sky130_fd_sc_hd__nand2_1", "u1");
    let resolved = cell.layout(&lib, &());
    assert_eq!(resolved, cell_id, "StdCell::layout should resolve to the inserted CellId");
}

#[test]
fn missing_cells_are_not_resolved() {
    let (lib, _) = library("test");
    assert!(StdCell::new("sky130_fd_sc_hd__no_such_cell", "u1").resolve(&lib).is_none());
}

#[test]
fn build_composite_instances_each_child_at_its_origin() {
    let (lib, metal1) = library("test");
    let nand = lib.insert(distinct_test_cell("sky130_fd_sc_hd__nand2_1", metal1, 100));
    let inv = lib.insert(distinct_test_cell("sky130_fd_sc_hd__inv_1", metal1, 200));
    let mut parent = CellBuilder::new("composite_under_test");
    build_composite(
        &mut parent,
        &lib,
        &(),
        &[
            (StdCell::new("sky130_fd_sc_hd__nand2_1", "u1"), at(0, 0)),
            (StdCell::new("sky130_fd_sc_hd__inv_1", "u2"), at(2_000, 0)),
        ],
    );
    let frozen = parent.freeze(&lib);
    assert_eq!(frozen.instances().len(), 2, "expected one Instance per composite child");
    let placed: Vec<_> = frozen.instances().iter().map(|i| (i.cell, i.trans.disp.x)).collect();
    assert_eq!(placed, vec![(nand, 0), (inv, 2_000)]);
}

#[test]
fn libraries_are_indexed_with_their_metadata() {
    let (lib, metal1) = library("load");
    let nand = lib.insert(distinct_test_cell("nand", metal1, 100));
    lib.insert(distinct_test_cell("inv", metal1, 200));
    let text = "library (x) { cell (\"nand\") { area : 1.5; } cell (\"nand\") { area : 2.5; } }";
    let l = ScHdLibrary::load("/t/x.gds", GdsRead::Read(lib), LibertyRead::Text(text.into())).ok().unwrap();
    assert_eq!(l.cell_names(), ["inv", "nand"]);
    assert_eq!(l.get("nand").unwrap().cell_id, nand);
    // The last entry for a cell counts.
    assert_eq!(l.get("nand").unwrap().metadata.as_ref().unwrap().area_um2_x1000, 2_500);
    assert!(l.get("inv").unwrap().metadata.is_none());
    assert!(l.sum_area_um2_x1000(&[("inv", 1)]).is_none());
    assert_eq!(l.get("nor").unwrap_err().message(), "cell nor not found in imported library");
}

#[test]
fn libraries_that_cannot_be_read_say_why() {
    let gds = || GdsRead::Read(library("load").0);
    let e = |g: GdsRead, t: LibertyRead| ScHdLibrary::load("/t/x.gds", g, t).err().unwrap();
    assert_eq!(e(GdsRead::Missing, LibertyRead::Absent).message(), "foundry library not found at /t/x.gds");
    assert_eq!(e(GdsRead::Failed("bad".into()), LibertyRead::Absent).message(), "GDS read failure: bad");
    assert_eq!(e(gds(), LibertyRead::Failed("denied".into())).message(), "Liberty read failure: denied");
    let bad = e(gds(), LibertyRead::Text("library (\"x".into()));
    assert!(matches!(bad, LibraryError::Liberty(_)));
    assert_eq!(bad.message(), "Liberty parse failure: Liberty parse error: unterminated string");
    assert!(ScHdLibrary::load("/t/x.gds", gds(), LibertyRead::Absent).is_ok());
}

#[test]
fn layouts_are_looked_for_in_order() {
    assert_eq!(
        list_versions_dirs(Some("/pdk"), Some("/home/u")),
        [
            "/pdk/ciel/sky130/versions",
            "/pdk/volare/sky130/versions",
            "/home/u/.ciel/ciel/sky130/versions",
            "/home/u/.ciel/volare/sky130/versions",
            "/home/u/.volare/ciel/sky130/versions",
            "/home/u/.volare/volare/sky130/versions",
        ]
    );
    let versions = vec!["/v/1".to_string()];
    let places = list_gds_places(Some("/given.gds"), &versions);
    assert_eq!(places.len(), 5);
    assert_eq!(places[1], "/v/1/sky130A/libs.ref/sky130_fd_sc_hd/gds/sky130_fd_sc_hd.gds");
    let pick = |p: [bool; 5]| default_sc_hd_path(Some("/given.gds"), &versions, &p.to_vec());
    assert_eq!(pick([true, true, false, false, true]), "/given.gds");
    assert_eq!(pick([false, false, true, false, true]), places[2]);
    assert_eq!(pick([false; 5]), places[3]);
}

#[test]
fn stand_ins_are_listed_under_their_names() {
    let (mut lib, metal1) = library("mock-names");
    let cells = populate_mock_sc_hd(&mut lib, metal1);
    let names = mock_cell_names();
    assert_eq!(names, mock_cell_names());
    for (i, name) in names.iter().enumerate() {
        assert!(!names[..i].contains(name), "{name} is there twice");
        assert_eq!(lib.by_name(name), Some(cells.find(name).unwrap().cell_id));
    }
    assert!(!cells.contains_key("sky130_fd_sc_hd__inv_2"));
    // A second time the same cells come back.
    let again = populate_mock_sc_hd(&mut lib, metal1);
    assert_eq!(lib.cell_count(), names.len());
    for name in &names {
        assert_eq!(again.find(name).unwrap().cell_id, cells.find(name).unwrap().cell_id);
    }
}
