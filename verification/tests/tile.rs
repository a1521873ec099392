//! Rails, edges and grids of tiles.

use klayout_core::{CellBuilder, CellId, LayerIndex, LayerInfo, Library};
use rlx_eda::double::Real;
use rlx_eda::geom::Vec2;
use rlx_eda::tile::{current_density_check, tile_grid, EdgePort, GridError, PdnCheck, PdnError, RailSpec, Side, Tile};

fn dbl(v: f64) -> Real {
    Real { bits: v.to_bits() }
}

/// A rail of a given width.
fn rail(width_dbu: i64) -> RailSpec {
    let lib = Library::new("pdn-test", 1000);
    let m1: LayerIndex = lib.layer(LayerInfo::gds(10, 0));
    let m2: LayerIndex = lib.layer(LayerInfo::gds(11, 0));
    RailSpec {
        vdd_layer: m1,
        gnd_layer: m2,
        width_dbu,
        dbu_per_um: 1000,
        vdd_tracks: vec![0],
        gnd_tracks: vec![1_000],
    }
}

fn check(r: &RailSpec, per_tile: f64, tiles: usize) -> Result<(), PdnError> {
    current_density_check(r, dbl(per_tile), tiles, dbl(1.0))
}

#[test]
fn passes_when_actual_within_budget() {
    // 2 µm carry 2 mA; 16 tiles of 0.1 mA take 1.6 mA.
    let r = rail(2_000);
    assert!(check(&r, 0.1, 16).is_ok());
}

#[test]
fn fails_when_actual_exceeds_budget() {
    // 1 µm carries 1 mA; 256 tiles of 0.1 mA take 25.6 mA.
    let r = rail(1_000);
    let err = check(&r, 0.1, 256).unwrap_err();
    let s = err.message();
    assert!(s.contains("exceeds budget"), "got: {s}");
    assert!(s.contains("vdd"), "should localize to a rail: {s}");
    assert_eq!(s, "strap current 25.600 mA exceeds budget 1.000 mA on rail vdd");
}

#[test]
fn passes_at_zero_tiles() {
    let r = rail(1_000);
    assert!(check(&r, 1.0, 0).is_ok());
}

#[test]
fn rejects_non_positive_width() {
    let r = rail(0);
    assert!(check(&r, 0.1, 1).is_err());
    assert_eq!(check(&r, 0.1, 1).unwrap_err().message(), "RailSpec.width_dbu must be > 0 (was 0)");
    let mut r = rail(1_000);
    r.dbu_per_um = -5;
    assert_eq!(check(&r, 0.1, 1).unwrap_err().message(), "RailSpec.dbu_per_um must be > 0 (was -5)");
}

#[test]
fn boundary_at_exact_budget_passes() {
    // 10 tiles of 0.1 mA take exactly the 1 mA that 1 µm carries.
    let r = rail(1_000);
    assert!(check(&r, 0.1, 10).is_ok());
}

struct Block {
    layer: LayerIndex,
    east_name: &'static str,
    powered: bool,
}

impl Tile<()> for Block {
    fn name(&self) -> String {
        "mac".into()
    }

    fn pitch(&self) -> Vec2 {
        Vec2 { x: 10_000, y: 7_000 }
    }

    fn rails(&self, _pdk: &()) -> RailSpec {
        let tracks = if self.powered { vec![0] } else { vec![] };
        RailSpec {
            vdd_layer: self.layer,
            gnd_layer: self.layer,
            width_dbu: 1_000,
            dbu_per_um: 1000,
            vdd_tracks: tracks,
            gnd_tracks: vec![],
        }
    }

    fn edge_ports(&self, side: Side, _pdk: &()) -> Vec<EdgePort> {
        let name = match side {
            Side::East => self.east_name,
            _ => "d0",
        };
        vec![EdgePort { name: name.into(), side, offset_dbu: 500, layer: self.layer }]
    }

    fn layout(&self, lib: &mut Library, _pdk: &()) -> CellId {
        lib.insert(CellBuilder::new("mac"))
    }
}

#[test]
fn grids_repeat_a_tile_at_its_pitch() {
    let mut lib = Library::new("grid", 1000);
    let layer = lib.layer(LayerInfo::gds(10, 0));
    let tile = Block { layer, east_name: "d0", powered: true };
    let id = tile_grid(&tile, 3, 2, &mut lib, &(), None).unwrap().unwrap();
    let cell = lib.get(id);
    assert_eq!(cell.name().as_str(), "mac__grid_3x2");
    let at: Vec<(i64, i64)> = cell.instances().iter().map(|i| (i.trans.disp.x, i.trans.disp.y)).collect();
    assert_eq!(
        at,
        [(0, 0), (10_000, 0), (20_000, 0), (0, 7_000), (10_000, 7_000), (20_000, 7_000)]
    );
}

#[test]
fn grids_are_refused_with_a_reason() {
    let mut lib = Library::new("grid", 1000);
    let layer = lib.layer(LayerInfo::gds(10, 0));
    let dark = Block { layer, east_name: "d0", powered: false };
    let e = tile_grid(&dark, 2, 2, &mut lib, &(), None).unwrap_err();
    assert!(matches!(e, GridError::RailMismatch(_)));

    let odd = Block { layer, east_name: "q0", powered: true };
    let e = tile_grid(&odd, 2, 1, &mut lib, &(), None).unwrap_err();
    assert_eq!(
        e.message(),
        "edge port mismatch on West: d0 (West) ↔ q0 (East): offset 500 vs 500, layer mismatch=false"
    );
    // Copies that would lie beyond the last coordinate are not built.
    let plain = Block { layer, east_name: "d0", powered: true };
    assert!(tile_grid(&plain, usize::MAX, 1, &mut lib, &(), None).unwrap().is_none());
    // A single column has no neighbours to its sides.
    assert!(tile_grid(&odd, 1, 2, &mut lib, &(), None).is_ok());

    let tile = Block { layer, east_name: "d0", powered: true };
    let pdn = PdnCheck { per_tile_peak_ma: dbl(0.5), jmax_ma_per_um: dbl(1.0) };
    assert!(tile_grid(&tile, 2, 1, &mut lib, &(), Some(pdn)).is_ok());
    let e = tile_grid(&tile, 1, 3, &mut lib, &(), Some(pdn)).unwrap_err();
    assert_eq!(e.message(), "PDN: strap current 1.500 mA exceeds budget 1.000 mA on rail vdd");
}
