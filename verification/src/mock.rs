//! Stand-ins for the most common foundry cells: boxes of the right name and size, for
//! placement without the foundry's own layouts. They cannot be wired or timed.

use crate::geom;
use crate::geom::{Bbox, Point, Shape, ShapeModel};
use crate::layout;
use crate::liberty;
use crate::liberty::LibertyMetadata;
use crate::ordmap::NameMap;
use crate::stdcells;
use crate::stdcells::{RefModel, StdCellRef};
use crate::text;
use klayout_core::{CellBuilder, CellId, LayerIndex, Library};
use vstd::prelude::*;
use vstd::string::*;

verus! {

/// The height of a row, in database units.
pub const SC_HD_HEIGHT_DBU: i64 = 2_720;

/// What is known of a stand-in: its name, its width in database units and its area in
/// thousandths of a square micron.
#[derive(Debug, Clone, Copy)]
pub struct MockSpec {
    pub name: &'static str,
    pub width_dbu: i64,
    pub area_um2_x1000: u64,
}

#[verifier::ext_equal]
pub struct MockModel {
    pub name: Seq<char>,
    pub width_dbu: int,
    pub area_um2_x1000: nat,
}

impl MockSpec {
    pub open spec fn model(self) -> MockModel {
        MockModel {
            name: self.name@,
            width_dbu: self.width_dbu as int,
            area_um2_x1000: self.area_um2_x1000 as nat,
        }
    }
}

pub open spec fn mock(name: Seq<char>, width_dbu: int, area_um2_x1000: nat) -> MockModel {
    MockModel { name, width_dbu, area_um2_x1000 }
}

/// All stand-ins.
pub open spec fn mock_cells() -> Seq<MockModel> {
    seq![
        mock("sky130_fd_sc_hd__inv_1"@, 1_840, 5_005),
        mock("sky130_fd_sc_hd__buf_1"@, 1_840, 5_005),
        mock("sky130_fd_sc_hd__nand2_1"@, 2_300, 6_256),
        mock("sky130_fd_sc_hd__nor2_1"@, 2_300, 6_256),
        mock("sky130_fd_sc_hd__and2_1"@, 1_290, 3_509),
        mock("sky130_fd_sc_hd__fa_1"@, 3_680, 10_010),
        mock("sky130_fd_sc_hd__dfxtp_1"@, 2_300, 6_256),
        mock("sky130_fd_sc_hd__mux2_1"@, 3_680, 10_010),
    ]
}

pub open spec fn spec_models(v: Seq<MockSpec>) -> Seq<MockModel> {
    v.map_values(|m: MockSpec| m.model())
}

fn mock_of(name: &'static str, width_dbu: i64, area_um2_x1000: u64) -> (res: MockSpec)
    ensures
        res.model() == mock(name@, width_dbu as int, area_um2_x1000 as nat),
{
    MockSpec { name, width_dbu, area_um2_x1000 }
}

/// Lists all stand-ins.
fn mock_table() -> (res: Vec<MockSpec>)
    ensures
        spec_models(res@) == mock_cells(),
{
    let mut v: Vec<MockSpec> = Vec::new();
    v.push(mock_of("sky130_fd_sc_hd__inv_1", 1_840, 5_005));
    v.push(mock_of("sky130_fd_sc_hd__buf_1", 1_840, 5_005));
    v.push(mock_of("sky130_fd_sc_hd__nand2_1", 2_300, 6_256));
    v.push(mock_of("sky130_fd_sc_hd__nor2_1", 2_300, 6_256));
    v.push(mock_of("sky130_fd_sc_hd__and2_1", 1_290, 3_509));
    v.push(mock_of("sky130_fd_sc_hd__fa_1", 3_680, 10_010));
    v.push(mock_of("sky130_fd_sc_hd__dfxtp_1", 2_300, 6_256));
    v.push(mock_of("sky130_fd_sc_hd__mux2_1", 3_680, 10_010));
    assert(spec_models(v@) =~= mock_cells());
    v
}

/// The names of all stand-ins, always in the same order.
pub fn mock_cell_names() -> (res: Vec<&'static str>)
    ensures
        text::str_texts(res@) == mock_cells().map_values(|m: MockModel| m.name),
{
    let table = mock_table();
    let ghost names = mock_cells().map_values(|m: MockModel| m.name);
    let mut out: Vec<&'static str> = Vec::new();
    let mut i: usize = 0;
    while i < table.len()
        invariant
            i <= table@.len(),
            spec_models(table@) == mock_cells(),
            names == mock_cells().map_values(|m: MockModel| m.name),
            text::str_texts(out@) =~= names.take(i as int),
        decreases table@.len() - i,
    {
        let ghost before = out@;
        assert(mock_cells()[i as int] == table@[i as int].model());
        out.push(table[i].name);
        assert(text::str_texts(out@) =~= text::str_texts(before).push(names[i as int]));
        i = i + 1;
    }
    assert(spec_models(table@).len() == table@.len());
    assert(names.take(table@.len() as int) =~= names);
    out
}

/// The box of a stand-in.
pub open spec fn body(m: MockModel) -> Bbox {
    Bbox {
        min: Point { x: 0, y: 0 },
        max: Point { x: m.width_dbu as i64, y: SC_HD_HEIGHT_DBU },
    }
}

/// A box of one unit that tells the `i`-th stand-in from others of the same size.
pub open spec fn marker(i: int) -> Bbox {
    Bbox { min: Point { x: i as i64, y: 0 }, max: Point { x: (i + 1) as i64, y: 1 } }
}

/// Whether a cell is the `i`-th stand-in, on a layer.
pub open spec fn is_mock(b: CellBuilder, layer: LayerIndex, i: int) -> bool {
    &&& layout::builder_name(b) == mock_cells()[i].name
    &&& layout::builder_instances(b).len() == 0
    &&& layout::builder_ports(b).len() == 0
    &&& layout::builder_shapes(b) == layout::with_shape(
        layout::with_shape(layout::no_shapes(), layer, ShapeModel::Box(body(mock_cells()[i]))),
        layer,
        ShapeModel::Box(marker(i)),
    )
}

/// Whether one library comes of another by adding the `i`-th stand-in.
pub open spec fn mock_added(
    before: Library,
    after: Library,
    id: CellId,
    layer: LayerIndex,
    i: int,
) -> bool {
    exists|b: CellBuilder|
        is_mock(b, layer, i) && #[trigger] layout::inserted(before, after, id, b)
}

/// Whether libraries come one of the other by adding stand-ins in order.
pub open spec fn stocked(libs: Seq<Library>, ids: Seq<CellId>, layer: LayerIndex) -> bool {
    &&& libs.len() == ids.len() + 1
    &&& forall|i: int|
        0 <= i < ids.len() ==> mock_added(libs[i], libs[i + 1], #[trigger] ids[i], layer, i)
}

/// What is known of a stand-in in a library.
pub open spec fn mock_ref(m: MockModel, id: CellId) -> RefModel {
    RefModel {
        name: m.name,
        cell_id: id,
        metadata: Some(
            liberty::CellModel { name: m.name, area: m.area_um2_x1000, pins: Seq::empty() },
        ),
    }
}

/// What is known of the first `n` stand-ins, by name.
pub open spec fn mock_index(ids: Seq<CellId>, n: int) -> Map<Seq<char>, RefModel>
    decreases n,
{
    if n <= 0 {
        Map::empty()
    } else {
        mock_index(ids, n - 1).insert(
            mock_cells()[n - 1].name,
            mock_ref(mock_cells()[n - 1], ids[n - 1]),
        )
    }
}

proof fn lemma_mock_index(ids: Seq<CellId>, id: CellId, n: int)
    requires
        n <= ids.len(),
    ensures
        mock_index(ids.push(id), n) == mock_index(ids, n),
    decreases n,
{
    if n > 0 {
        lemma_mock_index(ids, id, n - 1);
        assert(ids.push(id)[n - 1] == ids[n - 1]);
    }
}

fn build_mock(m: &MockSpec, layer: LayerIndex, i: usize) -> (b: CellBuilder)
    requires
        i < mock_cells().len(),
        m.model() == mock_cells()[i as int],
    ensures
        is_mock(b, layer, i as int),
{
    let mut b = layout::new_builder(m.name);
    let outline = Shape::Box(
        Bbox {
            min: Point { x: 0, y: 0 },
            max: Point { x: m.width_dbu, y: SC_HD_HEIGHT_DBU },
        },
    );
    layout::add_shape(&mut b, layer, &outline);
    let x: i64 = i as i64;
    let mark = Shape::Box(Bbox { min: Point { x, y: 0 }, max: Point { x: x + 1, y: 1 } });
    layout::add_shape(&mut b, layer, &mark);
    b
}

/// Adds all stand-ins to a library, as boxes on a layer, and lists them by name.
pub fn populate_mock_sc_hd(lib: &mut Library, metal1: LayerIndex) -> (res: NameMap<StdCellRef>)
    requires
        layout::library_layers(*old(lib)).contains(metal1),
        layout::library_listing(*old(lib)).len() + mock_cells().len() <= 0xffff_ffff,
    ensures
        exists|libs: Seq<Library>, ids: Seq<CellId>| #[trigger]
            stocked(libs, ids, metal1) && ids.len() == mock_cells().len() && libs.first() == *old(
                lib,
            ) && libs.last() == *final(lib) && stdcells::ref_models(res@) == mock_index(
                ids,
                mock_cells().len() as int,
            ),
{
    let ghost before = *lib;
    let ghost mut ids: Seq<CellId> = Seq::empty();
    let ghost mut libs: Seq<Library> = seq![*lib];
    let table = mock_table();
    let mut cells: NameMap<StdCellRef> = NameMap::new();
    assert(stdcells::ref_models(cells@) =~= mock_index(ids, 0));
    assert(spec_models(table@).len() == table@.len());
    let mut i: usize = 0;
    while i < table.len()
        invariant
            i <= table@.len(),
            table@.len() == mock_cells().len(),
            spec_models(table@) == mock_cells(),
            before == *old(lib),
            layout::library_layers(before).contains(metal1),
            layout::library_layers(*lib) == layout::library_layers(before),
            layout::library_listing(before).len() + mock_cells().len() <= 0xffff_ffff,
            layout::library_listing(*lib).len() <= layout::library_listing(before).len() + i,
            ids.len() == i,
            stocked(libs, ids, metal1),
            libs.first() == before,
            libs.last() == *lib,
            stdcells::ref_models(cells@) =~= mock_index(ids, i as int),
        decreases table@.len() - i,
    {
        let ghost mid = *lib;
        let ghost had = cells@;
        let ghost ids0 = ids;
        assert(mock_cells()[i as int] == table@[i as int].model());
        let b = build_mock(&table[i], metal1, i);
        let ghost cell = b;
        proof {
            assert(layout::builder_shapes(b).dom() =~= set![metal1]);
        }
        let id: CellId = layout::insert(lib, b);
        let m = LibertyMetadata {
            cell_name: table[i].name.to_owned(),
            area_um2_x1000: table[i].area_um2_x1000,
            pins: Vec::new(),
        };
        let r = StdCellRef { name: table[i].name.to_owned(), cell_id: id, metadata: Some(m) };
        proof {
            assert(liberty::pin_models(m.pins@) =~= Seq::empty());
            let libs0 = libs;
            ids = ids0.push(id);
            libs = libs0.push(*lib);
            lemma_mock_index(ids0, id, i as int);
            assert(layout::inserted(mid, *lib, id, cell));
            assert(mock_added(mid, *lib, id, metal1, i as int));
            assert forall|k: int| 0 <= k < ids.len() implies mock_added(
                libs[k],
                libs[k + 1],
                #[trigger] ids[k],
                metal1,
                k,
            ) by {
                if k < i {
                    assert(mock_added(libs0[k], libs0[k + 1], ids0[k], metal1, k));
                }
            }
            assert(r.model() == mock_ref(mock_cells()[i as int], id));
        }
        cells.set(table[i].name, r);
        assert(stdcells::ref_models(had.insert(table@[i as int].name@, r)) =~= stdcells::ref_models(
            had,
        ).insert(table@[i as int].name@, r.model()));
        i = i + 1;
    }
    assert(stocked(libs, ids, metal1));
    cells
}

/// The extents of each stand-in are those of the foundry's cell: their product, rounded to
/// a thousandth of a square micron, is its area.
pub proof fn extents_match_areas(i: int)
    requires
        0 <= i < mock_cells().len(),
    ensures
        -500 <= mock_cells()[i].width_dbu * SC_HD_HEIGHT_DBU - 1000
            * mock_cells()[i].area_um2_x1000 <= 500,
{
}

/// A stand-in that is new in its library has the box of its body around it.
pub proof fn new_mocks_have_their_extents(
    before: Library,
    after: Library,
    id: CellId,
    b: CellBuilder,
    layer: LayerIndex,
    i: int,
)
    requires
        0 <= i < mock_cells().len(),
        is_mock(b, layer, i),
        layout::inserted(before, after, id, b),
        !layout::library_cells(before).contains_key(id),
    ensures
        layout::library_cells(after)[id].bbox == body(mock_cells()[i]),
{
    let shapes = layout::builder_shapes(b);
    assert(shapes.dom() =~= set![layer]);
    assert(shapes[layer] =~= seq![
        ShapeModel::Box(body(mock_cells()[i])),
        ShapeModel::Box(marker(i)),
    ]);
    assert(layout::only_boxes(shapes, layer));
    reveal_with_fuel(layout::box_around, 3);
}

/// No two stand-ins have the same name, and none is without one.
pub proof fn mock_names_are_distinct(i: int, j: int)
    requires
        0 <= i < mock_cells().len(),
        0 <= j < mock_cells().len(),
        i != j,
    ensures
        mock_cells()[i].name != mock_cells()[j].name,
        mock_cells()[i].name.len() > 0,
{
    reveal_strlit("sky130_fd_sc_hd__inv_1");
    reveal_strlit("sky130_fd_sc_hd__buf_1");
    reveal_strlit("sky130_fd_sc_hd__nand2_1");
    reveal_strlit("sky130_fd_sc_hd__nor2_1");
    reveal_strlit("sky130_fd_sc_hd__and2_1");
    reveal_strlit("sky130_fd_sc_hd__fa_1");
    reveal_strlit("sky130_fd_sc_hd__dfxtp_1");
    reveal_strlit("sky130_fd_sc_hd__mux2_1");
    let a = mock_cells()[i].name;
    let b = mock_cells()[j].name;
    assert(a.len() != b.len() || a[17] != b[17] || a[16] != b[16]);
}

/// The stand-ins are listed under their names and under nothing else: each under its own,
/// with the cell that was added for it and an area.
pub proof fn mocks_are_listed_by_name(ids: Seq<CellId>)
    ensures
        forall|name: Seq<char>| #[trigger]
            mock_index(ids, mock_cells().len() as int).contains_key(name) <==> exists|i: int|
                0 <= i < mock_cells().len() && #[trigger] mock_cells()[i].name == name,
        forall|i: int|
            0 <= i < mock_cells().len() ==> mock_index(ids, mock_cells().len() as int)[(
            #[trigger] mock_cells()[i]).name] == mock_ref(mock_cells()[i], ids[i])
                && mock_cells()[i].area_um2_x1000 > 0,
{
    assert forall|name: Seq<char>| #[trigger]
        mock_index(ids, mock_cells().len() as int).contains_key(name) implies exists|i: int|
        0 <= i < mock_cells().len() && #[trigger] mock_cells()[i].name == name by {
        lemma_only_names(ids, name, mock_cells().len() as int);
    }
    assert forall|i: int| 0 <= i < mock_cells().len() implies mock_index(
        ids,
        mock_cells().len() as int,
    ).contains_key((#[trigger] mock_cells()[i]).name) && mock_index(
        ids,
        mock_cells().len() as int,
    )[mock_cells()[i].name] == mock_ref(mock_cells()[i], ids[i]) by {
        lemma_listed(ids, i, mock_cells().len() as int);
    }
}

proof fn lemma_only_names(ids: Seq<CellId>, name: Seq<char>, n: int)
    requires
        0 <= n <= mock_cells().len(),
        mock_index(ids, n).contains_key(name),
    ensures
        exists|i: int| 0 <= i < n && #[trigger] mock_cells()[i].name == name,
    decreases n,
{
    if mock_cells()[n - 1].name != name {
        lemma_only_names(ids, name, n - 1);
    }
}

proof fn lemma_listed(ids: Seq<CellId>, i: int, n: int)
    requires
        0 <= i < n <= mock_cells().len(),
    ensures
        mock_index(ids, n).contains_key(mock_cells()[i].name),
        mock_index(ids, n)[mock_cells()[i].name] == mock_ref(mock_cells()[i], ids[i]),
    decreases n,
{
    if i < n - 1 {
        lemma_listed(ids, i, n - 1);
        mock_names_are_distinct(i, n - 1);
    }
}

/// After stocking, a library finds by its name each stand-in that it had no cell of the
/// same content for: the cell that was added for it, unless it had one of that name.
pub proof fn new_mocks_are_found_by_name(
    libs: Seq<Library>,
    ids: Seq<CellId>,
    layer: LayerIndex,
    i: int,
)
    requires
        stocked(libs, ids, layer),
        ids.len() == mock_cells().len(),
        0 <= i < ids.len(),
        !layout::library_cells(libs[i]).contains_key(ids[i]),
    ensures
        layout::named(libs.last(), mock_cells()[i].name) == (match layout::named(
            libs.first(),
            mock_cells()[i].name,
        ) {
            Some(earlier) => Some(earlier),
            None => Some(ids[i]),
        }),
{
    let name = mock_cells()[i].name;
    assert forall|k: int| 0 <= k < mock_cells().len() && k != i implies (
    #[trigger] mock_cells()[k]).name != name by {
        mock_names_are_distinct(i, k);
    }
    lemma_others_keep_it(libs, ids, layer, name, 0, i);
    let b = choose|b: CellBuilder|
        is_mock(b, layer, i) && #[trigger] layout::inserted(libs[i], libs[i + 1], ids[i], b);
    mock_names_are_distinct(i, if i == 0 {
        1
    } else {
        0
    });
    layout::new_cells_are_found_by_name(libs[i], libs[i + 1], ids[i], b, name);
    lemma_others_keep_it(libs, ids, layer, name, i + 1, ids.len() as int);
}

proof fn lemma_others_keep_it(
    libs: Seq<Library>,
    ids: Seq<CellId>,
    layer: LayerIndex,
    name: Seq<char>,
    from: int,
    to: int,
)
    requires
        stocked(libs, ids, layer),
        ids.len() == mock_cells().len(),
        0 <= from <= to <= ids.len(),
        forall|k: int| from <= k < to ==> (#[trigger] mock_cells()[k]).name != name,
    ensures
        layout::named(libs[to], name) == layout::named(libs[from], name),
    decreases to - from,
{
    if from < to {
        let k = to - 1;
        lemma_others_keep_it(libs, ids, layer, name, from, k);
        assert(mock_added(libs[k], libs[k + 1], ids[k], layer, k));
        let b = choose|b: CellBuilder|
            is_mock(b, layer, k) && #[trigger] layout::inserted(libs[k], libs[k + 1], ids[k], b);
        assert(mock_cells()[k].name != name);
        layout::new_cells_are_found_by_name(libs[k], libs[k + 1], ids[k], b, name);
    }
}

} // verus!
