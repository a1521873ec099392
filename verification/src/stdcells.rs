//! Foundry standard cells: what is known of each by name, where they are placed, and
//! stand-ins for the most common ones.

use crate::geom;
use crate::geom::{Point, Trans, Vec2};
use crate::layout;
use crate::liberty;
use crate::liberty::LibertyMetadata;
use crate::ordmap::NameMap;
use crate::paths;
use crate::text;
use klayout_core::{CellBuilder, CellId, LayerIndex, Library};
use vstd::prelude::*;
use vstd::string::*;

verus! {

/// A foundry cell in a library.
#[derive(Debug)]
pub struct StdCellRef {
    pub name: String,
    pub cell_id: CellId,
    /// None where only the layout was read.
    pub metadata: Option<LibertyMetadata>,
}

#[verifier::ext_equal]
pub struct RefModel {
    pub name: Seq<char>,
    pub cell_id: CellId,
    pub metadata: Option<liberty::CellModel>,
}

pub open spec fn opt_metadata(m: Option<LibertyMetadata>) -> Option<liberty::CellModel> {
    match m {
        Some(c) => Some(c@),
        None => None,
    }
}

impl StdCellRef {
    pub open spec fn model(self) -> RefModel {
        RefModel {
            name: self.name@,
            cell_id: self.cell_id,
            metadata: opt_metadata(self.metadata),
        }
    }
}

pub open spec fn ref_models(m: Map<Seq<char>, StdCellRef>) -> Map<Seq<char>, RefModel> {
    m.map_values(|r: StdCellRef| r.model())
}

/// A site for a foundry cell.
#[derive(Debug, Clone, PartialEq, Eq, Hash)]
pub struct StdCell {
    pub cell_name: String,
    pub instance_id: String,
}

impl StdCell {
    pub fn new(cell_name: &str, instance_id: &str) -> (res: Self)
        ensures
            res.cell_name@ == cell_name@,
            res.instance_id@ == instance_id@,
    {
        StdCell { cell_name: cell_name.to_owned(), instance_id: instance_id.to_owned() }
    }

    /// The name of the site: that of the cell, two underscores and its own.
    pub fn name(&self) -> (res: String)
        ensures
            res@ == self.cell_name@ + "__"@ + self.instance_id@,
    {
        let mut s = self.cell_name.clone();
        s.append("__");
        s.append(self.instance_id.as_str());
        s
    }

    /// The cell for this site, if the library has one of that name.
    pub fn resolve(&self, lib: &Library) -> (res: Option<CellId>)
        ensures
            res == layout::named(*lib, self.cell_name@),
    {
        layout::by_name(lib, self.cell_name.as_str())
    }

    /// The cell for this site. Sites of one cell share it.
    pub fn layout<P>(&self, lib: &Library, _pdk: &P) -> (res: CellId)
        requires
            layout::named(*lib, self.cell_name@) is Some,
        ensures
            Some(res) == layout::named(*lib, self.cell_name@),
    {
        self.resolve(lib).unwrap()
    }
}

/// The cells of some sites, each moved to its place.
pub open spec fn placed(children: Seq<(StdCell, Point)>, lib: Library) -> Seq<(CellId, Trans)> {
    Seq::new(
        children.len(),
        |i: int|
            (
                layout::named(lib, children[i].0.cell_name@)->0,
                Trans {
                    rot: geom::Rot4::R0,
                    mirror: false,
                    disp: Vec2 { x: children[i].1.x, y: children[i].1.y },
                },
            ),
    )
}

/// Places cells in a cell that is being put together, in order.
pub fn build_composite<P>(
    b: &mut CellBuilder,
    lib: &Library,
    pdk: &P,
    children: &[(StdCell, Point)],
)
    requires
        forall|i: int|
            0 <= i < children@.len() ==> layout::named(
                *lib,
                (#[trigger] children@[i]).0.cell_name@,
            ) is Some,
    ensures
        layout::builder_instances(*final(b)) == layout::builder_instances(*old(b)) + placed(
            children@,
            *lib,
        ),
        layout::builder_name(*final(b)) == layout::builder_name(*old(b)),
        layout::builder_shapes(*final(b)) == layout::builder_shapes(*old(b)),
        layout::builder_ports(*final(b)) == layout::builder_ports(*old(b)),
{
    let ghost before = layout::builder_instances(*b);
    let ghost all = placed(children@, *lib);
    let mut i: usize = 0;
    assert(before + all.take(0) =~= before);
    while i < children.len()
        invariant
            i <= children@.len(),
            forall|i: int|
                0 <= i < children@.len() ==> layout::named(
                    *lib,
                    (#[trigger] children@[i]).0.cell_name@,
                ) is Some,
            all == placed(children@, *lib),
            layout::builder_instances(*b) == before + all.take(i as int),
            layout::builder_name(*b) == layout::builder_name(*old(b)),
            layout::builder_shapes(*b) == layout::builder_shapes(*old(b)),
            layout::builder_ports(*b) == layout::builder_ports(*old(b)),
        decreases children@.len() - i,
    {
        let (child, origin): &(StdCell, Point) = &children[i];
        assert(layout::named(*lib, children@[i as int].0.cell_name@) is Some);
        let id: CellId = child.layout(lib, pdk);
        layout::add_instance(b, id, Trans::translate(Vec2 { x: origin.x, y: origin.y }));
        i = i + 1;
        assert((before + all.take(i - 1)).push(all[i - 1]) =~= before + all.take(i as int));
    }
    assert(all.take(children@.len() as int) =~= all);
}

// ── libraries ──────────────────────────────────────────────────────

/// Why a foundry library cannot be used.
#[derive(Debug)]
pub enum LibraryError {
    NotFound(String),
    Gds(String),
    LibertyIo(String),
    Liberty(String),
    UnknownCell(String),
}

impl LibraryError {
    pub open spec fn text(self) -> Seq<char> {
        match self {
            LibraryError::NotFound(p) => "foundry library not found at "@ + p@,
            LibraryError::Gds(m) => "GDS read failure: "@ + m@,
            LibraryError::LibertyIo(m) => "Liberty read failure: "@ + m@,
            LibraryError::Liberty(m) => "Liberty parse failure: "@ + m@,
            LibraryError::UnknownCell(n) => "cell "@ + n@ + " not found in imported library"@,
        }
    }

    /// Human-readable form of the error.
    pub fn message(&self) -> (res: String)
        ensures
            res@ == self.text(),
    {
        let (head, arg, tail): (&str, &String, &str) = match self {
            LibraryError::NotFound(p) => ("foundry library not found at ", p, ""),
            LibraryError::Gds(m) => ("GDS read failure: ", m, ""),
            LibraryError::LibertyIo(m) => ("Liberty read failure: ", m, ""),
            LibraryError::Liberty(m) => ("Liberty parse failure: ", m, ""),
            LibraryError::UnknownCell(n) => ("cell ", n, " not found in imported library"),
        };
        let mut s = head.to_owned();
        s.append(arg.as_str());
        s.append(tail);
        proof {
            reveal_strlit("");
            assert(head@ + arg@ + ""@ =~= head@ + arg@);
        }
        s
    }
}

/// What came of reading a layout file.
pub enum GdsRead {
    /// There is no such file.
    Missing,
    Failed(String),
    Read(Library),
}

/// What came of reading a metadata file.
#[derive(Debug)]
pub enum LibertyRead {
    /// None was asked for, or there is none.
    Absent,
    Failed(String),
    Text(String),
}

/// A foundry library and its cells by name.
pub struct ScHdLibrary {
    pub library: Library,
    pub cells: NameMap<StdCellRef>,
}

/// The last of the first `n` entries for a cell.
pub open spec fn last_entry(
    entries: Seq<liberty::CellModel>,
    name: Seq<char>,
    n: int,
) -> Option<liberty::CellModel>
    decreases n,
{
    if n <= 0 {
        None
    } else if entries[n - 1].name == name {
        Some(entries[n - 1])
    } else {
        last_entry(entries, name, n - 1)
    }
}

/// The first `n` cells of a listing by name, a later one in place of an earlier one of
/// the same name.
pub open spec fn indexed(
    cells: Seq<(CellId, Seq<char>)>,
    entries: Seq<liberty::CellModel>,
    n: int,
) -> Map<Seq<char>, RefModel>
    decreases n,
{
    if n <= 0 {
        Map::empty()
    } else {
        let (id, name) = cells[n - 1];
        indexed(cells, entries, n - 1).insert(
            name,
            RefModel {
                name,
                cell_id: id,
                metadata: last_entry(entries, name, entries.len() as int),
            },
        )
    }
}

fn find_entry(entries: &Vec<LibertyMetadata>, name: &str) -> (res: Option<LibertyMetadata>)
    ensures
        opt_metadata(res) == last_entry(
            liberty::cell_models(entries@),
            name@,
            entries@.len() as int,
        ),
{
    let ghost ms = liberty::cell_models(entries@);
    let mut i: usize = entries.len();
    while i > 0
        invariant
            i <= entries@.len(),
            ms == liberty::cell_models(entries@),
            last_entry(ms, name@, entries@.len() as int) == last_entry(ms, name@, i as int),
        decreases i,
    {
        assert(ms[i - 1] == entries@[i - 1]@);
        if text::same(entries[i - 1].cell_name.as_str(), name) {
            return Some(entries[i - 1].duplicate());
        }
        i = i - 1;
    }
    None
}

fn index_cells(lib: &Library, entries: &Vec<LibertyMetadata>) -> (res: NameMap<StdCellRef>)
    ensures
        ref_models(res@) == indexed(
            layout::library_listing(*lib),
            liberty::cell_models(entries@),
            layout::library_listing(*lib).len() as int,
        ),
{
    let listed = layout::all_cells(lib);
    let ghost cells = layout::library_listing(*lib);
    let ghost ms = liberty::cell_models(entries@);
    let mut out: NameMap<StdCellRef> = NameMap::new();
    assert(ref_models(out@) =~= indexed(cells, ms, 0));
    assert(layout::listing_models(listed@).len() == listed@.len());
    let mut i: usize = 0;
    while i < listed.len()
        invariant
            i <= listed@.len(),
            cells == layout::listing_models(listed@),
            ms == liberty::cell_models(entries@),
            ref_models(out@) =~= indexed(cells, ms, i as int),
        decreases listed@.len() - i,
    {
        let ghost before = out@;
        let name: &String = &listed[i].1;
        let r = StdCellRef {
            name: name.clone(),
            cell_id: listed[i].0,
            metadata: find_entry(entries, name.as_str()),
        };
        let ghost m = r.model();
        assert(cells[i as int] == (listed@[i as int].0, listed@[i as int].1@));
        out.set(name.as_str(), r);
        assert(ref_models(before.insert(name@, r)) =~= ref_models(before).insert(name@, m));
        i = i + 1;
    }
    out
}

/// What a foundry library comes to, given what came of reading its files.
pub open spec fn loaded(
    res: Result<ScHdLibrary, LibraryError>,
    gds_path: Seq<char>,
    gds: GdsRead,
    liberty: LibertyRead,
) -> bool {
    match gds {
        GdsRead::Missing => res matches Err(LibraryError::NotFound(p)) && p@ == gds_path,
        GdsRead::Failed(m) => res matches Err(LibraryError::Gds(e)) && e@ == m@,
        GdsRead::Read(lib) => match liberty {
            LibertyRead::Failed(m) => res matches Err(LibraryError::LibertyIo(e)) && e@ == m@,
            LibertyRead::Absent => res matches Ok(l) && l.library == lib && ref_models(
                l.cells@,
            ) == indexed(
                layout::library_listing(lib),
                Seq::empty(),
                layout::library_listing(lib).len() as int,
            ),
            LibertyRead::Text(t) => match liberty::library_cells(t@) {
                Err(m) => res matches Err(LibraryError::Liberty(e)) && e@
                    == "Liberty parse error: "@ + m,
                Ok(entries) => res matches Ok(l) && l.library == lib && ref_models(l.cells@)
                    == indexed(
                    layout::library_listing(lib),
                    entries,
                    layout::library_listing(lib).len() as int,
                ),
            },
        },
    }
}

impl ScHdLibrary {
    /// Puts a library together from what came of reading its layout and its metadata.
    pub fn load(gds_path: &str, gds: GdsRead, liberty: LibertyRead) -> (res: Result<
        Self,
        LibraryError,
    >)
        ensures
            loaded(res, gds_path@, gds, liberty),
    {
        let library = match gds {
            GdsRead::Missing => {
                return Err(LibraryError::NotFound(gds_path.to_owned()));
            },
            GdsRead::Failed(m) => {
                return Err(LibraryError::Gds(m));
            },
            GdsRead::Read(lib) => lib,
        };
        let entries: Vec<LibertyMetadata> = match liberty {
            LibertyRead::Absent => Vec::new(),
            LibertyRead::Failed(m) => {
                return Err(LibraryError::LibertyIo(m));
            },
            LibertyRead::Text(t) => match liberty::parse_lib(t.as_str()) {
                Ok(v) => v,
                Err(e) => {
                    return Err(LibraryError::Liberty(e.message()));
                },
            },
        };
        assert(liberty is Absent ==> liberty::cell_models(entries@) =~= Seq::empty());
        let cells = index_cells(&library, &entries);
        Ok(ScHdLibrary { library, cells })
    }

    pub fn get(&self, cell_name: &str) -> (res: Result<&StdCellRef, LibraryError>)
        ensures
            match res {
                Ok(r) => self.cells@.contains_key(cell_name@) && self.cells@[cell_name@] == *r,
                Err(e) => !self.cells@.contains_key(cell_name@) && (e matches
                    LibraryError::UnknownCell(n) && n@ == cell_name@),
            },
    {
        match self.cells.find(cell_name) {
            Some(r) => Ok(r),
            None => Err(LibraryError::UnknownCell(cell_name.to_owned())),
        }
    }

    /// The names of all cells, each once, in ascending order.
    pub fn cell_names(&self) -> (res: Vec<String>)
        ensures
            text::texts(res@) == crate::ordmap::entry_names(self.cells.listing()),
            self.cells@ == crate::ordmap::entries_map(self.cells.listing()),
            crate::ordmap::ascending(self.cells.listing()),
    {
        let mut out: Vec<String> = Vec::new();
        let n: usize = self.cells.len();
        let ghost all = crate::ordmap::entry_names(self.cells.listing());
        let mut i: usize = 0;
        while i < n
            invariant
                i <= n,
                n == self.cells.listing().len(),
                all == crate::ordmap::entry_names(self.cells.listing()),
                text::texts(out@) =~= all.take(i as int),
            decreases n - i,
        {
            let ghost before = out@;
            out.push(self.cells.name_at(i).clone());
            assert(text::texts(out@) =~= text::texts(before).push(all[i as int]));
            i = i + 1;
        }
        assert(all.take(n as int) =~= all);
        out
    }

    /// The area of an inventory in thousandths of a square micron. None where a cell is
    /// missing or has no metadata, or the sum does not fit.
    pub fn sum_area_um2_x1000(&self, inventory: &[(&str, usize)]) -> (res: Option<u64>)
        ensures
            res == (if all_sized(self.cells@, stock(inventory@)) && total_area(
                self.cells@,
                stock(inventory@),
            ) <= u64::MAX {
                Some(total_area(self.cells@, stock(inventory@)) as u64)
            } else {
                None
            }),
    {
        let ghost all = stock(inventory@);
        let mut total: u64 = 0;
        let mut i: usize = 0;
        assert(all.take(0) =~= Seq::empty());
        while i < inventory.len()
            invariant
                i <= inventory@.len(),
                all == stock(inventory@),
                total == total_area(self.cells@, all.take(i as int)),
                forall|k: int| 0 <= k < i ==> sized(self.cells@, #[trigger] all[k].0),
            decreases inventory@.len() - i,
        {
            let (name, count): (&str, usize) = inventory[i];
            proof {
                assert(all[i as int] == (name@, count as nat));
                assert(all.take(i + 1).drop_last() =~= all.take(i as int));
            }
            let r: &StdCellRef = match self.cells.find(name) {
                None => {
                    assert(!sized(self.cells@, all[i as int].0));
                    return None;
                },
                Some(r) => r,
            };
            let meta: &LibertyMetadata = match &r.metadata {
                None => {
                    assert(!sized(self.cells@, all[i as int].0));
                    return None;
                },
                Some(m) => m,
            };
            let ghost area = meta.area_um2_x1000 as nat;
            proof {
                assert(self.cells@[name@] == *r);
                assert(area_of(self.cells@, name@) == area);
                lemma_total_grows(self.cells@, all, i + 1);
                assert(total_area(self.cells@, all.take(i + 1)) == total + area * count);
                assert(area * count >= 0) by (nonlinear_arith)
                    requires
                        area >= 0,
                        count >= 0,
                ;
            }
            let part: u64 = match meta.area_um2_x1000.checked_mul(count as u64) {
                None => {
                    return None;
                },
                Some(p) => p,
            };
            total = match total.checked_add(part) {
                None => {
                    return None;
                },
                Some(t) => t,
            };
            i = i + 1;
        }
        assert(all.take(inventory@.len() as int) =~= all);
        Some(total)
    }
}

/// Cells by name, with how often each is used.
pub open spec fn stock(inventory: Seq<(&str, usize)>) -> Seq<(Seq<char>, nat)> {
    Seq::new(inventory.len(), |i: int| (inventory[i].0@, inventory[i].1 as nat))
}

/// Whether the area of a cell is known.
pub open spec fn sized(cells: Map<Seq<char>, StdCellRef>, name: Seq<char>) -> bool {
    cells.contains_key(name) && cells[name].metadata is Some
}

pub open spec fn all_sized(cells: Map<Seq<char>, StdCellRef>, s: Seq<(Seq<char>, nat)>) -> bool {
    forall|i: int| 0 <= i < s.len() ==> sized(cells, #[trigger] s[i].0)
}

pub open spec fn area_of(cells: Map<Seq<char>, StdCellRef>, name: Seq<char>) -> nat {
    (cells[name].metadata->0).area_um2_x1000 as nat
}

/// The area of each cell times how often it is used, added up.
pub open spec fn total_area(cells: Map<Seq<char>, StdCellRef>, s: Seq<(Seq<char>, nat)>) -> nat
    decreases s.len(),
{
    if s.len() == 0 {
        0
    } else {
        total_area(cells, s.drop_last()) + area_of(cells, s.last().0) * s.last().1
    }
}

proof fn lemma_total_grows(cells: Map<Seq<char>, StdCellRef>, s: Seq<(Seq<char>, nat)>, k: int)
    requires
        0 <= k <= s.len(),
    ensures
        total_area(cells, s.take(k)) <= total_area(cells, s),
    decreases s.len() - k,
{
    if k < s.len() {
        lemma_total_grows(cells, s, k + 1);
        assert(s.take(k + 1).drop_last() =~= s.take(k));
        assert(area_of(cells, s[k].0) * s[k].1 >= 0) by (nonlinear_arith)
            requires
                area_of(cells, s[k].0) >= 0,
                s[k].1 >= 0,
        ;
    } else {
        assert(s.take(k) =~= s);
    }
}

/// The area of two inventories together is the sum of their areas.
pub proof fn areas_add_up(
    cells: Map<Seq<char>, StdCellRef>,
    a: Seq<(Seq<char>, nat)>,
    b: Seq<(Seq<char>, nat)>,
)
    ensures
        total_area(cells, a + b) == total_area(cells, a) + total_area(cells, b),
    decreases b.len(),
{
    if b.len() == 0 {
        assert(a + b =~= a);
    } else {
        areas_add_up(cells, a, b.drop_last());
        assert((a + b).drop_last() =~= a + b.drop_last());
    }
}

/// The area of one kind of cell grows with how often it is used.
pub proof fn area_scales_with_count(cells: Map<Seq<char>, StdCellRef>, name: Seq<char>, n: nat)
    ensures
        total_area(cells, seq![(name, n)]) == n * total_area(cells, seq![(name, 1nat)]),
{
    let s = seq![(name, n)];
    let one = seq![(name, 1nat)];
    let none = Seq::<(Seq<char>, nat)>::empty();
    assert(s.drop_last() =~= none);
    assert(one.drop_last() =~= none);
    assert(total_area(cells, none) == 0);
    assert(total_area(cells, s) == area_of(cells, name) * n);
    assert(total_area(cells, one) == area_of(cells, name) * 1);
    assert(area_of(cells, name) * n == n * (area_of(cells, name) * 1)) by (nonlinear_arith);
}

// ── where the layouts are ──────────────────────────────────────────

/// The directories under which process kits are installed.
pub open spec fn install_roots(pdk_root: Option<Seq<char>>, home: Option<Seq<char>>) -> Seq<
    Seq<char>,
> {
    (match pdk_root {
        Some(p) => seq![p],
        None => Seq::empty(),
    }) + (match home {
        Some(h) => seq![paths::joined(h, ".ciel"@), paths::joined(h, ".volare"@)],
        None => Seq::empty(),
    })
}

/// The directory that holds the versions that one installer put under a root.
pub open spec fn versions_dir(root: Seq<char>, installer: Seq<char>) -> Seq<char> {
    paths::joined(paths::joined(paths::joined(root, installer), "sky130"@), "versions"@)
}

/// The directories that hold versions, for the first `n` roots.
pub open spec fn versions_dirs(roots: Seq<Seq<char>>, n: int) -> Seq<Seq<char>>
    decreases n,
{
    if n <= 0 {
        Seq::empty()
    } else {
        versions_dirs(roots, n - 1) + seq![
            versions_dir(roots[n - 1], "ciel"@),
            versions_dir(roots[n - 1], "volare"@),
        ]
    }
}

fn versions_dir_of(root: &str, installer: &str) -> (res: String)
    ensures
        res@ == versions_dir(root@, installer@),
{
    let a = paths::join(root, installer);
    let b = paths::join(a.as_str(), "sky130");
    paths::join(b.as_str(), "versions")
}

/// Lists the directories to look for installed versions in, in the order of the search.
pub fn list_versions_dirs(pdk_root: Option<&str>, home: Option<&str>) -> (res: Vec<String>)
    ensures
        text::texts(res@) == ({
            let roots = install_roots(text::opt_str(pdk_root), text::opt_str(home));
            versions_dirs(roots, roots.len() as int)
        }),
{
    let mut roots: Vec<String> = Vec::new();
    match pdk_root {
        Some(p) => {
            roots.push(p.to_owned());
        },
        None => {},
    }
    match home {
        Some(h) => {
            roots.push(paths::join(h, ".ciel"));
            roots.push(paths::join(h, ".volare"));
        },
        None => {},
    }
    let ghost all = install_roots(text::opt_str(pdk_root), text::opt_str(home));
    assert(text::texts(roots@) =~= all);
    let mut out: Vec<String> = Vec::new();
    let mut i: usize = 0;
    while i < roots.len()
        invariant
            i <= roots@.len(),
            text::texts(roots@) == all,
            text::texts(out@) =~= versions_dirs(all, i as int),
        decreases roots@.len() - i,
    {
        let ghost before = out@;
        assert(all[i as int] == roots@[i as int]@);
        out.push(versions_dir_of(roots[i].as_str(), "ciel"));
        out.push(versions_dir_of(roots[i].as_str(), "volare"));
        assert(text::texts(out@) =~= text::texts(before) + seq![
            versions_dir(all[i as int], "ciel"@),
            versions_dir(all[i as int], "volare"@),
        ]);
        i = i + 1;
    }
    out
}

/// The layouts of the two variants of the first `n` installed versions.
pub open spec fn installed_paths(versions: Seq<Seq<char>>, n: int) -> Seq<Seq<char>>
    decreases n,
{
    if n <= 0 {
        Seq::empty()
    } else {
        installed_paths(versions, n - 1) + seq![
            paths::joined(
                versions[n - 1],
                "sky130A/libs.ref/sky130_fd_sc_hd/gds/sky130_fd_sc_hd.gds"@,
            ),
            paths::joined(
                versions[n - 1],
                "sky130B/libs.ref/sky130_fd_sc_hd/gds/sky130_fd_sc_hd.gds"@,
            ),
        ]
    }
}

/// Where the layouts may be, in the order of the search: a place given by hand, the
/// installed versions, and two old places.
pub open spec fn gds_places(given: Option<Seq<char>>, versions: Seq<Seq<char>>) -> Seq<Seq<char>> {
    (match given {
        Some(p) => seq![p],
        None => Seq::empty(),
    }) + installed_paths(versions, versions.len() as int) + seq![
        "/Users/Shared/mtl/skywater130/sky130/src/sky130_fd_sc_hd/sky130_fd_sc_hd.gds"@,
        "/Users/Shared/mtl/skywater130/libraries/sky130_fd_sc_hd/latest/cells/sky130_fd_sc_hd.gds"@,
    ]
}

/// Lists where the layouts may be.
pub fn list_gds_places(given: Option<&str>, versions: &Vec<String>) -> (res: Vec<String>)
    ensures
        text::texts(res@) == gds_places(text::opt_str(given), text::texts(versions@)),
{
    let mut out: Vec<String> = Vec::new();
    match given {
        Some(p) => {
            out.push(p.to_owned());
        },
        None => {},
    }
    let ghost first = text::texts(out@);
    let ghost vs = text::texts(versions@);
    let mut i: usize = 0;
    assert(first =~= first + installed_paths(vs, 0));
    while i < versions.len()
        invariant
            i <= versions@.len(),
            vs == text::texts(versions@),
            text::texts(out@) =~= first + installed_paths(vs, i as int),
        decreases versions@.len() - i,
    {
        let ghost before = out@;
        assert(vs[i as int] == versions@[i as int]@);
        let a = paths::join(
            versions[i].as_str(),
            "sky130A/libs.ref/sky130_fd_sc_hd/gds/sky130_fd_sc_hd.gds",
        );
        let b = paths::join(
            versions[i].as_str(),
            "sky130B/libs.ref/sky130_fd_sc_hd/gds/sky130_fd_sc_hd.gds",
        );
        out.push(a);
        out.push(b);
        assert(text::texts(out@) =~= text::texts(before) + seq![a@, b@]);
        i = i + 1;
    }
    let ghost before = out@;
    let c = "/Users/Shared/mtl/skywater130/sky130/src/sky130_fd_sc_hd/sky130_fd_sc_hd.gds".to_owned();
    let d = "/Users/Shared/mtl/skywater130/libraries/sky130_fd_sc_hd/latest/cells/sky130_fd_sc_hd.gds".to_owned();
    out.push(c);
    out.push(d);
    assert(text::texts(out@) =~= text::texts(before) + seq![c@, d@]);
    assert(text::opt_str(given) is Some ==> first =~= seq![text::opt_str(given)->0]);
    assert(text::opt_str(given) is None ==> first =~= Seq::empty());
    out
}

/// The first place that is there, from the `i`-th on; the first of the two old ones where
/// none is.
pub open spec fn first_present(places: Seq<Seq<char>>, present: Seq<bool>, i: int) -> Seq<char>
    decreases places.len() - i,
{
    if i < 0 || i >= places.len() {
        places[places.len() - 2]
    } else if present[i] {
        places[i]
    } else {
        first_present(places, present, i + 1)
    }
}

/// Picks the layouts to read, given which places of the list are there.
pub fn default_sc_hd_path(
    given: Option<&str>,
    versions: &Vec<String>,
    present: &Vec<bool>,
) -> (res: String)
    requires
        present@.len() == gds_places(text::opt_str(given), text::texts(versions@)).len(),
    ensures
        res@ == first_present(
            gds_places(text::opt_str(given), text::texts(versions@)),
            present@,
            0,
        ),
{
    let places = list_gds_places(given, versions);
    let ghost all = text::texts(places@);
    assert(all.len() == places@.len());
    let mut i: usize = 0;
    while i < places.len()
        invariant
            i <= places@.len(),
            all == text::texts(places@),
            all == gds_places(text::opt_str(given), text::texts(versions@)),
            all.len() == places@.len(),
            places@.len() == present@.len(),
            first_present(all, present@, 0) == first_present(all, present@, i as int),
        decreases places@.len() - i,
    {
        assert(all[i as int] == places@[i as int]@);
        if present[i] {
            return places[i].clone();
        }
        i = i + 1;
    }
    assert(all[places@.len() - 2] == places@[places@.len() - 2]@);
    places[places.len() - 2].clone()
}

/// The entry for a cell is the last of those that have its name; there is none exactly where
/// none has it.
pub proof fn later_entries_win(entries: Seq<liberty::CellModel>, name: Seq<char>, n: int)
    requires
        0 <= n <= entries.len(),
    ensures
        match last_entry(entries, name, n) {
            None => forall|i: int| 0 <= i < n ==> (#[trigger] entries[i]).name != name,
            Some(c) => exists|i: int|
                0 <= i < n && #[trigger] entries[i] == c && c.name == name && (forall|j: int|
                    i < j < n ==> (#[trigger] entries[j]).name != name),
        },
    decreases n,
{
    if n > 0 {
        later_entries_win(entries, name, n - 1);
        if entries[n - 1].name == name {
            assert(entries[n - 1] == entries[n - 1]);
        }
    }
}

/// A library knows its cells under their names: under each the last cell of that name, with
/// the last entry of that name.
pub proof fn later_cells_win(
    cells: Seq<(CellId, Seq<char>)>,
    entries: Seq<liberty::CellModel>,
    n: int,
    name: Seq<char>,
)
    requires
        0 <= n <= cells.len(),
    ensures
        ({
            let m = indexed(cells, entries, n);
            &&& m.contains_key(name) <==> exists|i: int|
                0 <= i < n && (#[trigger] cells[i]).1 == name
            &&& m.contains_key(name) ==> m[name].name == name && m[name].metadata == last_entry(
                entries,
                name,
                entries.len() as int,
            ) && exists|i: int|
                0 <= i < n && (#[trigger] cells[i]).1 == name && cells[i].0 == m[name].cell_id && (
                forall|j: int| i < j < n ==> (#[trigger] cells[j]).1 != name)
        }),
    decreases n,
{
    if n > 0 {
        later_cells_win(cells, entries, n - 1, name);
        if cells[n - 1].1 == name {
            assert(cells[n - 1].0 == indexed(cells, entries, n)[name].cell_id);
        }
    }
}

/// Sites are filled one by one: each holds the cell of the library that its site names, at
/// its own point and not turned.
pub proof fn sites_hold_the_cells_they_name(
    children: Seq<(StdCell, Point)>,
    lib: Library,
    i: int,
)
    requires
        0 <= i < children.len(),
        layout::named(lib, children[i].0.cell_name@) is Some,
    ensures
        placed(children, lib).len() == children.len(),
        layout::named(lib, children[i].0.cell_name@) == Some(placed(children, lib)[i].0),
        placed(children, lib)[i].1.moved(0, 0) == (
            children[i].1.x as int,
            children[i].1.y as int,
        ),
        placed(children, lib)[i].1.moved(1, 1) == (
            children[i].1.x + 1,
            children[i].1.y + 1,
        ),
{
}

} // verus!
