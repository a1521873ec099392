//! Corners: typical, extreme and Monte Carlo runs of a testbench.

use crate::double::Real;
use crate::text;
use vstd::prelude::*;
use vstd::string::*;
use vstd::view::View as _;

verus! {

/// 27 degrees.
pub const ROOM_TEMP_BITS: u64 = 0x403b_0000_0000_0000;

/// 85 degrees.
pub const HOT_TEMP_BITS: u64 = 0x4055_4000_0000_0000;

/// -40 degrees.
pub const COLD_TEMP_BITS: u64 = 0xc044_0000_0000_0000;

/// The factor 1.10.
pub const HIGH_SUPPLY_BITS: u64 = 0x3ff1_9999_9999_999a;

/// The factor 0.90.
pub const LOW_SUPPLY_BITS: u64 = 0x3fec_cccc_cccc_cccd;

/// Family of a corner.
#[derive(Debug, Clone, Copy, PartialEq, Eq, Structural)]
pub enum CornerKind {
    /// Nominal process, voltage and temperature.
    Typical,
    /// Extreme test condition.
    Etc,
    /// Monte Carlo random draw.
    Mc,
}

/// Netlist view: schematic, or extracted from the layout.
#[derive(Debug, Clone, Copy, PartialEq, Eq, Hash, Structural)]
pub enum View {
    /// Schematic netlist with ideal models.
    Schematic,
    /// Netlist with the parasitics extracted from the layout.
    Layout,
}

impl Default for View {
    fn default() -> (res: Self)
        ensures
            res == View::Schematic,
    {
        View::Schematic
    }
}

impl View {
    pub open spec fn tag(self) -> Seq<char> {
        match self {
            View::Schematic => "Sch"@,
            View::Layout => "Lay"@,
        }
    }

    pub fn as_str(self) -> (res: &'static str)
        ensures
            res@ == self.tag(),
    {
        match self {
            View::Schematic => "Sch",
            View::Layout => "Lay",
        }
    }
}

impl CornerKind {
    pub open spec fn tag(self) -> Seq<char> {
        match self {
            CornerKind::Typical => "typical"@,
            CornerKind::Etc => "etc"@,
            CornerKind::Mc => "mc"@,
        }
    }

    pub fn as_str(self) -> (res: &'static str)
        ensures
            res@ == self.tag(),
    {
        match self {
            CornerKind::Typical => "typical",
            CornerKind::Etc => "etc",
            CornerKind::Mc => "mc",
        }
    }

    /// The name of the variant.
    pub open spec fn variant(self) -> Seq<char> {
        match self {
            CornerKind::Typical => "Typical"@,
            CornerKind::Etc => "Etc"@,
            CornerKind::Mc => "Mc"@,
        }
    }

    pub fn variant_name(self) -> (res: &'static str)
        ensures
            res@ == self.variant(),
    {
        match self {
            CornerKind::Typical => "Typical",
            CornerKind::Etc => "Etc",
            CornerKind::Mc => "Mc",
        }
    }
}

/// One concrete corner run.
#[derive(Debug)]
pub struct Corner {
    pub kind: CornerKind,
    /// Human label, used in reports and as the file suffix.
    pub label: String,
    /// `.lib` section name.
    pub lib_section: String,
    /// Supply voltage.
    pub vdd: Real,
    /// Temperature in degrees Celsius.
    pub temp_c: Real,
    /// Monte Carlo seed.
    pub seed: Option<u64>,
    pub view: View,
}

/// What a corner holds.
pub struct CornerModel {
    pub kind: CornerKind,
    pub label: Seq<char>,
    pub lib_section: Seq<char>,
    pub vdd: Real,
    pub temp_c: Real,
    pub seed: Option<u64>,
    pub view: View,
}

impl Corner {
    pub open spec fn model(self) -> CornerModel {
        CornerModel {
            kind: self.kind,
            label: self.label@,
            lib_section: self.lib_section@,
            vdd: self.vdd,
            temp_c: self.temp_c,
            seed: self.seed,
            view: self.view,
        }
    }

    pub fn typical(lib_section: &str, vdd: Real) -> (res: Self)
        ensures
            res.model() == typical_model(lib_section@, vdd),
    {
        Corner {
            kind: CornerKind::Typical,
            label: "typical".to_owned(),
            lib_section: lib_section.to_owned(),
            vdd,
            temp_c: Real { bits: ROOM_TEMP_BITS },
            seed: None,
            view: View::Schematic,
        }
    }

    pub fn etc(label: &str, lib_section: &str, vdd: Real, temp_c: Real) -> (res: Self)
        ensures
            res.model() == etc_model(label@, lib_section@, vdd, temp_c),
    {
        Corner {
            kind: CornerKind::Etc,
            label: label.to_owned(),
            lib_section: lib_section.to_owned(),
            vdd,
            temp_c,
            seed: None,
            view: View::Schematic,
        }
    }

    pub fn mc(label: &str, lib_section: &str, vdd: Real, temp_c: Real, seed: u64) -> (res: Self)
        ensures
            res.model() == mc_model(label@, lib_section@, vdd, temp_c, seed),
    {
        Corner {
            kind: CornerKind::Mc,
            label: label.to_owned(),
            lib_section: lib_section.to_owned(),
            vdd,
            temp_c,
            seed: Some(seed),
            view: View::Schematic,
        }
    }

    /// This corner, run against `view`.
    pub fn with_view(self, view: View) -> (res: Self)
        ensures
            res.model() == (CornerModel { view, ..self.model() }),
    {
        Corner {
            kind: self.kind,
            label: self.label,
            lib_section: self.lib_section,
            vdd: self.vdd,
            temp_c: self.temp_c,
            seed: self.seed,
            view,
        }
    }

    /// A corner that holds the same values.
    pub fn duplicate(&self) -> (res: Self)
        ensures
            res.model() == self.model(),
    {
        Corner {
            kind: self.kind,
            label: self.label.clone(),
            lib_section: self.lib_section.clone(),
            vdd: self.vdd,
            temp_c: self.temp_c,
            seed: self.seed,
            view: self.view,
        }
    }
}

pub open spec fn typical_model(lib_section: Seq<char>, vdd: Real) -> CornerModel {
    CornerModel {
        kind: CornerKind::Typical,
        label: "typical"@,
        lib_section,
        vdd,
        temp_c: Real { bits: ROOM_TEMP_BITS },
        seed: None,
        view: View::Schematic,
    }
}

pub open spec fn etc_model(
    label: Seq<char>,
    lib_section: Seq<char>,
    vdd: Real,
    temp_c: Real,
) -> CornerModel {
    CornerModel {
        kind: CornerKind::Etc,
        label,
        lib_section,
        vdd,
        temp_c,
        seed: None,
        view: View::Schematic,
    }
}

pub open spec fn mc_model(
    label: Seq<char>,
    lib_section: Seq<char>,
    vdd: Real,
    temp_c: Real,
    seed: u64,
) -> CornerModel {
    CornerModel {
        kind: CornerKind::Mc,
        label,
        lib_section,
        vdd,
        temp_c,
        seed: Some(seed),
        view: View::Schematic,
    }
}

/// A planned set of corners.
#[derive(Debug)]
pub struct CornerSet {
    pub corners: Vec<Corner>,
}

/// Decimal numeral of `n`, with zeros in front up to three digits.
pub open spec fn three_digits(n: nat) -> Seq<char> {
    if n < 10 {
        "00"@ + text::dec(n)
    } else if n < 100 {
        "0"@ + text::dec(n)
    } else {
        text::dec(n)
    }
}

/// Label of the `i`-th Monte Carlo run.
pub open spec fn mc_label(i: nat) -> Seq<char> {
    "mc_"@ + three_digits(i)
}

/// `base + i`, wrapped around at 2^64.
pub open spec fn mc_seed(base: u64, i: nat) -> u64 {
    ((base + i) % 0x1_0000_0000_0000_0000) as u64
}

/// The first `n` Monte Carlo corners.
pub open spec fn mc_corners(
    lib_section: Seq<char>,
    vdd: Real,
    n: nat,
    seed_base: u64,
) -> Seq<CornerModel> {
    Seq::new(
        n,
        |i: int|
            mc_model(
                mc_label(i as nat),
                lib_section,
                vdd,
                Real { bits: ROOM_TEMP_BITS },
                mc_seed(seed_base, i as nat),
            ),
    )
}

/// Nominal corner and the four extremes around it.
pub open spec fn typical_etc_corners(
    tt: Seq<char>,
    ff_hot: Seq<char>,
    ss_cold: Seq<char>,
    fs_hot: Seq<char>,
    sf_cold: Seq<char>,
    vdd_nom: Real,
) -> Seq<CornerModel> {
    let high = vdd_nom.mul_spec(Real { bits: HIGH_SUPPLY_BITS });
    let low = vdd_nom.mul_spec(Real { bits: LOW_SUPPLY_BITS });
    let hot = Real { bits: HOT_TEMP_BITS };
    let cold = Real { bits: COLD_TEMP_BITS };
    seq![
        typical_model(tt, vdd_nom),
        etc_model("ff_hot"@, ff_hot, high, hot),
        etc_model("ss_cold"@, ss_cold, low, cold),
        etc_model("fs_hot"@, fs_hot, high, hot),
        etc_model("sf_cold"@, sf_cold, low, cold),
    ]
}

/// Every corner twice: once for each view.
pub open spec fn both_views(s: Seq<CornerModel>) -> Seq<CornerModel> {
    Seq::new(
        2 * s.len(),
        |i: int|
            CornerModel {
                view: if i % 2 == 0 {
                    View::Schematic
                } else {
                    View::Layout
                },
                ..s[i / 2]
            },
    )
}

fn mc_label_string(i: usize) -> (res: String)
    ensures
        res@ == mc_label(i as nat),
{
    let mut s = "mc_".to_owned();
    let d = text::usize_to_string(i);
    if i < 10 {
        s.append("00");
    } else if i < 100 {
        s.append("0");
    }
    s.append(d.as_str());
    assert(s@ =~= mc_label(i as nat));
    s
}

impl CornerSet {
    pub open spec fn models(self) -> Seq<CornerModel> {
        self.corners@.map_values(|c: Corner| c.model())
    }

    pub fn new() -> (res: Self)
        ensures
            res.models() == Seq::<CornerModel>::empty(),
    {
        let res = CornerSet { corners: Vec::new() };
        assert(res.models() =~= Seq::empty());
        res
    }

    /// This set with one corner more.
    pub fn push(self, c: Corner) -> (res: Self)
        ensures
            res.models() == self.models().push(c.model()),
    {
        let mut corners = self.corners;
        corners.push(c);
        let res = CornerSet { corners };
        assert(res.models() =~= self.models().push(c.model()));
        res
    }

    /// A single nominal run.
    pub fn typical_only(lib_section: &str, vdd: Real) -> (res: Self)
        ensures
            res.models() == seq![typical_model(lib_section@, vdd)],
    {
        let res = CornerSet::new().push(Corner::typical(lib_section, vdd));
        assert(res.models() =~= seq![typical_model(lib_section@, vdd)]);
        res
    }

    /// Nominal run and four extremes at 10 % above or below the supply.
    pub fn typical_etc(
        tt: &str,
        ff_hot: &str,
        ss_cold: &str,
        fs_hot: &str,
        sf_cold: &str,
        vdd_nom: Real,
    ) -> (res: Self)
        ensures
            res.models() == typical_etc_corners(
                tt@,
                ff_hot@,
                ss_cold@,
                fs_hot@,
                sf_cold@,
                vdd_nom,
            ),
    {
        let high = vdd_nom.mul(Real { bits: HIGH_SUPPLY_BITS });
        let low = vdd_nom.mul(Real { bits: LOW_SUPPLY_BITS });
        let hot = Real { bits: HOT_TEMP_BITS };
        let cold = Real { bits: COLD_TEMP_BITS };
        let res = CornerSet::new().push(Corner::typical(tt, vdd_nom)).push(
            Corner::etc("ff_hot", ff_hot, high, hot),
        ).push(Corner::etc("ss_cold", ss_cold, low, cold)).push(
            Corner::etc("fs_hot", fs_hot, high, hot),
        ).push(Corner::etc("sf_cold", sf_cold, low, cold));
        assert(res.models() =~= typical_etc_corners(
            tt@,
            ff_hot@,
            ss_cold@,
            fs_hot@,
            sf_cold@,
            vdd_nom,
        ));
        res
    }

    /// This set with `n_runs` Monte Carlo corners more. Seeds count up from
    /// `seed_base` and wrap around.
    pub fn add_mc(self, lib_section: &str, vdd: Real, n_runs: usize, seed_base: u64) -> (res: Self)
        ensures
            res.models() == self.models() + mc_corners(
                lib_section@,
                vdd,
                n_runs as nat,
                seed_base,
            ),
    {
        let ghost before = self.models();
        let mut set = self;
        let mut i: usize = 0;
        assert(before + mc_corners(lib_section@, vdd, 0, seed_base) =~= before);
        while i < n_runs
            invariant
                i <= n_runs,
                set.models() == before + mc_corners(lib_section@, vdd, i as nat, seed_base),
            decreases n_runs - i,
        {
            let seed: u64 = seed_base.wrapping_add(i as u64);
            let label = mc_label_string(i);
            let c = Corner::mc(label.as_str(), lib_section, vdd, Real { bits: ROOM_TEMP_BITS }, seed);
            set = set.push(c);
            i = i + 1;
            assert(set.models() =~= before + mc_corners(lib_section@, vdd, i as nat, seed_base));
        }
        set
    }

    /// Nominal run, four extremes and `n_mc` Monte Carlo runs.
    pub fn typical_etc_mc(
        tt: &str,
        ff_hot: &str,
        ss_cold: &str,
        fs_hot: &str,
        sf_cold: &str,
        mc_lib_section: &str,
        vdd_nom: Real,
        n_mc: usize,
        seed_base: u64,
    ) -> (res: Self)
        ensures
            res.models() == typical_etc_corners(
                tt@,
                ff_hot@,
                ss_cold@,
                fs_hot@,
                sf_cold@,
                vdd_nom,
            ) + mc_corners(mc_lib_section@, vdd_nom, n_mc as nat, seed_base),
    {
        CornerSet::typical_etc(tt, ff_hot, ss_cold, fs_hot, sf_cold, vdd_nom).add_mc(
            mc_lib_section,
            vdd_nom,
            n_mc,
            seed_base,
        )
    }

    /// Every corner of this set, in both views.
    pub fn expand_views(self) -> (res: Self)
        ensures
            res.models() == both_views(self.models()),
    {
        let ghost before = self.models();
        let mut out = CornerSet::new();
        let mut i: usize = 0;
        assert(both_views(before.take(0)) =~= Seq::empty());
        while i < self.corners.len()
            invariant
                i <= self.corners.len(),
                before == self.models(),
                out.models() == both_views(before.take(i as int)),
            decreases self.corners.len() - i,
        {
            let a = self.corners[i].duplicate().with_view(View::Schematic);
            let b = self.corners[i].duplicate().with_view(View::Layout);
            out = out.push(a).push(b);
            i = i + 1;
            assert(before[i - 1] == self.corners@[i - 1].model());
            assert(out.models() =~= both_views(before.take(i as int)));
        }
        assert(before.take(before.len() as int) =~= before);
        out
    }
}

impl Default for CornerSet {
    fn default() -> (res: Self)
        ensures
            res.models() == Seq::<CornerModel>::empty(),
    {
        CornerSet::new()
    }
}

/// Monte Carlo seeds never repeat within one batch.
pub proof fn mc_seeds_are_distinct(
    lib_section: Seq<char>,
    vdd: Real,
    n: nat,
    base: u64,
    i: int,
    j: int,
)
    requires
        0 <= i < j < n,
        n <= u64::MAX,
    ensures
        mc_corners(lib_section, vdd, n, base)[i].seed != mc_corners(lib_section, vdd, n, base)[j].seed,
{
}

/// Expanding the views doubles the number of runs, and every corner appears
/// once for the schematic and once for the layout, otherwise unchanged.
pub proof fn views_come_in_pairs(s: Seq<CornerModel>, i: int)
    requires
        0 <= i < s.len(),
    ensures
        both_views(s).len() == 2 * s.len(),
        both_views(s)[2 * i] == (CornerModel { view: View::Schematic, ..s[i] }),
        both_views(s)[2 * i + 1] == (CornerModel { view: View::Layout, ..s[i] }),
{
}

/// Of the four extremes, the two hot ones run at a higher and the two cold ones at a lower
/// supply than the nominal corner, each with its own section; none has a seed, and all are
/// run against the schematic.
pub proof fn extremes_pair_supply_and_temperature(
    tt: Seq<char>,
    ff_hot: Seq<char>,
    ss_cold: Seq<char>,
    fs_hot: Seq<char>,
    sf_cold: Seq<char>,
    vdd: Real,
)
    ensures
        ({
            let s = typical_etc_corners(tt, ff_hot, ss_cold, fs_hot, sf_cold, vdd);
            let high = vdd.mul_spec(Real { bits: HIGH_SUPPLY_BITS });
            let low = vdd.mul_spec(Real { bits: LOW_SUPPLY_BITS });
            &&& s.len() == 5
            &&& s[0].kind == CornerKind::Typical && s[0].lib_section == tt && s[0].vdd == vdd
                && s[0].temp_c == (Real { bits: ROOM_TEMP_BITS })
            &&& s[1].lib_section == ff_hot && s[2].lib_section == ss_cold && s[3].lib_section
                == fs_hot && s[4].lib_section == sf_cold
            &&& forall|i: int|
                #![trigger s[i]]
                1 <= i < 5 ==> s[i].kind == CornerKind::Etc && (if i % 2 == 1 {
                    s[i].vdd == high && s[i].temp_c == (Real { bits: HOT_TEMP_BITS })
                } else {
                    s[i].vdd == low && s[i].temp_c == (Real { bits: COLD_TEMP_BITS })
                })
            &&& forall|i: int|
                #![trigger s[i]]
                0 <= i < 5 ==> s[i].seed is None && s[i].view == View::Schematic
        }),
{
}

} // verus!
