//! What is connected to what: the cells of a design, its nets, its outer pins, and
//! which cells must match.

use crate::liberty::PinDirection;
use crate::single::{Single, ONE_BITS};
use crate::text;
use klayout_core::{CellId, LayerIndex};
use vstd::prelude::*;
use vstd::string::*;

verus! {

/// A cell of the design.
#[derive(Debug)]
pub struct NetInstance {
    pub name: String,
    pub cell: CellId,
    /// Whether placement must leave it where it is.
    pub fixed: bool,
}

/// Pins that belong together.
#[derive(Debug)]
pub struct Net {
    pub name: String,
    pub pins: Vec<PinRef>,
    /// The layer of its wires, where that is not the design's.
    pub layer: Option<LayerIndex>,
    /// How much its length counts in placement.
    pub weight: Single,
}

/// A port of a cell of the design.
#[derive(Debug)]
pub struct PinRef {
    pub instance: usize,
    pub port: String,
}

/// A pin of the design itself. It lies where the first pin of its net lies.
#[derive(Debug)]
pub struct ExternalPin {
    pub name: String,
    pub net: String,
    pub direction: Option<PinDirection>,
}

/// The line across which cells are mirrored, or along which they stand.
#[derive(Debug, Clone, Copy, PartialEq, Eq, Structural)]
pub enum SymmetryAxis {
    /// A vertical line: horizontal positions mirror, vertical ones are equal.
    Vertical,
    /// A horizontal line: vertical positions mirror, horizontal ones are equal.
    Horizontal,
}

/// How cells must match.
#[derive(Debug)]
pub enum MatchKind {
    /// Two cells mirrored across a line.
    Mirror { a: usize, b: usize, axis: SymmetryAxis, axis_coord: Single },
    /// Cells whose mean position is given.
    CommonCentroid { instances: Vec<usize>, center: (Single, Single) },
    /// Cells in a row, at equal distances.
    Interdigitated { instances: Vec<usize>, axis: SymmetryAxis, origin: Single, pitch: Single },
}

/// Cells that must match.
#[derive(Debug)]
pub struct MatchGroup {
    pub name: String,
    pub kind: MatchKind,
    /// How much a mismatch counts in placement.
    pub weight: Single,
}

/// A design.
#[derive(Debug)]
pub struct Netlist {
    pub name: String,
    pub instances: Vec<NetInstance>,
    pub nets: Vec<Net>,
    pub external_pins: Vec<ExternalPin>,
    pub match_groups: Vec<MatchGroup>,
    /// The layer of the wires of every net that names none.
    pub default_signal_layer: Option<LayerIndex>,
}

// ── what the parts stand for ───────────────────────────────────────

#[verifier::ext_equal]
pub struct PinModel {
    pub instance: usize,
    pub port: Seq<char>,
}

#[verifier::ext_equal]
pub struct NetModel {
    pub name: Seq<char>,
    pub pins: Seq<PinModel>,
    pub layer: Option<LayerIndex>,
    pub weight: Single,
}

impl PinRef {
    pub open spec fn model(self) -> PinModel {
        PinModel { instance: self.instance, port: self.port@ }
    }
}

pub open spec fn pin_models(s: Seq<PinRef>) -> Seq<PinModel> {
    s.map_values(|p: PinRef| p.model())
}

impl Net {
    pub open spec fn model(self) -> NetModel {
        NetModel {
            name: self.name@,
            pins: pin_models(self.pins@),
            layer: self.layer,
            weight: self.weight,
        }
    }
}

pub open spec fn net_models(s: Seq<Net>) -> Seq<NetModel> {
    s.map_values(|n: Net| n.model())
}

/// Position of the first net of a name; the number of nets where there is none.
pub open spec fn net_index(s: Seq<NetModel>, name: Seq<char>) -> int
    decreases s.len(),
{
    if s.len() == 0 || s[0].name == name {
        0
    } else {
        1 + net_index(s.skip(1), name)
    }
}

pub proof fn lemma_net_index(s: Seq<NetModel>, name: Seq<char>)
    ensures
        0 <= net_index(s, name) <= s.len(),
        net_index(s, name) < s.len() ==> s[net_index(s, name)].name == name,
        forall|i: int| 0 <= i < net_index(s, name) ==> (#[trigger] s[i]).name != name,
    decreases s.len(),
{
    if s.len() > 0 && s[0].name != name {
        lemma_net_index(s.skip(1), name);
        let k = net_index(s.skip(1), name);
        if k < s.skip(1).len() {
            assert(s.skip(1)[k] == s[k + 1]);
        }
        assert forall|i: int| 0 <= i < net_index(s, name) implies (#[trigger] s[i]).name != name by {
            if i > 0 {
                assert(s[i] == s.skip(1)[i - 1]);
            }
        }
    }
}

/// The nets with one more pin on a net, which is new where there was none of that
/// name; a pin that is on the net already is not added again.
pub open spec fn connected(s: Seq<NetModel>, name: Seq<char>, pin: PinModel) -> Seq<NetModel> {
    let i = net_index(s, name);
    if i >= s.len() {
        s.push(
            NetModel { name, pins: seq![pin], layer: None, weight: Single { bits: ONE_BITS } },
        )
    } else if s[i].pins.contains(pin) {
        s
    } else {
        s.update(i, NetModel { pins: s[i].pins.push(pin), ..s[i] })
    }
}

/// Connecting a pin a second time changes nothing.
pub proof fn connecting_twice_is_connecting_once(s: Seq<NetModel>, name: Seq<char>, pin: PinModel)
    ensures
        connected(connected(s, name, pin), name, pin) == connected(s, name, pin),
{
    let t = connected(s, name, pin);
    lemma_net_index(s, name);
    lemma_net_index(t, name);
    let i = net_index(s, name);
    let j = net_index(t, name);
    if i >= s.len() {
        assert(t[i].name == name);
        if j < i {
            assert(t[j] == s[j]);
        }
        assert(t[j].pins[0] == pin);
    } else if !s[i].pins.contains(pin) {
        assert(t[i].name == name);
        if j < i {
            assert(t[j] == s[j]);
        }
        assert(t[i].pins.last() == pin);
    }
}

/// Whether no two nets have the same name.
pub open spec fn names_differ(s: Seq<NetModel>) -> bool {
    forall|i: int, j: int| 0 <= i < j < s.len() ==> (#[trigger] s[i]).name != (#[trigger] s[j]).name
}

/// Connecting never makes two nets of the same name.
pub proof fn connecting_keeps_names_apart(s: Seq<NetModel>, name: Seq<char>, pin: PinModel)
    requires
        names_differ(s),
    ensures
        names_differ(connected(s, name, pin)),
{
    lemma_net_index(s, name);
}

/// Connecting leaves the other nets as they are.
pub proof fn connecting_touches_one_net(
    s: Seq<NetModel>,
    name: Seq<char>,
    pin: PinModel,
    k: int,
)
    requires
        0 <= k < s.len(),
        s[k].name != name,
    ensures
        connected(s, name, pin)[k] == s[k],
{
    lemma_net_index(s, name);
}

// ── building a design ──────────────────────────────────────────────

fn find_net(nets: &Vec<Net>, name: &str) -> (res: usize)
    ensures
        res == net_index(net_models(nets@), name@),
        res <= nets@.len(),
{
    let ghost all = net_models(nets@);
    let mut i: usize = 0;
    assert(all.skip(0) =~= all);
    while i < nets.len()
        invariant
            i <= nets.len(),
            all == net_models(nets@),
            net_index(all, name@) == i + net_index(all.skip(i as int), name@),
        decreases nets.len() - i,
    {
        assert(all.skip(i as int)[0] == nets@[i as int].model());
        assert(all.skip(i as int).skip(1) =~= all.skip(i + 1));
        if text::same(nets[i].name.as_str(), name) {
            return i;
        }
        i = i + 1;
    }
    i
}

fn has_pin(pins: &Vec<PinRef>, instance: usize, port: &str) -> (res: bool)
    ensures
        res == pin_models(pins@).contains(PinModel { instance, port: port@ }),
{
    let ghost all = pin_models(pins@);
    let ghost pin = PinModel { instance, port: port@ };
    let mut i: usize = 0;
    while i < pins.len()
        invariant
            i <= pins.len(),
            all == pin_models(pins@),
            pin == (PinModel { instance, port: port@ }),
            forall|k: int| 0 <= k < i ==> #[trigger] all[k] != pin,
        decreases pins.len() - i,
    {
        assert(all[i as int] == pins@[i as int].model());
        if pins[i].instance == instance && text::same(pins[i].port.as_str(), port) {
            assert(all[i as int] =~= pin);
            return true;
        }
        i = i + 1;
    }
    false
}

impl Netlist {
    pub fn new(name: &str) -> (res: Self)
        ensures
            res.name@ == name@,
            res.instances@.len() == 0,
            res.nets@.len() == 0,
            res.external_pins@.len() == 0,
            res.match_groups@.len() == 0,
            res.default_signal_layer is None,
    {
        Netlist {
            name: name.to_owned(),
            instances: Vec::new(),
            nets: Vec::new(),
            external_pins: Vec::new(),
            match_groups: Vec::new(),
            default_signal_layer: None,
        }
    }

    pub fn with_default_signal_layer(self, layer: LayerIndex) -> (res: Self)
        ensures
            res == (Netlist { default_signal_layer: Some(layer), ..self }),
    {
        let mut n = self;
        n.default_signal_layer = Some(layer);
        n
    }

    /// Adds a cell and returns its position.
    pub fn add_instance(&mut self, name: &str, cell: CellId) -> (res: usize)
        ensures
            res == old(self).instances@.len(),
            *final(self) == (Netlist { instances: final(self).instances, ..*old(self) }),
            final(self).instances@.len() == old(self).instances@.len() + 1,
            final(self).instances@.drop_last() == old(self).instances@,
            final(self).instances@.last().name@ == name@,
            final(self).instances@.last().cell == cell,
            !final(self).instances@.last().fixed,
    {
        let idx: usize = self.instances.len();
        self.instances.push(NetInstance { name: name.to_owned(), cell, fixed: false });
        assert(self.instances@.drop_last() =~= old(self).instances@);
        idx
    }

    /// Adds a cell that placement must leave where it is, and returns its position.
    pub fn add_fixed_instance(&mut self, name: &str, cell: CellId) -> (res: usize)
        ensures
            res == old(self).instances@.len(),
            *final(self) == (Netlist { instances: final(self).instances, ..*old(self) }),
            final(self).instances@.len() == old(self).instances@.len() + 1,
            final(self).instances@.drop_last() == old(self).instances@,
            final(self).instances@.last().name@ == name@,
            final(self).instances@.last().cell == cell,
            final(self).instances@.last().fixed,
    {
        let idx: usize = self.instances.len();
        self.instances.push(NetInstance { name: name.to_owned(), cell, fixed: true });
        assert(self.instances@.drop_last() =~= old(self).instances@);
        idx
    }

    /// Says of a cell whether placement must leave it where it is; nothing changes
    /// where there is no such cell.
    pub fn set_fixed(&mut self, instance: usize, fixed: bool)
        ensures
            *final(self) == (Netlist { instances: final(self).instances, ..*old(self) }),
            final(self).instances@ == (if instance < old(self).instances@.len() {
                old(self).instances@.update(
                    instance as int,
                    (NetInstance { fixed, ..old(self).instances@[instance as int] }),
                )
            } else {
                old(self).instances@
            }),
    {
        if instance < self.instances.len() {
            self.instances[instance].fixed = fixed;
        }
    }

    /// Puts a pin on a net, which is made where there is none of that name.
    pub fn connect(&mut self, net_name: &str, instance: usize, port: &str)
        ensures
            *final(self) == (Netlist { nets: final(self).nets, ..*old(self) }),
            net_models(final(self).nets@) == connected(
                net_models(old(self).nets@),
                net_name@,
                (PinModel { instance, port: port@ }),
            ),
    {
        let ghost before = net_models(self.nets@);
        let ghost pin = PinModel { instance, port: port@ };
        let i: usize = find_net(&self.nets, net_name);
        proof {
            lemma_net_index(before, net_name@);
        }
        if i < self.nets.len() {
            assert(before[i as int] == self.nets@[i as int].model());
            if !has_pin(&self.nets[i].pins, instance, port) {
                let ghost old_pins = self.nets@[i as int].pins@;
                self.nets[i].pins.push(PinRef { instance, port: port.to_owned() });
                assert(pin_models(self.nets@[i as int].pins@) =~= pin_models(old_pins).push(pin));
            }
            assert(net_models(self.nets@) =~= connected(before, net_name@, pin));
        } else {
            let mut pins: Vec<PinRef> = Vec::new();
            pins.push(PinRef { instance, port: port.to_owned() });
            assert(pin_models(pins@) =~= seq![pin]);
            self.nets.push(
                Net {
                    name: net_name.to_owned(),
                    pins,
                    layer: None,
                    weight: Single { bits: ONE_BITS },
                },
            );
            assert(net_models(self.nets@) =~= connected(before, net_name@, pin));
        }
    }

    /// Says how much the length of a net counts; nothing changes where there is no
    /// such net.
    pub fn set_net_weight(&mut self, net_name: &str, weight: Single)
        ensures
            *final(self) == (Netlist { nets: final(self).nets, ..*old(self) }),
            net_models(final(self).nets@) == ({
                let s = net_models(old(self).nets@);
                let i = net_index(s, net_name@);
                if i < s.len() {
                    s.update(i, NetModel { weight, ..s[i] })
                } else {
                    s
                }
            }),
    {
        let ghost s = net_models(self.nets@);
        let i: usize = find_net(&self.nets, net_name);
        proof {
            lemma_net_index(s, net_name@);
        }
        if i < self.nets.len() {
            self.nets[i].weight = weight;
            assert(net_models(self.nets@) =~= s.update(
                i as int,
                NetModel { weight, ..s[i as int] },
            ));
        }
    }

    /// Puts the wires of a net on a layer; nothing changes where there is no such
    /// net.
    pub fn set_net_layer(&mut self, net_name: &str, layer: LayerIndex)
        ensures
            *final(self) == (Netlist { nets: final(self).nets, ..*old(self) }),
            net_models(final(self).nets@) == ({
                let s = net_models(old(self).nets@);
                let i = net_index(s, net_name@);
                if i < s.len() {
                    s.update(i, NetModel { layer: Some(layer), ..s[i] })
                } else {
                    s
                }
            }),
    {
        let ghost s = net_models(self.nets@);
        let i: usize = find_net(&self.nets, net_name);
        proof {
            lemma_net_index(s, net_name@);
        }
        if i < self.nets.len() {
            self.nets[i].layer = Some(layer);
            assert(net_models(self.nets@) =~= s.update(
                i as int,
                NetModel { layer: Some(layer), ..s[i as int] },
            ));
        }
    }

    fn add_group(&mut self, name: &str, kind: MatchKind)
        ensures
            *final(self) == (Netlist { match_groups: final(self).match_groups, ..*old(self) }),
            final(self).match_groups@.len() == old(self).match_groups@.len() + 1,
            final(self).match_groups@.drop_last() == old(self).match_groups@,
            final(self).match_groups@.last().name@ == name@,
            final(self).match_groups@.last().kind == kind,
            final(self).match_groups@.last().weight == (Single { bits: ONE_BITS }),
    {
        self.match_groups.push(
            MatchGroup { name: name.to_owned(), kind, weight: Single { bits: ONE_BITS } },
        );
        assert(self.match_groups@.drop_last() =~= old(self).match_groups@);
    }

    /// Demands that two cells mirror each other.
    pub fn match_mirror(
        &mut self,
        name: &str,
        a: usize,
        b: usize,
        axis: SymmetryAxis,
        axis_coord: Single,
    )
        ensures
            *final(self) == (Netlist { match_groups: final(self).match_groups, ..*old(self) }),
            final(self).match_groups@.len() == old(self).match_groups@.len() + 1,
            final(self).match_groups@.drop_last() == old(self).match_groups@,
            final(self).match_groups@.last().name@ == name@,
            final(self).match_groups@.last().kind == (MatchKind::Mirror { a, b, axis, axis_coord }),
            final(self).match_groups@.last().weight == (Single { bits: ONE_BITS }),
    {
        self.add_group(name, MatchKind::Mirror { a, b, axis, axis_coord });
    }

    /// Demands that cells have a mean position.
    pub fn match_common_centroid(
        &mut self,
        name: &str,
        instances: Vec<usize>,
        center: (Single, Single),
    )
        ensures
            *final(self) == (Netlist { match_groups: final(self).match_groups, ..*old(self) }),
            final(self).match_groups@.len() == old(self).match_groups@.len() + 1,
            final(self).match_groups@.drop_last() == old(self).match_groups@,
            final(self).match_groups@.last().name@ == name@,
            final(self).match_groups@.last().kind == (MatchKind::CommonCentroid {
                instances,
                center,
            }),
            final(self).match_groups@.last().weight == (Single { bits: ONE_BITS }),
    {
        self.add_group(name, MatchKind::CommonCentroid { instances, center });
    }

    /// Demands that cells stand in a row.
    pub fn match_interdigitated(
        &mut self,
        name: &str,
        instances: Vec<usize>,
        axis: SymmetryAxis,
        origin: Single,
        pitch: Single,
    )
        ensures
            *final(self) == (Netlist { match_groups: final(self).match_groups, ..*old(self) }),
            final(self).match_groups@.len() == old(self).match_groups@.len() + 1,
            final(self).match_groups@.drop_last() == old(self).match_groups@,
            final(self).match_groups@.last().name@ == name@,
            final(self).match_groups@.last().kind == (MatchKind::Interdigitated {
                instances,
                axis,
                origin,
                pitch,
            }),
            final(self).match_groups@.last().weight == (Single { bits: ONE_BITS }),
    {
        self.add_group(name, MatchKind::Interdigitated { instances, axis, origin, pitch });
    }

    /// Says how much a mismatch counts, in the first group of that name; nothing
    /// changes where there is none.
    pub fn set_match_weight(&mut self, name: &str, weight: Single)
        ensures
            *final(self) == (Netlist { match_groups: final(self).match_groups, ..*old(self) }),
            final(self).match_groups@ == ({
                let s = old(self).match_groups@;
                let i = group_index(s, name@);
                if i < s.len() {
                    s.update(i, MatchGroup { weight, ..s[i] })
                } else {
                    s
                }
            }),
    {
        let ghost s = self.match_groups@;
        let mut i: usize = 0;
        assert(s.skip(0) =~= s);
        while i < self.match_groups.len() && !text::same(
            self.match_groups[i].name.as_str(),
            name,
        )
            invariant
                i <= self.match_groups@.len(),
                *self == *old(self),
                s == self.match_groups@,
                group_index(s, name@) == i + group_index(s.skip(i as int), name@),
            decreases self.match_groups@.len() - i,
        {
            assert(s.skip(i as int).skip(1) =~= s.skip(i + 1));
            i = i + 1;
        }
        if i < self.match_groups.len() {
            assert(group_index(s, name@) == i);
            self.match_groups[i].weight = weight;
            assert(self.match_groups@ =~= s.update(
                i as int,
                MatchGroup { weight, ..s[i as int] },
            ));
        }
    }

    /// Makes a pin of the design out of a net.
    pub fn expose(&mut self, pin_name: &str, net_name: &str, direction: Option<PinDirection>)
        ensures
            *final(self) == (Netlist { external_pins: final(self).external_pins, ..*old(self) }),
            final(self).external_pins@.len() == old(self).external_pins@.len() + 1,
            final(self).external_pins@.drop_last() == old(self).external_pins@,
            final(self).external_pins@.last().name@ == pin_name@,
            final(self).external_pins@.last().net@ == net_name@,
            final(self).external_pins@.last().direction == direction,
    {
        self.external_pins.push(
            ExternalPin { name: pin_name.to_owned(), net: net_name.to_owned(), direction },
        );
        assert(self.external_pins@.drop_last() =~= old(self).external_pins@);
    }

    /// The position of the first net of a name, if there is one.
    pub fn net_position(&self, name: &str) -> (res: Option<usize>)
        ensures
            match res {
                Some(i) => i == net_index(net_models(self.nets@), name@) && i < self.nets@.len(),
                None => net_index(net_models(self.nets@), name@) >= self.nets@.len(),
            },
    {
        let i: usize = find_net(&self.nets, name);
        if i < self.nets.len() {
            Some(i)
        } else {
            None
        }
    }
}

/// Position of the first group of a name; the number of groups where there is none.
pub open spec fn group_index(s: Seq<MatchGroup>, name: Seq<char>) -> int
    decreases s.len(),
{
    if s.len() == 0 || s[0].name@ == name {
        0
    } else {
        1 + group_index(s.skip(1), name)
    }
}

/// A pin that is connected to a net is on the net of that name, behind those that were on it
/// already; the nets keep their order, and at most one is added, at the end.
pub proof fn connected_pins_are_on_their_net(s: Seq<NetModel>, name: Seq<char>, pin: PinModel)
    ensures
        s.len() <= connected(s, name, pin).len() <= s.len() + 1,
        connected(s, name, pin).len() == s.len() + 1 <==> forall|i: int|
            0 <= i < s.len() ==> (#[trigger] s[i]).name != name,
        exists|i: int|
            0 <= i < connected(s, name, pin).len() && (#[trigger] connected(s, name, pin)[i]).name
                == name && connected(s, name, pin)[i].pins.contains(pin),
        forall|i: int|
            #![trigger s[i]]
            0 <= i < s.len() ==> {
                let n = connected(s, name, pin)[i];
                &&& n.name == s[i].name && n.layer == s[i].layer && n.weight == s[i].weight
                &&& n.pins == s[i].pins || n.pins == s[i].pins.push(pin)
            },
{
    lemma_net_index(s, name);
    let i = net_index(s, name);
    let t = connected(s, name, pin);
    if i >= s.len() {
        assert(t[s.len() as int].pins[0] == pin);
        assert(t[s.len() as int].name == name);
    } else if s[i].pins.contains(pin) {
        assert(t[i].name == name);
    } else {
        assert(t[i].pins[s[i].pins.len() as int] == pin);
        assert(t[i].name == name);
    }
}

} // verus!
