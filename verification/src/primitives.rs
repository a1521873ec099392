//! SPICE primitives that own their numeric values: resistor, capacitor,
//! diode and level-1 MOS transistors.

use crate::double::Real;
use crate::numfmt;
use crate::spice;
use crate::spice::{DeckModel, EmitError, Netlist, SpiceEmit};
use crate::text;
use vstd::prelude::*;
use vstd::string::*;

verus! {

/// Linear resistor.
#[derive(Debug, Clone, Copy)]
pub struct R {
    pub ohms: Real,
}

/// Linear capacitor.
#[derive(Debug, Clone, Copy)]
pub struct C {
    pub farads: Real,
}

/// Diode. The name of its model card is made from the bits of the saturation
/// current, so that equal diodes share one card.
#[derive(Debug, Clone, Copy)]
pub struct D {
    pub is_amps: Real,
}

/// Parameters of the level-1 MOS model.
#[derive(Debug, Clone, Copy)]
pub struct MosL1Params {
    /// Threshold voltage, negative for a PMOS transistor.
    pub vto: Real,
    /// Transconductance parameter in A/V².
    pub kp: Real,
    /// Channel-length modulation in 1/V.
    pub lambda: Real,
}

/// Four-terminal NMOS transistor: drain, gate, source, bulk.
#[derive(Debug, Clone, Copy)]
pub struct Nmos {
    pub w: Real,
    pub l: Real,
    pub params: MosL1Params,
}

/// Four-terminal PMOS transistor: drain, gate, source, bulk.
#[derive(Debug, Clone, Copy)]
pub struct Pmos {
    pub w: Real,
    pub l: Real,
    pub params: MosL1Params,
}

/// `<prefix><id> <p> <n> `.
pub open spec fn two_terminal(
    prefix: Seq<char>,
    id: Seq<char>,
    p: Seq<char>,
    n: Seq<char>,
) -> Seq<char> {
    prefix + id + " "@ + p + " "@ + n + " "@
}

fn two_terminal_string(prefix: &str, id: &str, p: &str, n: &str) -> (res: String)
    ensures
        res@ == two_terminal(prefix@, id@, p@, n@),
{
    let mut s = prefix.to_owned();
    s.append(id);
    s.append(" ");
    s.append(p);
    s.append(" ");
    s.append(n);
    s.append(" ");
    s
}

fn arity(block: &str, expected: usize, got: usize) -> (res: EmitError)
    ensures
        res matches EmitError::ArityMismatch { block: b, expected: e, got: g } && b@ == block@ && e
            == expected && g == got,
{
    EmitError::ArityMismatch { block: block.to_owned(), expected, got }
}

impl SpiceEmit for R {
    open spec fn terminals(&self) -> nat {
        2
    }

    open spec fn emitted(&self, deck: DeckModel, nets: Seq<&str>, id: Seq<char>) -> DeckModel {
        deck.element(two_terminal("R"@, id, nets[0]@, nets[1]@) + spice::sci10(self.ohms))
    }

    fn n_terminals(&self) -> (res: usize) {
        2
    }

    fn emit_spice(&self, net: &mut Netlist, nets: &[&str], id: &str) -> (res: Result<
        (),
        EmitError,
    >) {
        if nets.len() != 2 {
            return Err(arity("R", 2, nets.len()));
        }
        let mut line = two_terminal_string("R", id, nets[0], nets[1]);
        line.append(numfmt::to_scientific(self.ohms, 10).as_str());
        net.add_element(line.as_str());
        Ok(())
    }
}

impl SpiceEmit for C {
    open spec fn terminals(&self) -> nat {
        2
    }

    open spec fn emitted(&self, deck: DeckModel, nets: Seq<&str>, id: Seq<char>) -> DeckModel {
        deck.element(two_terminal("C"@, id, nets[0]@, nets[1]@) + spice::sci10(self.farads))
    }

    fn n_terminals(&self) -> (res: usize) {
        2
    }

    fn emit_spice(&self, net: &mut Netlist, nets: &[&str], id: &str) -> (res: Result<
        (),
        EmitError,
    >) {
        if nets.len() != 2 {
            return Err(arity("C", 2, nets.len()));
        }
        let mut line = two_terminal_string("C", id, nets[0], nets[1]);
        line.append(numfmt::to_scientific(self.farads, 10).as_str());
        net.add_element(line.as_str());
        Ok(())
    }
}

/// Name of the model card of a diode.
pub open spec fn diode_model(is_amps: Real) -> Seq<char> {
    "Drlx_Is"@ + text::hex(is_amps.bits as nat, 16)
}

/// Model card of a diode.
pub open spec fn diode_card(is_amps: Real) -> Seq<char> {
    ".model "@ + diode_model(is_amps) + " D(Is="@ + spice::sci10(is_amps) + ")"@
}

fn diode_model_string(is_amps: Real) -> (res: String)
    ensures
        res@ == diode_model(is_amps),
{
    let mut s = "Drlx_Is".to_owned();
    s.append(text::to_hex(is_amps.to_bits(), 16).as_str());
    s
}

impl SpiceEmit for D {
    open spec fn terminals(&self) -> nat {
        2
    }

    open spec fn emitted(&self, deck: DeckModel, nets: Seq<&str>, id: Seq<char>) -> DeckModel {
        deck.model(diode_card(self.is_amps)).element(
            two_terminal("D"@, id, nets[0]@, nets[1]@) + diode_model(self.is_amps),
        )
    }

    fn n_terminals(&self) -> (res: usize) {
        2
    }

    fn emit_spice(&self, net: &mut Netlist, nets: &[&str], id: &str) -> (res: Result<
        (),
        EmitError,
    >) {
        if nets.len() != 2 {
            return Err(arity("D", 2, nets.len()));
        }
        let model = diode_model_string(self.is_amps);
        let mut card = ".model ".to_owned();
        card.append(model.as_str());
        card.append(" D(Is=");
        card.append(numfmt::to_scientific(self.is_amps, 10).as_str());
        card.append(")");
        net.add_model(card.as_str());
        let mut line = two_terminal_string("D", id, nets[0], nets[1]);
        line.append(model.as_str());
        net.add_element(line.as_str());
        Ok(())
    }
}

/// The two halves of a bit pattern, folded into one.
pub open spec fn folded(b: u64) -> u32 {
    (b as u32) ^ ((b >> 32) as u32)
}

/// Name of the model card of a transistor.
pub open spec fn mos_model(prefix: Seq<char>, p: MosL1Params) -> Seq<char> {
    prefix + "_L1_Vt"@ + text::hex(folded(p.vto.bits) as nat, 8) + "_Kp"@ + text::hex(
        folded(p.kp.bits) as nat,
        8,
    ) + "_La"@ + text::hex(folded(p.lambda.bits) as nat, 8)
}

/// Model card of a transistor.
pub open spec fn mos_card(model: Seq<char>, class: Seq<char>, p: MosL1Params) -> Seq<char> {
    ".model "@ + model + " "@ + class + "(LEVEL=1 VTO="@ + numfmt::fixed(p.vto, 6, false) + " KP="@
        + numfmt::scientific(p.kp, 6) + " LAMBDA="@ + numfmt::fixed(p.lambda, 6, false)
        + " GAMMA=0)"@
}

/// Element line of a transistor.
pub open spec fn mos_line(
    id: Seq<char>,
    nets: Seq<&str>,
    model: Seq<char>,
    w: Real,
    l: Real,
) -> Seq<char> {
    "M"@ + id + " "@ + nets[0]@ + " "@ + nets[1]@ + " "@ + nets[2]@ + " "@ + nets[3]@ + " "@ + model
        + " W="@ + numfmt::scientific(w, 6) + " L="@ + numfmt::scientific(l, 6)
}

/// The deck once a transistor has been written into it.
pub open spec fn mos_emitted(
    deck: DeckModel,
    nets: Seq<&str>,
    id: Seq<char>,
    prefix: Seq<char>,
    class: Seq<char>,
    p: MosL1Params,
    w: Real,
    l: Real,
) -> DeckModel {
    let model = mos_model(prefix, p);
    deck.model(mos_card(model, class, p)).element(mos_line(id, nets, model, w, l))
}

fn fold_bits(b: u64) -> (res: u32)
    ensures
        res == folded(b),
{
    (b as u32) ^ ((b >> 32) as u32)
}

fn mos_model_name(prefix: &str, p: &MosL1Params) -> (res: String)
    ensures
        res@ == mos_model(prefix@, *p),
{
    let mut s = prefix.to_owned();
    s.append("_L1_Vt");
    s.append(text::to_hex(fold_bits(p.vto.to_bits()) as u64, 8).as_str());
    s.append("_Kp");
    s.append(text::to_hex(fold_bits(p.kp.to_bits()) as u64, 8).as_str());
    s.append("_La");
    s.append(text::to_hex(fold_bits(p.lambda.to_bits()) as u64, 8).as_str());
    s
}

fn emit_mos(
    net: &mut Netlist,
    nets: &[&str],
    id: &str,
    prefix: &str,
    class: &str,
    p: &MosL1Params,
    w: Real,
    l: Real,
)
    requires
        nets@.len() == 4,
    ensures
        final(net).model() == mos_emitted(
            old(net).model(),
            nets@,
            id@,
            prefix@,
            class@,
            *p,
            w,
            l,
        ),
{
    let model = mos_model_name(prefix, p);
    let mut card = ".model ".to_owned();
    card.append(model.as_str());
    card.append(" ");
    card.append(class);
    card.append("(LEVEL=1 VTO=");
    card.append(numfmt::to_fixed(p.vto, 6, false).as_str());
    card.append(" KP=");
    card.append(numfmt::to_scientific(p.kp, 6).as_str());
    card.append(" LAMBDA=");
    card.append(numfmt::to_fixed(p.lambda, 6, false).as_str());
    card.append(" GAMMA=0)");
    net.add_model(card.as_str());
    let mut line = "M".to_owned();
    line.append(id);
    line.append(" ");
    line.append(nets[0]);
    line.append(" ");
    line.append(nets[1]);
    line.append(" ");
    line.append(nets[2]);
    line.append(" ");
    line.append(nets[3]);
    line.append(" ");
    line.append(model.as_str());
    line.append(" W=");
    line.append(numfmt::to_scientific(w, 6).as_str());
    line.append(" L=");
    line.append(numfmt::to_scientific(l, 6).as_str());
    net.add_element(line.as_str());
}

impl SpiceEmit for Nmos {
    open spec fn terminals(&self) -> nat {
        4
    }

    open spec fn emitted(&self, deck: DeckModel, nets: Seq<&str>, id: Seq<char>) -> DeckModel {
        mos_emitted(deck, nets, id, "Nmos"@, "NMOS"@, self.params, self.w, self.l)
    }

    fn n_terminals(&self) -> (res: usize) {
        4
    }

    fn emit_spice(&self, net: &mut Netlist, nets: &[&str], id: &str) -> (res: Result<
        (),
        EmitError,
    >) {
        if nets.len() != 4 {
            return Err(arity("Nmos", 4, nets.len()));
        }
        emit_mos(net, nets, id, "Nmos", "NMOS", &self.params, self.w, self.l);
        Ok(())
    }
}

impl SpiceEmit for Pmos {
    open spec fn terminals(&self) -> nat {
        4
    }

    open spec fn emitted(&self, deck: DeckModel, nets: Seq<&str>, id: Seq<char>) -> DeckModel {
        mos_emitted(deck, nets, id, "Pmos"@, "PMOS"@, self.params, self.w, self.l)
    }

    fn n_terminals(&self) -> (res: usize) {
        4
    }

    fn emit_spice(&self, net: &mut Netlist, nets: &[&str], id: &str) -> (res: Result<
        (),
        EmitError,
    >) {
        if nets.len() != 4 {
            return Err(arity("Pmos", 4, nets.len()));
        }
        emit_mos(net, nets, id, "Pmos", "PMOS", &self.params, self.w, self.l);
        Ok(())
    }
}

impl MosL1Params {
    pub open spec fn nmos_values() -> MosL1Params {
        MosL1Params {
            vto: Real { bits: 0x3fe0_0000_0000_0000 },
            kp: Real { bits: 0x3ef4_f8b5_88e3_68f1 },
            lambda: Real { bits: 0x3f94_7ae1_47ae_147b },
        }
    }

    pub open spec fn pmos_values() -> MosL1Params {
        MosL1Params {
            vto: Real { bits: 0xbfe0_0000_0000_0000 },
            kp: Real { bits: 0x3ee4_f8b5_88e3_68f1 },
            lambda: Real { bits: 0x3f94_7ae1_47ae_147b },
        }
    }

    /// Textbook NMOS: 0.5 V, 20 µA/V², 0.02 1/V.
    pub fn nmos_default() -> (res: Self)
        ensures
            res == MosL1Params::nmos_values(),
    {
        MosL1Params {
            vto: Real { bits: 0x3fe0_0000_0000_0000 },
            kp: Real { bits: 0x3ef4_f8b5_88e3_68f1 },
            lambda: Real { bits: 0x3f94_7ae1_47ae_147b },
        }
    }

    /// Textbook PMOS: -0.5 V, 10 µA/V², 0.02 1/V.
    pub fn pmos_default() -> (res: Self)
        ensures
            res == MosL1Params::pmos_values(),
    {
        MosL1Params {
            vto: Real { bits: 0xbfe0_0000_0000_0000 },
            kp: Real { bits: 0x3ee4_f8b5_88e3_68f1 },
            lambda: Real { bits: 0x3f94_7ae1_47ae_147b },
        }
    }
}

impl Default for Nmos {
    /// Gate of 10 µm by 2 µm.
    fn default() -> (res: Self)
        ensures
            res == (Nmos {
                w: Real { bits: 0x3ee4_f8b5_88e3_68f1 },
                l: Real { bits: 0x3ec0_c6f7_a0b5_ed8d },
                params: MosL1Params::nmos_values(),
            }),
    {
        Nmos {
            w: Real { bits: 0x3ee4_f8b5_88e3_68f1 },
            l: Real { bits: 0x3ec0_c6f7_a0b5_ed8d },
            params: MosL1Params::nmos_default(),
        }
    }
}

impl Default for Pmos {
    /// Gate of 20 µm by 2 µm.
    fn default() -> (res: Self)
        ensures
            res == (Pmos {
                w: Real { bits: 0x3ef4_f8b5_88e3_68f1 },
                l: Real { bits: 0x3ec0_c6f7_a0b5_ed8d },
                params: MosL1Params::pmos_values(),
            }),
    {
        Pmos {
            w: Real { bits: 0x3ef4_f8b5_88e3_68f1 },
            l: Real { bits: 0x3ec0_c6f7_a0b5_ed8d },
            params: MosL1Params::pmos_default(),
        }
    }
}

/// Two devices with the same parameters share one model card.
pub proof fn equal_devices_share_a_card(
    deck: DeckModel,
    is_amps: Real,
    nets1: Seq<&str>,
    nets2: Seq<&str>,
    id1: Seq<char>,
    id2: Seq<char>,
)
    ensures
        ({
            let d = D { is_amps };
            let one = d.emitted(deck, nets1, id1);
            let two = d.emitted(one, nets2, id2);
            two.models == one.models && two.body.len() == one.body.len() + 1
        }),
{
    spice::model_cards_are_kept_once(deck, diode_card(is_amps));
}

/// Whether a text ends in a word, behind a space.
pub open spec fn ends_in_word(s: Seq<char>, word: Seq<char>) -> bool {
    exists|head: Seq<char>| s == #[trigger] (head + " "@ + word)
}

/// A diode writes one line that ends in the name of its model, and the deck then has a card
/// that begins with that name.
pub proof fn diodes_have_their_card(d: D, deck: DeckModel, nets: Seq<&str>, id: Seq<char>)
    ensures
        d.emitted(deck, nets, id).body.len() == deck.body.len() + 1,
        d.emitted(deck, nets, id).models.contains(diode_card(d.is_amps)),
        exists|tail: Seq<char>|
            diode_card(d.is_amps) == #[trigger] (".model "@ + diode_model(d.is_amps) + tail),
        ends_in_word(d.emitted(deck, nets, id).body.last(), diode_model(d.is_amps)),
{
    let out = d.emitted(deck, nets, id);
    let card = diode_card(d.is_amps);
    let model = diode_model(d.is_amps);
    spice::model_cards_are_kept_once(deck, card);
    let tail = " D(Is="@ + spice::sci10(d.is_amps) + ")"@;
    assert(card =~= ".model "@ + model + tail);
    let head = "D"@ + id + " "@ + nets[0]@ + " "@ + nets[1]@;
    assert(out.body.last() =~= head + " "@ + model);
}

/// A transistor writes one line with its four nodes in the order of its terminals and the name
/// of its model, and the deck then has the card of that model.
pub proof fn transistors_have_their_card(
    deck: DeckModel,
    nets: Seq<&str>,
    id: Seq<char>,
    prefix: Seq<char>,
    class: Seq<char>,
    p: MosL1Params,
    w: Real,
    l: Real,
)
    requires
        nets.len() == 4,
    ensures
        ({
            let out = mos_emitted(deck, nets, id, prefix, class, p, w, l);
            let model = mos_model(prefix, p);
            let nodes = "M"@ + id + " "@ + nets[0]@ + " "@ + nets[1]@ + " "@ + nets[2]@ + " "@
                + nets[3]@ + " "@ + model;
            &&& out.body.len() == deck.body.len() + 1
            &&& out.models.contains(mos_card(model, class, p))
            &&& exists|tail: Seq<char>| out.body.last() == #[trigger] (nodes + tail)
            &&& exists|tail: Seq<char>|
                mos_card(model, class, p) == #[trigger] (".model "@ + model + " "@ + class + tail)
        }),
{
    let out = mos_emitted(deck, nets, id, prefix, class, p, w, l);
    let model = mos_model(prefix, p);
    let card = mos_card(model, class, p);
    spice::model_cards_are_kept_once(deck, card);
    let nodes = "M"@ + id + " "@ + nets[0]@ + " "@ + nets[1]@ + " "@ + nets[2]@ + " "@ + nets[3]@
        + " "@ + model;
    let sizes = " W="@ + numfmt::scientific(w, 6) + " L="@ + numfmt::scientific(l, 6);
    assert(out.body.last() =~= nodes + sizes);
    let tail = "(LEVEL=1 VTO="@ + numfmt::fixed(p.vto, 6, false) + " KP="@ + numfmt::scientific(
        p.kp,
        6,
    ) + " LAMBDA="@ + numfmt::fixed(p.lambda, 6, false) + " GAMMA=0)"@;
    assert(card =~= ".model "@ + model + " "@ + class + tail);
}

} // verus!
