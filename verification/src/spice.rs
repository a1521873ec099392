//! SPICE netlist emission.

use crate::double::Real;
use crate::numfmt;
use crate::text;
use vstd::prelude::*;
use vstd::string::*;

verus! {

/// 1e30, longer than any simulated time.
pub const NO_REPEAT_BITS: u64 = 0x4629_3e59_39a0_8cea;

/// 1e-12.
pub const PICO_BITS: u64 = 0x3d71_9799_812d_ea11;

/// 0.5.
pub const HALF_BITS: u64 = 0x3fe0_0000_0000_0000;

/// Why a block could not be emitted.
#[derive(Debug)]
pub enum EmitError {
    /// A block was handed the wrong number of nets for its terminals.
    ArityMismatch { block: String, expected: usize, got: usize },
}

impl EmitError {
    /// Human-readable form of the error.
    pub fn message(&self) -> (res: String)
        ensures
            match *self {
                EmitError::ArityMismatch { block, expected, got } => res@ == block@ + ": expected "@
                    + text::dec(expected as nat) + " terminals, got "@ + text::dec(got as nat),
            },
    {
        match self {
            EmitError::ArityMismatch { block, expected, got } => {
                let mut s = block.clone();
                s.append(": expected ");
                s.append(text::usize_to_string(*expected).as_str());
                s.append(" terminals, got ");
                s.append(text::usize_to_string(*got).as_str());
                s
            },
        }
    }
}

/// A SPICE deck under construction.
#[derive(Debug)]
pub struct Netlist {
    pub title: String,
    /// Options, includes and libraries, written before everything else.
    pub preamble: Vec<String>,
    /// Model cards, each one once.
    pub models: Vec<String>,
    /// Element instances and sources.
    pub body: Vec<String>,
}

/// What a deck holds.
pub struct DeckModel {
    pub title: Seq<char>,
    pub preamble: Seq<Seq<char>>,
    pub models: Seq<Seq<char>>,
    pub body: Seq<Seq<char>>,
}

impl DeckModel {
    /// This deck with one element line more.
    pub open spec fn element(self, line: Seq<char>) -> DeckModel {
        DeckModel { body: self.body.push(line), ..self }
    }

    /// This deck with the model card, unless it is there already.
    pub open spec fn model(self, line: Seq<char>) -> DeckModel {
        if self.models.contains(line) {
            self
        } else {
            DeckModel { models: self.models.push(line), ..self }
        }
    }

    /// No model card appears twice.
    pub open spec fn models_distinct(self) -> bool {
        forall|i: int, j: int|
            0 <= i < j < self.models.len() ==> #[trigger] self.models[i] != #[trigger] self.models[j]
    }
}

/// PULSE source: levels and timing.
#[derive(Debug, Clone, Copy, PartialEq, Eq, Structural)]
pub struct Pulse {
    pub v_initial: Real,
    pub v_pulsed: Real,
    pub t_delay: Real,
    pub t_rise: Real,
    pub t_fall: Real,
    pub pulse_width: Real,
    pub period: Real,
}

impl Pulse {
    /// Clock between 0 and `v_high` with edges of 1 ps and half the period
    /// between them.
    pub fn clock(v_high: Real, period: Real) -> (res: Self)
        ensures
            res == (Pulse {
                v_initial: Real { bits: 0 },
                v_pulsed: v_high,
                t_delay: Real { bits: 0 },
                t_rise: Real { bits: PICO_BITS },
                t_fall: Real { bits: PICO_BITS },
                pulse_width: period.mul_spec(Real { bits: HALF_BITS }).sub_spec(
                    Real { bits: PICO_BITS },
                ),
                period,
            }),
    {
        Pulse {
            v_initial: Real { bits: 0 },
            v_pulsed: v_high,
            t_delay: Real { bits: 0 },
            t_rise: Real { bits: PICO_BITS },
            t_fall: Real { bits: PICO_BITS },
            pulse_width: period.mul(Real { bits: HALF_BITS }).sub(Real { bits: PICO_BITS }),
            period,
        }
    }
}

/// SIN source: sinusoidal stimulus.
#[derive(Debug, Clone, Copy, PartialEq, Eq, Structural)]
pub struct Sine {
    pub v_offset: Real,
    pub v_amplitude: Real,
    pub frequency: Real,
    pub t_delay: Real,
    pub damping: Real,
}

impl Sine {
    /// Undamped sine around `v_offset`.
    pub fn ac(v_offset: Real, v_amp: Real, frequency: Real) -> (res: Self)
        ensures
            res == (Sine {
                v_offset,
                v_amplitude: v_amp,
                frequency,
                t_delay: Real { bits: 0 },
                damping: Real { bits: 0 },
            }),
    {
        Sine {
            v_offset,
            v_amplitude: v_amp,
            frequency,
            t_delay: Real { bits: 0 },
            damping: Real { bits: 0 },
        }
    }
}

/// Piecewise-linear source.
#[derive(Debug)]
pub struct Pwl {
    /// Time and voltage of each point.
    pub points: Vec<(Real, Real)>,
}

/// Stimulus of a voltage source.
#[derive(Debug, Clone, Copy, PartialEq, Eq, Structural)]
pub enum SourceWaveform {
    Dc(Real),
    /// A period of zero or less stands for a single pulse.
    Pulse { v1: Real, v2: Real, td: Real, tr: Real, tf: Real, pw: Real, per: Real },
    Sine { v_off: Real, v_amp: Real, freq: Real, td: Real, theta: Real },
}

/// `V<name> <p> <n> `, the start of every source line.
pub open spec fn source_head(name: Seq<char>, p: Seq<char>, n: Seq<char>) -> Seq<char> {
    "V"@ + name + " "@ + p + " "@ + n
}

/// A number the way element lines spell it.
pub open spec fn sci10(r: Real) -> Seq<char> {
    numfmt::scientific(r, 10)
}

pub open spec fn dc_line(name: Seq<char>, p: Seq<char>, n: Seq<char>, volts: Real) -> Seq<char> {
    source_head(name, p, n) + " DC "@ + sci10(volts)
}

pub open spec fn pulse_line(
    name: Seq<char>,
    p: Seq<char>,
    n: Seq<char>,
    pulse: Pulse,
) -> Seq<char> {
    source_head(name, p, n) + " PULSE("@ + sci10(pulse.v_initial) + " "@ + sci10(pulse.v_pulsed)
        + " "@ + sci10(pulse.t_delay) + " "@ + sci10(pulse.t_rise) + " "@ + sci10(pulse.t_fall)
        + " "@ + sci10(pulse.pulse_width) + " "@ + sci10(pulse.period) + ")"@
}

pub open spec fn sine_line(name: Seq<char>, p: Seq<char>, n: Seq<char>, sine: Sine) -> Seq<char> {
    source_head(name, p, n) + " SIN("@ + sci10(sine.v_offset) + " "@ + sci10(sine.v_amplitude)
        + " "@ + sci10(sine.frequency) + " "@ + sci10(sine.t_delay) + " "@ + sci10(sine.damping)
        + ")"@
}

/// Times and voltages, one after the other.
pub open spec fn pwl_points(points: Seq<(Real, Real)>) -> Seq<char>
    decreases points.len(),
{
    if points.len() == 0 {
        Seq::empty()
    } else {
        pwl_points(points.drop_last()) + (if points.len() > 1 {
            " "@
        } else {
            ""@
        }) + sci10(points.last().0) + " "@ + sci10(points.last().1)
    }
}

pub open spec fn pwl_line(
    name: Seq<char>,
    p: Seq<char>,
    n: Seq<char>,
    points: Seq<(Real, Real)>,
) -> Seq<char> {
    source_head(name, p, n) + " PWL("@ + pwl_points(points) + ")"@
}

/// The element line of a waveform.
pub open spec fn waveform_line(
    name: Seq<char>,
    p: Seq<char>,
    n: Seq<char>,
    w: SourceWaveform,
) -> Seq<char> {
    match w {
        SourceWaveform::Dc(v) => dc_line(name, p, n, v),
        SourceWaveform::Pulse { v1, v2, td, tr, tf, pw, per } => pulse_line(
            name,
            p,
            n,
            Pulse {
                v_initial: v1,
                v_pulsed: v2,
                t_delay: td,
                t_rise: tr,
                t_fall: tf,
                pulse_width: pw,
                period: if (Real { bits: 0 }).below(per) {
                    per
                } else {
                    Real { bits: NO_REPEAT_BITS }
                },
            },
        ),
        SourceWaveform::Sine { v_off, v_amp, freq, td, theta } => sine_line(
            name,
            p,
            n,
            Sine { v_offset: v_off, v_amplitude: v_amp, frequency: freq, t_delay: td, damping: theta },
        ),
    }
}

impl SourceWaveform {
    pub fn pulse(v1: Real, v2: Real, td: Real, tr: Real, tf: Real, pw: Real, per: Real) -> (res:
        Self)
        ensures
            res == (SourceWaveform::Pulse { v1, v2, td, tr, tf, pw, per }),
    {
        SourceWaveform::Pulse { v1, v2, td, tr, tf, pw, per }
    }

    /// Undamped sine.
    pub fn sine(v_off: Real, v_amp: Real, freq: Real, td: Real) -> (res: Self)
        ensures
            res == (SourceWaveform::Sine { v_off, v_amp, freq, td, theta: Real { bits: 0 } }),
    {
        SourceWaveform::Sine { v_off, v_amp, freq, td, theta: Real { bits: 0 } }
    }
}

fn head_string(name: &str, p: &str, n: &str) -> (res: String)
    ensures
        res@ == source_head(name@, p@, n@),
{
    let mut s = "V".to_owned();
    s.append(name);
    s.append(" ");
    s.append(p);
    s.append(" ");
    s.append(n);
    s
}

fn push_sci10(s: &mut String, r: Real)
    ensures
        final(s)@ == old(s)@ + sci10(r),
{
    s.append(numfmt::to_scientific(r, 10).as_str());
}

proof fn lemma_texts_push(v: Seq<String>, s: String)
    ensures
        text::texts(v.push(s)) == text::texts(v).push(s@),
{
    assert(text::texts(v.push(s)) =~= text::texts(v).push(s@));
}

impl Netlist {
    pub open spec fn model(self) -> DeckModel {
        DeckModel {
            title: self.title@,
            preamble: text::texts(self.preamble@),
            models: text::texts(self.models@),
            body: text::texts(self.body@),
        }
    }

    /// An empty deck.
    pub fn new(title: &str) -> (res: Self)
        ensures
            res.model() == (DeckModel {
                title: title@,
                preamble: Seq::empty(),
                models: Seq::empty(),
                body: Seq::empty(),
            }),
            res.model().models_distinct(),
    {
        let res = Netlist {
            title: title.to_owned(),
            preamble: Vec::new(),
            models: Vec::new(),
            body: Vec::new(),
        };
        assert(text::texts(res.preamble@) =~= Seq::empty());
        assert(text::texts(res.models@) =~= Seq::empty());
        assert(text::texts(res.body@) =~= Seq::empty());
        res
    }

    /// Adds an `.include`, `.lib` or `.option` line.
    pub fn add_preamble(&mut self, line: &str)
        ensures
            final(self).model() == (DeckModel {
                preamble: old(self).model().preamble.push(line@),
                ..old(self).model()
            }),
    {
        let s = line.to_owned();
        proof {
            lemma_texts_push(self.preamble@, s);
        }
        self.preamble.push(s);
    }

    /// Adds a model card, unless the very same card is there already.
    pub fn add_model(&mut self, line: &str)
        ensures
            final(self).model() == old(self).model().model(line@),
            old(self).model().models_distinct() ==> final(self).model().models_distinct(),
    {
        let mut i: usize = 0;
        while i < self.models.len()
            invariant
                i <= self.models.len(),
                *self == *old(self),
                forall|j: int| 0 <= j < i ==> self.models@[j]@ != line@,
            decreases self.models.len() - i,
        {
            if text::same(self.models[i].as_str(), line) {
                assert(self.model().models[i as int] == line@);
                return;
            }
            i = i + 1;
        }
        let s = line.to_owned();
        proof {
            assert(!self.model().models.contains(line@)) by {
                if self.model().models.contains(line@) {
                    let j = choose|j: int|
                        0 <= j < self.model().models.len() && self.model().models[j] == line@;
                    assert(self.models@[j]@ == line@);
                }
            }
            lemma_texts_push(self.models@, s);
        }
        self.models.push(s);
        proof {
            let before = old(self).model();
            let after = self.model();
            if before.models_distinct() {
                assert forall|a: int, b: int|
                    0 <= a < b < after.models.len() implies #[trigger] after.models[a]
                    != #[trigger] after.models[b] by {
                    assert(after.models[a] == before.models[a]);
                    if b < before.models.len() {
                        assert(after.models[b] == before.models[b]);
                    } else if before.models[a] == line@ {
                        assert(before.models.contains(line@));
                    }
                }
            }
        }
    }

    /// Adds an element line.
    pub fn add_element(&mut self, line: &str)
        ensures
            final(self).model() == old(self).model().element(line@),
    {
        let s = line.to_owned();
        proof {
            lemma_texts_push(self.body@, s);
        }
        self.body.push(s);
    }

    /// Adds a constant voltage source.
    pub fn add_dc_source(&mut self, name: &str, p: &str, n: &str, volts: Real)
        ensures
            final(self).model() == old(self).model().element(dc_line(name@, p@, n@, volts)),
    {
        let mut s = head_string(name, p, n);
        s.append(" DC ");
        push_sci10(&mut s, volts);
        self.add_element(s.as_str());
    }

    /// Adds a pulsed voltage source.
    pub fn add_pulse_source(&mut self, name: &str, p: &str, n: &str, pulse: &Pulse)
        ensures
            final(self).model() == old(self).model().element(pulse_line(name@, p@, n@, *pulse)),
    {
        let mut s = head_string(name, p, n);
        s.append(" PULSE(");
        push_sci10(&mut s, pulse.v_initial);
        s.append(" ");
        push_sci10(&mut s, pulse.v_pulsed);
        s.append(" ");
        push_sci10(&mut s, pulse.t_delay);
        s.append(" ");
        push_sci10(&mut s, pulse.t_rise);
        s.append(" ");
        push_sci10(&mut s, pulse.t_fall);
        s.append(" ");
        push_sci10(&mut s, pulse.pulse_width);
        s.append(" ");
        push_sci10(&mut s, pulse.period);
        s.append(")");
        self.add_element(s.as_str());
    }

    /// Adds a sinusoidal voltage source.
    pub fn add_sine_source(&mut self, name: &str, p: &str, n: &str, sine: &Sine)
        ensures
            final(self).model() == old(self).model().element(sine_line(name@, p@, n@, *sine)),
    {
        let mut s = head_string(name, p, n);
        s.append(" SIN(");
        push_sci10(&mut s, sine.v_offset);
        s.append(" ");
        push_sci10(&mut s, sine.v_amplitude);
        s.append(" ");
        push_sci10(&mut s, sine.frequency);
        s.append(" ");
        push_sci10(&mut s, sine.t_delay);
        s.append(" ");
        push_sci10(&mut s, sine.damping);
        s.append(")");
        self.add_element(s.as_str());
    }

    /// Adds the source line of a waveform. A pulse that does not repeat gets a
    /// period beyond any simulated time.
    pub fn add_waveform_source(&mut self, name: &str, p: &str, n: &str, w: &SourceWaveform)
        ensures
            final(self).model() == old(self).model().element(waveform_line(name@, p@, n@, *w)),
    {
        match *w {
            SourceWaveform::Dc(v) => {
                self.add_dc_source(name, p, n, v);
            },
            SourceWaveform::Pulse { v1, v2, td, tr, tf, pw, per } => {
                let period = if (Real { bits: 0 }).lt(per) {
                    per
                } else {
                    Real { bits: NO_REPEAT_BITS }
                };
                let pulse = Pulse {
                    v_initial: v1,
                    v_pulsed: v2,
                    t_delay: td,
                    t_rise: tr,
                    t_fall: tf,
                    pulse_width: pw,
                    period,
                };
                self.add_pulse_source(name, p, n, &pulse);
            },
            SourceWaveform::Sine { v_off, v_amp, freq, td, theta } => {
                let sine = Sine {
                    v_offset: v_off,
                    v_amplitude: v_amp,
                    frequency: freq,
                    t_delay: td,
                    damping: theta,
                };
                self.add_sine_source(name, p, n, &sine);
            },
        }
    }

    /// Adds a piecewise-linear voltage source.
    pub fn add_pwl_source(&mut self, name: &str, p: &str, n: &str, pwl: &Pwl)
        ensures
            final(self).model() == old(self).model().element(
                pwl_line(name@, p@, n@, pwl.points@),
            ),
    {
        let mut line = head_string(name, p, n);
        line.append(" PWL(");
        let ghost head = line@;
        let mut i: usize = 0;
        proof {
            reveal_strlit("");
            assert(pwl.points@.take(0) =~= Seq::empty());
            assert(head + pwl_points(pwl.points@.take(0)) =~= head);
        }
        while i < pwl.points.len()
            invariant
                i <= pwl.points.len(),
                line@ == head + pwl_points(pwl.points@.take(i as int)),
                ""@ == Seq::<char>::empty(),
            decreases pwl.points.len() - i,
        {
            let ghost before = line@;
            if i > 0 {
                line.append(" ");
            }
            push_sci10(&mut line, pwl.points[i].0);
            line.append(" ");
            push_sci10(&mut line, pwl.points[i].1);
            i = i + 1;
            proof {
                let s = pwl.points@.take(i as int);
                assert(s.drop_last() =~= pwl.points@.take(i - 1));
                assert(line@ =~= head + pwl_points(s));
            }
        }
        assert(pwl.points@.take(pwl.points@.len() as int) =~= pwl.points@);
        line.append(")");
        self.add_element(line.as_str());
    }

    /// The deck as text.
    pub open spec fn deck_text(self) -> Seq<char> {
        "* "@ + self.title@ + "\n"@ + text::joined_lines(text::texts(self.preamble@))
            + text::joined_lines(text::texts(self.models@)) + text::joined_lines(
            text::texts(self.body@),
        )
    }

    /// Renders the deck: title, preamble, model cards, body. Analysis
    /// directives are for the caller to add.
    pub fn deck(&self) -> (res: String)
        ensures
            res@ == self.deck_text(),
    {
        let mut s = "* ".to_owned();
        s.append(self.title.as_str());
        s.append("\n");
        s.append(text::join_lines(&self.preamble).as_str());
        s.append(text::join_lines(&self.models).as_str());
        s.append(text::join_lines(&self.body).as_str());
        s
    }
}

/// A circuit block that can write itself into a SPICE deck.
pub trait SpiceEmit {
    /// Number of electrical terminals.
    spec fn terminals(&self) -> nat;

    /// The deck once the block has been written into it.
    spec fn emitted(&self, deck: DeckModel, nets: Seq<&str>, id: Seq<char>) -> DeckModel;

    fn n_terminals(&self) -> (res: usize)
        ensures
            res == self.terminals(),
    ;

    /// Writes the block into the deck. `nets` are the nodes at its terminals,
    /// `id` is its designator.
    fn emit_spice(&self, net: &mut Netlist, nets: &[&str], id: &str) -> (res: Result<(), EmitError>)
        ensures
            match res {
                Ok(()) => {
                    &&& nets@.len() == self.terminals()
                    &&& final(net).model() == self.emitted(old(net).model(), nets@, id@)
                },
                Err(EmitError::ArityMismatch { block, expected, got }) => {
                    &&& nets@.len() != self.terminals()
                    &&& expected == self.terminals()
                    &&& got == nets@.len()
                    &&& final(net).model() == old(net).model()
                },
            },
    ;
}

/// Adding the same model card again changes nothing.
pub proof fn model_cards_are_kept_once(d: DeckModel, line: Seq<char>)
    ensures
        d.model(line).models.contains(line),
        d.model(line).model(line) == d.model(line),
{
    if !d.models.contains(line) {
        assert(d.model(line).models[d.models.len() as int] == line);
    }
}

/// A pulse without a period of its own never comes again; with one, and for every other
/// waveform, the numbers stand in the line as they are given.
pub proof fn waveforms_keep_their_numbers(
    name: Seq<char>,
    p: Seq<char>,
    n: Seq<char>,
    v: (Real, Real),
    t: (Real, Real, Real, Real),
    per: Real,
)
    ensures
        waveform_line(name, p, n, SourceWaveform::Dc(v.0)) == dc_line(name, p, n, v.0),
        ({
            let w = SourceWaveform::Pulse {
                v1: v.0,
                v2: v.1,
                td: t.0,
                tr: t.1,
                tf: t.2,
                pw: t.3,
                per,
            };
            let pulse = Pulse {
                v_initial: v.0,
                v_pulsed: v.1,
                t_delay: t.0,
                t_rise: t.1,
                t_fall: t.2,
                pulse_width: t.3,
                period: per,
            };
            &&& (Real { bits: 0 }).below(per) ==> waveform_line(name, p, n, w) == pulse_line(
                name,
                p,
                n,
                pulse,
            )
            &&& !(Real { bits: 0 }).below(per) ==> waveform_line(name, p, n, w) == pulse_line(
                name,
                p,
                n,
                (Pulse { period: Real { bits: NO_REPEAT_BITS }, ..pulse }),
            )
        }),
{
}

/// Adding a line, or a model card, leaves the title, what comes first, and all lines and
/// cards that are there as they are.
pub proof fn decks_only_grow(d: DeckModel, line: Seq<char>)
    ensures
        d.element(line).title == d.title && d.element(line).preamble == d.preamble
            && d.element(line).models == d.models && d.element(line).body == d.body.push(line),
        d.model(line).title == d.title && d.model(line).preamble == d.preamble && d.model(
            line,
        ).body == d.body,
        d.models.contains(line) ==> d.model(line).models == d.models,
        !d.models.contains(line) ==> d.model(line).models == d.models.push(line),
        d.models_distinct() ==> d.model(line).models_distinct(),
{
}

} // verus!
