//! What one optimization run produces: a row of named numbers per step.

use crate::double::Real;
use crate::numfmt;
use crate::ordmap;
use crate::ordmap::NameMap;
use crate::text;
use vstd::prelude::*;
use vstd::string::*;

verus! {

/// 1e-3.
pub const SMALL_BITS: u64 = 0x3f50_624d_d2f1_a9fc;

/// 1e6.
pub const LARGE_BITS: u64 = 0x412e_8480_0000_0000;

/// One step's worth of named numbers.
#[derive(Debug)]
pub struct TraceRow {
    pub step: u32,
    pub values: NameMap<Real>,
}

impl Default for TraceRow {
    fn default() -> (res: Self)
        ensures
            res.step == 0,
            res.values@ == Map::<Seq<char>, Real>::empty(),
    {
        TraceRow { step: 0, values: NameMap::new() }
    }
}

/// What a row holds under a name; zero where it holds nothing.
pub open spec fn value_in(m: Map<Seq<char>, Real>, name: Seq<char>) -> Real {
    if m.contains_key(name) {
        m[name]
    } else {
        Real { bits: 0 }
    }
}

impl TraceRow {
    pub fn new(step: u32) -> (res: Self)
        ensures
            res.step == step,
            res.values@ == Map::<Seq<char>, Real>::empty(),
    {
        TraceRow { step, values: NameMap::new() }
    }

    /// The row with one more number; a number already there under the name is
    /// replaced.
    pub fn with(self, name: &str, value: Real) -> (res: Self)
        ensures
            res.step == self.step,
            res.values@ == self.values@.insert(name@, value),
    {
        TraceRow { step: self.step, values: self.values.with(name, value) }
    }

    /// Adds a number; one already there under the name is replaced.
    pub fn set(&mut self, name: &str, value: Real)
        ensures
            final(self).step == old(self).step,
            final(self).values@ == old(self).values@.insert(name@, value),
    {
        self.values.set(name, value);
    }

    /// The number under a name, or zero.
    pub fn get(&self, name: &str) -> (res: Real)
        ensures
            res == value_in(self.values@, name@),
    {
        match self.values.get(name) {
            Some(v) => v,
            None => Real { bits: 0 },
        }
    }
}

/// Anything that produces one row per step.
pub trait OptStep: Sized {
    /// Whether every step may be asked for.
    open spec fn total(&self) -> bool {
        true
    }

    /// Whether a step, asked for in one state, may give a row and lead to another state.
    open spec fn gives(before: Self, step: u32, after: Self, row: TraceRow) -> bool {
        true
    }

    fn step(&mut self, step: u32) -> (res: TraceRow)
        requires
            old(self).total(),
        ensures
            final(self).total(),
            Self::gives(*old(self), step, *final(self), res),
    ;
}

/// A function gives for each step what a call of it returns. In verified code it changes
/// nothing that it has captured, so that it is after a step what it was before.
impl<F: FnMut(u32) -> TraceRow> OptStep for F {
    open spec fn total(&self) -> bool {
        forall|step: u32| #[trigger] call_requires(*self, (step,))
    }

    open spec fn gives(before: Self, step: u32, after: Self, row: TraceRow) -> bool {
        call_ensures(before, (step,), row) && after == before
    }

    fn step(&mut self, step: u32) -> TraceRow {
        self(step)
    }
}

/// Whether steps from zero on, each asked for once and in order, may lead through some
/// states and give some rows.
pub open spec fn goes_through<S: OptStep>(states: Seq<S>, rows: Seq<TraceRow>) -> bool {
    &&& states.len() == rows.len() + 1
    &&& forall|k: int|
        0 <= k < rows.len() ==> S::gives(states[k], k as u32, states[k + 1], #[trigger] rows[k])
}

/// Which steps a trace keeps.
#[derive(Debug, Clone, Copy, PartialEq, Eq, Structural)]
pub enum LogSchedule {
    /// Every step.
    Every,
    /// Steps 1, 2, 4, 8 and so on, and the first and the last.
    Logarithmic,
    /// Every so many steps, and the last.
    Stride(u32),
}

impl Default for LogSchedule {
    fn default() -> (res: Self)
        ensures
            res == LogSchedule::Every,
    {
        LogSchedule::Every
    }
}

/// Whether `n` is a power of two.
pub open spec fn is_power_of_two(n: nat) -> bool
    decreases n,
{
    if n == 0 {
        false
    } else if n == 1 {
        true
    } else {
        n % 2 == 0 && is_power_of_two(n / 2)
    }
}

fn power_of_two(n: u32) -> (res: bool)
    ensures
        res == is_power_of_two(n as nat),
{
    let mut m: u32 = n;
    while m > 1 && m % 2 == 0
        invariant
            is_power_of_two(n as nat) == is_power_of_two(m as nat),
        decreases m,
    {
        m = m / 2;
    }
    m == 1
}

impl LogSchedule {
    pub open spec fn keeps(self, step: u32, total: u32) -> bool {
        step == 0 || step == total || match self {
            LogSchedule::Every => true,
            LogSchedule::Logarithmic => is_power_of_two(step as nat),
            LogSchedule::Stride(n) => n > 0 && step % n == 0,
        }
    }

    /// Whether the trace of a run of `total` steps keeps a step.
    pub fn should_log(&self, step: u32, total: u32) -> (res: bool)
        ensures
            res == self.keeps(step, total),
    {
        if step == 0 || step == total {
            return true;
        }
        match *self {
            LogSchedule::Every => true,
            LogSchedule::Logarithmic => power_of_two(step),
            LogSchedule::Stride(n) => n > 0 && step % n == 0,
        }
    }
}

/// Every schedule keeps the first and the last step.
pub proof fn first_and_last_step_are_kept(s: LogSchedule, total: u32)
    ensures
        s.keeps(0, total),
        s.keeps(total, total),
{
}

/// How a run is traced.
#[derive(Debug)]
pub struct TraceCfg {
    /// Names the run and the directory of its assets.
    pub name: String,
    /// The last step; the first is step zero.
    pub steps: u32,
    pub log_at: LogSchedule,
}

impl TraceCfg {
    pub fn new(name: &str, steps: u32) -> (res: Self)
        ensures
            res.name@ == name@,
            res.steps == steps,
            res.log_at == LogSchedule::Every,
    {
        TraceCfg { name: name.to_owned(), steps, log_at: LogSchedule::Every }
    }

    pub fn with_log_schedule(self, sched: LogSchedule) -> (res: Self)
        ensures
            res.name@ == self.name@,
            res.steps == self.steps,
            res.log_at == sched,
    {
        TraceCfg { name: self.name, steps: self.steps, log_at: sched }
    }
}

/// The rows of a run.
#[derive(Debug)]
pub struct Trace {
    pub rows: Vec<TraceRow>,
    /// The names in the order in which they first appeared.
    pub series_order: Vec<String>,
}

impl Default for Trace {
    fn default() -> (res: Self)
        ensures
            res.rows@.len() == 0,
            res.series_order@.len() == 0,
    {
        Trace { rows: Vec::new(), series_order: Vec::new() }
    }
}

/// Those of the first `n` rows whose steps are kept.
pub open spec fn kept_rows(
    produced: Seq<TraceRow>,
    sched: LogSchedule,
    total: u32,
    n: int,
) -> Seq<TraceRow>
    decreases n,
{
    if n <= 0 {
        Seq::empty()
    } else if sched.keeps((n - 1) as u32, total) {
        kept_rows(produced, sched, total, n - 1).push(produced[n - 1])
    } else {
        kept_rows(produced, sched, total, n - 1)
    }
}

/// A list of names with one more at its end, unless it is there already.
pub open spec fn with_new(s: Seq<Seq<char>>, name: Seq<char>) -> Seq<Seq<char>> {
    if s.contains(name) {
        s
    } else {
        s.push(name)
    }
}

/// A list of names with the new ones among the first `n` of a listing.
pub open spec fn with_row(
    s: Seq<Seq<char>>,
    listing: Seq<(String, Real)>,
    n: int,
) -> Seq<Seq<char>>
    decreases n,
{
    if n <= 0 {
        s
    } else {
        with_new(with_row(s, listing, n - 1), listing[n - 1].0@)
    }
}

/// The names in the first `n` rows, in the order in which they first appear; the
/// names of one row come in ascending order.
pub open spec fn names_in_order(rows: Seq<TraceRow>, n: int) -> Seq<Seq<char>>
    decreases n,
{
    if n <= 0 {
        Seq::empty()
    } else {
        let listing = rows[n - 1].values.listing();
        with_row(names_in_order(rows, n - 1), listing, listing.len() as int)
    }
}

proof fn lemma_with_row(s: Seq<Seq<char>>, listing: Seq<(String, Real)>, n: int)
    requires
        s.no_duplicates(),
        0 <= n <= listing.len(),
    ensures
        with_row(s, listing, n).no_duplicates(),
        forall|x: Seq<char>|
            #![trigger with_row(s, listing, n).contains(x)]
            with_row(s, listing, n).contains(x) <==> s.contains(x) || exists|k: int|
                0 <= k < n && (#[trigger] listing[k]).0@ == x,
    decreases n,
{
    if n > 0 {
        lemma_with_row(s, listing, n - 1);
        let before = with_row(s, listing, n - 1);
        let r = with_row(s, listing, n);
        let name = listing[n - 1].0@;
        assert forall|x: Seq<char>| #![trigger r.contains(x)] r.contains(x) <==> s.contains(x)
            || exists|k: int| 0 <= k < n && (#[trigger] listing[k]).0@ == x by {
            if before.contains(x) {
                let i = choose|i: int| 0 <= i < before.len() && before[i] == x;
                assert(r[i] == x);
            }
            if x == name && !before.contains(x) {
                assert(r.last() == x);
            }
            if r.contains(x) && x != name {
                let i = choose|i: int| 0 <= i < r.len() && r[i] == x;
                assert(before[i] == x);
            }
            if exists|k: int| 0 <= k < n - 1 && (#[trigger] listing[k]).0@ == x {
                let k = choose|k: int| 0 <= k < n - 1 && (#[trigger] listing[k]).0@ == x;
                assert(0 <= k < n && listing[k].0@ == x);
            }
        }
    }
}

/// The names of a trace are listed once each, and a name is listed exactly when
/// some row holds a number under it.
pub proof fn series_are_listed_once(rows: Seq<TraceRow>, n: int)
    requires
        0 <= n <= rows.len(),
    ensures
        names_in_order(rows, n).no_duplicates(),
        forall|x: Seq<char>|
            #![trigger names_in_order(rows, n).contains(x)]
            names_in_order(rows, n).contains(x) <==> exists|i: int, k: int|
                0 <= i < n && 0 <= k < rows[i].values.listing().len() && (
                #[trigger] rows[i].values.listing()[k]).0@ == x,
    decreases n,
{
    if n > 0 {
        series_are_listed_once(rows, n - 1);
        let before = names_in_order(rows, n - 1);
        let listing = rows[n - 1].values.listing();
        lemma_with_row(before, listing, listing.len() as int);
        let r = names_in_order(rows, n);
        assert forall|x: Seq<char>| #![trigger r.contains(x)] r.contains(x) <==> exists|
            i: int,
            k: int,
        |
            0 <= i < n && 0 <= k < rows[i].values.listing().len() && (
            #[trigger] rows[i].values.listing()[k]).0@ == x by {
            if r.contains(x) {
                if before.contains(x) {
                    let (i, k) = choose|i: int, k: int|
                        0 <= i < n - 1 && 0 <= k < rows[i].values.listing().len() && (
                        #[trigger] rows[i].values.listing()[k]).0@ == x;
                    assert(rows[i].values.listing()[k].0@ == x);
                } else {
                    let k = choose|k: int| 0 <= k < listing.len() && (#[trigger] listing[k]).0@ == x;
                    assert(rows[n - 1].values.listing()[k].0@ == x);
                }
            }
            if exists|i: int, k: int|
                0 <= i < n && 0 <= k < rows[i].values.listing().len() && (
                #[trigger] rows[i].values.listing()[k]).0@ == x {
                let (i, k) = choose|i: int, k: int|
                    0 <= i < n && 0 <= k < rows[i].values.listing().len() && (
                    #[trigger] rows[i].values.listing()[k]).0@ == x;
                if i == n - 1 {
                    assert(listing[k].0@ == x);
                } else {
                    assert(before.contains(x));
                }
            }
        }
    }
}

fn note_name(names: &mut Vec<String>, name: &str)
    ensures
        text::texts(final(names)@) == with_new(text::texts(old(names)@), name@),
{
    let ghost all = text::texts(names@);
    let mut i: usize = 0;
    while i < names.len()
        invariant
            i <= names.len(),
            names@ == old(names)@,
            all == text::texts(names@),
            forall|k: int| 0 <= k < i ==> #[trigger] all[k] != name@,
        decreases names.len() - i,
    {
        assert(all[i as int] == names@[i as int]@);
        if text::same(names[i].as_str(), name) {
            assert(all.contains(name@));
            return;
        }
        i = i + 1;
    }
    names.push(name.to_owned());
    assert(text::texts(names@) =~= all.push(name@));
}

proof fn lemma_same_state<F: FnMut(u32) -> TraceRow>(
    states: Seq<F>,
    rows: Seq<TraceRow>,
    k: int,
)
    requires
        goes_through(states, rows),
        0 <= k < rows.len(),
    ensures
        states[k] == states[0],
        call_ensures(states[0], (k as u32,), rows[k]),
    decreases k,
{
    assert(<F as OptStep>::gives(states[k], k as u32, states[k + 1], rows[k]));
    if k > 0 {
        lemma_same_state(states, rows, k - 1);
        assert(<F as OptStep>::gives(states[k - 1], (k - 1) as u32, states[k], rows[k - 1]));
    }
}

impl Trace {
    /// Adds a row, if its step is kept.
    pub fn record(&mut self, cfg: &TraceCfg, step: u32, row: TraceRow)
        requires
            text::texts(old(self).series_order@) == names_in_order(
                old(self).rows@,
                old(self).rows@.len() as int,
            ),
        ensures
            text::texts(final(self).series_order@) == names_in_order(
                final(self).rows@,
                final(self).rows@.len() as int,
            ),
            final(self).rows@ == (if cfg.log_at.keeps(step, cfg.steps) {
                old(self).rows@.push(row)
            } else {
                old(self).rows@
            }),
    {
        if cfg.log_at.should_log(step, cfg.steps) {
            let ghost before = text::texts(self.series_order@);
            let ghost rows_before = self.rows@;
            let ghost listing = row.values.listing();
            let mut k: usize = 0;
            while k < row.values.len()
                invariant
                    k <= listing.len(),
                    listing == row.values.listing(),
                    self.rows@ == rows_before,
                    text::texts(self.series_order@) == with_row(before, listing, k as int),
                decreases listing.len() - k,
            {
                note_name(&mut self.series_order, row.values.name_at(k).as_str());
                k = k + 1;
            }
            self.rows.push(row);
            proof {
                lemma_names_extend(rows_before, row);
            }
        }
    }

    /// Runs every step from zero to the last, in order, and keeps of the rows that they
    /// give those that the schedule asks for.
    pub fn run<S: OptStep>(cfg: &TraceCfg, optimizer: S) -> (res: Self)
        requires
            optimizer.total(),
        ensures
            exists|states: Seq<S>, produced: Seq<TraceRow>| #[trigger]
                goes_through(states, produced) && states[0] == optimizer && produced.len()
                    == cfg.steps + 1 && res.rows@ == kept_rows(
                    produced,
                    cfg.log_at,
                    cfg.steps,
                    produced.len() as int,
                ),
            text::texts(res.series_order@) == names_in_order(res.rows@, res.rows@.len() as int),
    {
        let mut optimizer = optimizer;
        let mut trace = Trace { rows: Vec::new(), series_order: Vec::new() };
        assert(text::texts(trace.series_order@) =~= names_in_order(trace.rows@, 0));
        let mut n: u64 = 0;
        let ghost first = optimizer;
        let ghost mut produced: Seq<TraceRow> = Seq::empty();
        let ghost mut states: Seq<S> = seq![optimizer];
        while n <= cfg.steps as u64
            invariant
                optimizer.total(),
                goes_through(states, produced),
                states[0] == first,
                states.last() == optimizer,
                n <= cfg.steps + 1,
                produced.len() == n,
                trace.rows@ == kept_rows(produced, cfg.log_at, cfg.steps, n as int),
                text::texts(trace.series_order@) == names_in_order(
                    trace.rows@,
                    trace.rows@.len() as int,
                ),
            decreases cfg.steps + 1 - n,
        {
            let step: u32 = n as u32;
            let row = optimizer.step(step);
            let ghost before = produced;
            proof {
                let states0 = states;
                produced = produced.push(row);
                states = states.push(optimizer);
                assert forall|k: int| 0 <= k < produced.len() implies S::gives(
                    states[k],
                    k as u32,
                    states[k + 1],
                    #[trigger] produced[k],
                ) by {
                    if k < n {
                        assert(produced[k] == before[k]);
                        assert(states[k] == states0[k] && states[k + 1] == states0[k + 1]);
                    }
                }
                lemma_kept_prefix(before, produced, cfg.log_at, cfg.steps, n as int);
            }
            trace.record(cfg, step, row);
            n = n + 1;
        }
        assert(goes_through(states, produced));
        trace
    }

    /// Runs a function for every step from zero to the last.
    pub fn run_fn<F: FnMut(u32) -> TraceRow>(cfg: &TraceCfg, f: F) -> (res: Self)
        requires
            forall|step: u32| #[trigger] call_requires(f, (step,)),
        ensures
            exists|produced: Seq<TraceRow>|
                produced.len() == cfg.steps + 1 && (forall|k: int|
                    0 <= k < produced.len() ==> call_ensures(
                        f,
                        (k as u32,),
                        #[trigger] produced[k],
                    )) && res.rows@ == #[trigger] kept_rows(
                    produced,
                    cfg.log_at,
                    cfg.steps,
                    produced.len() as int,
                ),
            text::texts(res.series_order@) == names_in_order(res.rows@, res.rows@.len() as int),
    {
        let res = Trace::run(cfg, f);
        proof {
            let (states, produced) = choose|states: Seq<F>, produced: Seq<TraceRow>| #[trigger]
                goes_through(states, produced) && states[0] == f && produced.len() == cfg.steps + 1
                    && res.rows@ == kept_rows(
                    produced,
                    cfg.log_at,
                    cfg.steps,
                    produced.len() as int,
                );
            assert forall|k: int| 0 <= k < produced.len() implies call_ensures(
                f,
                (k as u32,),
                #[trigger] produced[k],
            ) by {
                lemma_same_state(states, produced, k);
            }
            assert(res.rows@ == kept_rows(
                produced,
                cfg.log_at,
                cfg.steps,
                produced.len() as int,
            ));
        }
        res
    }

    /// The points of one series: step and number.
    pub open spec fn points(self, name: Seq<char>) -> Seq<(Real, Real)> {
        Seq::new(
            self.rows@.len(),
            |i: int|
                (
                    Real::of_nat(self.rows@[i].step as nat),
                    value_in(self.rows@[i].values@, name),
                ),
        )
    }

    pub fn series(&self, name: &str) -> (res: Vec<(Real, Real)>)
        ensures
            res@ == self.points(name@),
    {
        let mut out: Vec<(Real, Real)> = Vec::new();
        let mut i: usize = 0;
        while i < self.rows.len()
            invariant
                i <= self.rows.len(),
                out@ =~= self.points(name@).take(i as int),
            decreases self.rows.len() - i,
        {
            out.push((Real::from_u64(self.rows[i].step as u64), self.rows[i].get(name)));
            i = i + 1;
        }
        assert(out@ =~= self.points(name@));
        out
    }

    /// The numbers of one series.
    pub open spec fn column(self, name: Seq<char>) -> Seq<Real> {
        Seq::new(self.rows@.len(), |i: int| value_in(self.rows@[i].values@, name))
    }

    /// The steps, as numbers.
    pub open spec fn steps(self) -> Seq<Real> {
        Seq::new(self.rows@.len(), |i: int| Real::of_nat(self.rows@[i].step as nat))
    }

    pub fn column_of(&self, name: &str) -> (res: Vec<Real>)
        ensures
            res@ == self.column(name@),
    {
        let mut out: Vec<Real> = Vec::new();
        let mut i: usize = 0;
        while i < self.rows.len()
            invariant
                i <= self.rows.len(),
                out@ =~= self.column(name@).take(i as int),
            decreases self.rows.len() - i,
        {
            out.push(self.rows[i].get(name));
            i = i + 1;
        }
        assert(out@ =~= self.column(name@));
        out
    }

    pub fn step_numbers(&self) -> (res: Vec<Real>)
        ensures
            res@ == self.steps(),
    {
        let mut out: Vec<Real> = Vec::new();
        let mut i: usize = 0;
        while i < self.rows.len()
            invariant
                i <= self.rows.len(),
                out@ =~= self.steps().take(i as int),
            decreases self.rows.len() - i,
        {
            out.push(Real::from_u64(self.rows[i].step as u64));
            i = i + 1;
        }
        assert(out@ =~= self.steps());
        out
    }

    /// The steps, and the numbers of each of the named series.
    pub fn series_many(&self, names: &Vec<&str>) -> (res: (Vec<Real>, Vec<(String, Vec<Real>)>))
        ensures
            res.0@ == self.steps(),
            res.1@.len() == names@.len(),
            forall|i: int|
                #![trigger res.1@[i]]
                0 <= i < names@.len() ==> res.1@[i].0@ == names@[i]@ && res.1@[i].1@ == self.column(
                    names@[i]@,
                ),
    {
        let mut ys: Vec<(String, Vec<Real>)> = Vec::new();
        let mut i: usize = 0;
        while i < names.len()
            invariant
                i <= names.len(),
                ys@.len() == i,
                forall|k: int|
                    #![trigger ys@[k]]
                    0 <= k < i ==> ys@[k].0@ == names@[k]@ && ys@[k].1@ == self.column(names@[k]@),
            decreases names.len() - i,
        {
            let name: &str = names[i];
            ys.push((name.to_owned(), self.column_of(name)));
            i = i + 1;
        }
        (self.step_numbers(), ys)
    }

    /// The trace as a table: the step, and every series in order.
    pub open spec fn csv(self) -> Seq<char> {
        "step"@ + name_cells_text(
            text::texts(self.series_order@),
            self.series_order@.len() as int,
        ) + "\n"@ + csv_lines_text(
            self.rows@,
            text::texts(self.series_order@),
            self.rows@.len() as int,
        )
    }

    pub fn to_csv(&self) -> (res: String)
        ensures
            res@ == self.csv(),
    {
        let mut s = "step".to_owned();
        s.append(name_cells(&self.series_order).as_str());
        s.append("\n");
        s.append(csv_lines(&self.rows, &self.series_order).as_str());
        s
    }
}

proof fn lemma_kept_prefix(
    a: Seq<TraceRow>,
    b: Seq<TraceRow>,
    sched: LogSchedule,
    total: u32,
    n: int,
)
    requires
        a.len() >= n,
        b.len() >= n,
        forall|i: int| 0 <= i < n ==> a[i] == b[i],
    ensures
        kept_rows(a, sched, total, n) == kept_rows(b, sched, total, n),
    decreases n,
{
    if n > 0 {
        lemma_kept_prefix(a, b, sched, total, n - 1);
    }
}

proof fn lemma_names_prefix(a: Seq<TraceRow>, b: Seq<TraceRow>, n: int)
    requires
        a.len() >= n,
        b.len() >= n,
        forall|i: int| 0 <= i < n ==> a[i] == b[i],
    ensures
        names_in_order(a, n) == names_in_order(b, n),
    decreases n,
{
    if n > 0 {
        lemma_names_prefix(a, b, n - 1);
    }
}

proof fn lemma_names_extend(rows: Seq<TraceRow>, row: TraceRow)
    ensures
        names_in_order(rows.push(row), (rows.len() + 1) as int) == with_row(
            names_in_order(rows, rows.len() as int),
            row.values.listing(),
            row.values.listing().len() as int,
        ),
{
    lemma_names_prefix(rows, rows.push(row), rows.len() as int);
}

// ── the table ──────────────────────────────────────────────────────

/// A number in a table: scientific where it is very small or very large.
pub open spec fn csv_number(v: Real) -> Seq<char> {
    if v.magnitude() == 0 {
        "0"@
    } else if v.abs_spec().below(Real { bits: SMALL_BITS }) || (Real { bits: LARGE_BITS }).at_most(
        v.abs_spec(),
    ) {
        numfmt::scientific(v, 6)
    } else {
        numfmt::fixed(v, 6, false)
    }
}

fn format_csv_number(v: Real) -> (res: String)
    ensures
        res@ == csv_number(v),
{
    if v.abs().to_bits() == 0 {
        "0".to_owned()
    } else if v.abs().lt(Real { bits: SMALL_BITS }) || (Real { bits: LARGE_BITS }).le(v.abs()) {
        numfmt::to_scientific(v, 6)
    } else {
        numfmt::to_fixed(v, 6, false)
    }
}

/// The first `n` names, each behind a comma.
pub open spec fn name_cells_text(names: Seq<Seq<char>>, n: int) -> Seq<char>
    decreases n,
{
    if n <= 0 {
        Seq::empty()
    } else {
        name_cells_text(names, n - 1) + ","@ + names[n - 1]
    }
}

fn name_cells(names: &Vec<String>) -> (res: String)
    ensures
        res@ == name_cells_text(text::texts(names@), names@.len() as int),
{
    let mut s = String::new();
    let mut i: usize = 0;
    while i < names.len()
        invariant
            i <= names.len(),
            s@ == name_cells_text(text::texts(names@), i as int),
        decreases names.len() - i,
    {
        s.append(",");
        s.append(names[i].as_str());
        assert(text::texts(names@)[i as int] == names@[i as int]@);
        i = i + 1;
    }
    s
}

/// What a row holds under the first `n` names, each behind a comma.
pub open spec fn number_cells_text(row: TraceRow, names: Seq<Seq<char>>, n: int) -> Seq<char>
    decreases n,
{
    if n <= 0 {
        Seq::empty()
    } else {
        number_cells_text(row, names, n - 1) + ","@ + csv_number(value_in(row.values@, names[n - 1]))
    }
}

fn number_cells(row: &TraceRow, names: &Vec<String>) -> (res: String)
    ensures
        res@ == number_cells_text(*row, text::texts(names@), names@.len() as int),
{
    let mut s = String::new();
    let mut i: usize = 0;
    while i < names.len()
        invariant
            i <= names.len(),
            s@ == number_cells_text(*row, text::texts(names@), i as int),
        decreases names.len() - i,
    {
        s.append(",");
        s.append(format_csv_number(row.get(names[i].as_str())).as_str());
        assert(text::texts(names@)[i as int] == names@[i as int]@);
        i = i + 1;
    }
    s
}

/// One line of the table.
pub open spec fn csv_line_text(row: TraceRow, names: Seq<Seq<char>>) -> Seq<char> {
    text::dec(row.step as nat) + number_cells_text(row, names, names.len() as int) + "\n"@
}

fn csv_line(row: &TraceRow, names: &Vec<String>) -> (res: String)
    ensures
        res@ == csv_line_text(*row, text::texts(names@)),
{
    assert(text::texts(names@).len() == names@.len());
    let mut s = text::u32_to_string(row.step);
    s.append(number_cells(row, names).as_str());
    s.append("\n");
    s
}

/// The lines of the first `n` rows.
pub open spec fn csv_lines_text(rows: Seq<TraceRow>, names: Seq<Seq<char>>, n: int) -> Seq<char>
    decreases n,
{
    if n <= 0 {
        Seq::empty()
    } else {
        csv_lines_text(rows, names, n - 1) + csv_line_text(rows[n - 1], names)
    }
}

fn csv_lines(rows: &Vec<TraceRow>, names: &Vec<String>) -> (res: String)
    ensures
        res@ == csv_lines_text(rows@, text::texts(names@), rows@.len() as int),
{
    let mut s = String::new();
    let mut i: usize = 0;
    while i < rows.len()
        invariant
            i <= rows.len(),
            s@ == csv_lines_text(rows@, text::texts(names@), i as int),
        decreases rows.len() - i,
    {
        s.append(csv_line(&rows[i], names).as_str());
        i = i + 1;
    }
    s
}

/// Powers of two are the products of twos.
pub proof fn powers_of_two_are_products_of_twos(n: nat)
    ensures
        is_power_of_two(n) <==> exists|e: nat| n == #[trigger] vstd::arithmetic::power2::pow2(e),
    decreases n,
{
    if n == 1 {
        vstd::arithmetic::power2::lemma2_to64();
        assert(1 == vstd::arithmetic::power2::pow2(0));
    } else if n >= 2 {
        powers_of_two_are_products_of_twos(n / 2);
        if is_power_of_two(n) {
            let e = choose|e: nat| n / 2 == #[trigger] vstd::arithmetic::power2::pow2(e);
            vstd::arithmetic::power2::lemma_pow2_unfold((e + 1) as nat);
            assert(n == vstd::arithmetic::power2::pow2((e + 1) as nat));
        }
        if exists|e: nat| n == #[trigger] vstd::arithmetic::power2::pow2(e) {
            let e = choose|e: nat| n == #[trigger] vstd::arithmetic::power2::pow2(e);
            if e == 0 {
                vstd::arithmetic::power2::lemma2_to64();
            } else {
                vstd::arithmetic::power2::lemma_pow2_unfold(e);
                assert(n / 2 == vstd::arithmetic::power2::pow2((e - 1) as nat));
            }
        }
    } else {
        assert forall|e: nat| 0 != #[trigger] vstd::arithmetic::power2::pow2(e) by {
            vstd::arithmetic::power2::lemma_pow2_pos(e);
        }
    }
}

/// Between the first and the last step, a schedule keeps every step, those that are powers of
/// two, or the multiples of its stride; a stride of zero keeps none.
pub proof fn schedules_keep_what_they_say(step: u32, total: u32, n: u32)
    requires
        0 < step < total,
    ensures
        LogSchedule::Every.keeps(step, total),
        LogSchedule::Logarithmic.keeps(step, total) <==> exists|e: nat|
            step == #[trigger] vstd::arithmetic::power2::pow2(e),
        !LogSchedule::Stride(0).keeps(step, total),
        n > 0 ==> (LogSchedule::Stride(n).keeps(step, total) <==> exists|k: int|
            step == #[trigger] (k * n)),
{
    powers_of_two_are_products_of_twos(step as nat);
    if n > 0 {
        if step % n == 0 {
            let k = step as int / n as int;
            assert(step == k * n) by (nonlinear_arith)
                requires
                    k == step as int / n as int,
                    step as int % n as int == 0,
                    n > 0,
            ;
        }
        if exists|k: int| step == #[trigger] (k * n) {
            let k = choose|k: int| step == #[trigger] (k * n);
            assert(step as int % n as int == 0) by (nonlinear_arith)
                requires
                    step == k * n,
                    n > 0,
            ;
        }
    }
}

/// The rows of a trace are those of the steps that its schedule keeps, in their order. `of`
/// says which step each is of.
pub proof fn traces_hold_the_steps_kept(
    produced: Seq<TraceRow>,
    sched: LogSchedule,
    total: u32,
    n: int,
) -> (of: Seq<int>)
    requires
        0 <= n <= produced.len(),
        n <= 0x1_0000_0000,
    ensures
        of.len() == kept_rows(produced, sched, total, n).len(),
        forall|j: int, k: int| 0 <= j < k < of.len() ==> (#[trigger] of[j]) < (#[trigger] of[k]),
        forall|k: int|
            #![trigger of[k]]
            0 <= k < of.len() ==> 0 <= of[k] < n && kept_rows(produced, sched, total, n)[k]
                == produced[of[k]] && sched.keeps(of[k] as u32, total),
        forall|i: int|
            #![trigger of.contains(i)]
            0 <= i < n && sched.keeps(i as u32, total) ==> of.contains(i),
    decreases n,
{
    if n == 0 {
        Seq::empty()
    } else {
        let less = traces_hold_the_steps_kept(produced, sched, total, n - 1);
        if sched.keeps((n - 1) as u32, total) {
            let of = less.push(n - 1);
            assert forall|i: int|
                #![trigger of.contains(i)]
                0 <= i < n && sched.keeps(i as u32, total) implies of.contains(i) by {
                if i < n - 1 {
                    assert(less.contains(i));
                    let k = choose|k: int| 0 <= k < less.len() && less[k] == i;
                    assert(of[k] == i);
                } else {
                    assert(of[of.len() - 1] == i);
                }
            }
            assert forall|k: int| #![trigger of[k]] 0 <= k < of.len() implies 0 <= of[k] < n
                && kept_rows(produced, sched, total, n)[k] == produced[of[k]] && sched.keeps(
                of[k] as u32,
                total,
            ) by {
                if k < less.len() {
                    assert(of[k] == less[k]);
                }
            }
            of
        } else {
            less
        }
    }
}

} // verus!
