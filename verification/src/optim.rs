//! Adam, and schedules for its learning rate and for the sharpness of smoothed losses.
//! Powers, cosines, logarithms and exponentials are computed by the caller: the schedules
//! say which are needed and what becomes of them.

use crate::single::{Single, HALF_BITS, ONE_BITS};
use crate::text;
use vstd::prelude::*;

verus! {

/// 0.9.
pub const BETA1_BITS: u32 = 0x3f66_6666;

/// 0.999.
pub const BETA2_BITS: u32 = 0x3f7f_be77;

/// 1e-8.
pub const EPS_BITS: u32 = 0x322b_cc77;

/// The ratio of a circle's circumference to its diameter.
pub const PI_BITS: u32 = 0x4049_0fdb;

// ── devices ────────────────────────────────────────────────────────

/// What graphs run on.
#[derive(Debug, Clone, Copy, PartialEq, Eq, Structural)]
pub enum DeviceChoice {
    Mlx,
    Cpu,
}

/// The GPU where there is one and nothing forces the CPU. Any setting but `0` forces it.
pub open spec fn device_for(forced: Option<Seq<char>>, mlx: bool) -> DeviceChoice {
    if (forced matches Some(v) && v != "0"@) || !mlx {
        DeviceChoice::Cpu
    } else {
        DeviceChoice::Mlx
    }
}

/// Picks a device.
pub fn choose_device(forced: Option<&str>, mlx: bool) -> (res: DeviceChoice)
    ensures
        res == device_for(text::opt_str(forced), mlx),
{
    match forced {
        Some(v) => {
            if !text::same(v, "0") {
                return DeviceChoice::Cpu;
            }
        },
        None => {},
    }
    if mlx {
        DeviceChoice::Mlx
    } else {
        DeviceChoice::Cpu
    }
}

/// `rlx_runtime::is_available` for the GPU. Left unsaid: what it returns, which depends on
/// the machine.
#[verifier::external_body]
fn mlx_available() -> (res: bool) {
    rlx_runtime::is_available(rlx_runtime::Device::Mlx)
}

/// The device for new sessions on this machine.
pub fn default_device() -> (res: DeviceChoice)
    ensures
        exists|mlx: bool| res == #[trigger] device_for(Option::<Seq<char>>::None, mlx),
{
    let mlx: bool = mlx_available();
    assert(device_for(Option::<Seq<char>>::None, mlx) == device_for(
        text::opt_str(None),
        mlx,
    ));
    choose_device(None, mlx)
}

/// The same, given the setting that can force the CPU.
pub fn default_device_or_env(forced: Option<&str>) -> (res: DeviceChoice)
    ensures
        exists|mlx: bool| res == #[trigger] device_for(text::opt_str(forced), mlx),
{
    let mlx: bool = mlx_available();
    assert(device_for(text::opt_str(forced), mlx) == device_for(
        text::opt_str(forced),
        mlx,
    ));
    choose_device(forced, mlx)
}

// ── Adam ───────────────────────────────────────────────────────────

/// The moments of all parameters, with how fast they fade.
#[derive(Clone, Debug)]
pub struct AdamState {
    pub m: Vec<Single>,
    pub v: Vec<Single>,
    pub b1: Single,
    pub b2: Single,
    pub eps: Single,
}

pub open spec fn one() -> Single {
    Single { bits: ONE_BITS }
}

/// The first moment after a gradient.
pub open spec fn next_m(b1: Single, m: Single, g: Single) -> Single {
    b1.mul_spec(m).add_spec(one().sub_spec(b1).mul_spec(g))
}

/// The second moment after a gradient.
pub open spec fn next_v(b2: Single, v: Single, g: Single) -> Single {
    b2.mul_spec(v).add_spec(one().sub_spec(b2).mul_spec(g).mul_spec(g))
}

/// A parameter after a step of Adam: it moves by the learning rate times its corrected
/// first moment over the root of its corrected second.
pub open spec fn stepped(
    p: Single,
    m: Single,
    v: Single,
    lr: Single,
    b1_t: Single,
    b2_t: Single,
    eps: Single,
) -> Single {
    let m_hat = m.div_spec(one().sub_spec(b1_t));
    let v_hat = v.div_spec(one().sub_spec(b2_t));
    p.sub_spec(lr.mul_spec(m_hat).div_spec(v_hat.sqrt_spec().add_spec(eps)))
}

fn zeros(n: usize) -> (res: Vec<Single>)
    ensures
        res@ == Seq::new(n as nat, |i: int| Single { bits: 0 }),
{
    let mut v: Vec<Single> = Vec::new();
    let mut i: usize = 0;
    while i < n
        invariant
            i <= n,
            v@ =~= Seq::new(i as nat, |k: int| Single { bits: 0 }),
        decreases n - i,
    {
        v.push(Single { bits: 0 });
        i = i + 1;
    }
    v
}

impl AdamState {
    /// Moments of zero for `n` parameters, which fade as is usual.
    pub fn new(n: usize) -> (res: Self)
        ensures
            res.m@ == Seq::new(n as nat, |i: int| Single { bits: 0 }),
            res.v@ == Seq::new(n as nat, |i: int| Single { bits: 0 }),
            res.b1 == (Single { bits: BETA1_BITS }),
            res.b2 == (Single { bits: BETA2_BITS }),
            res.eps == (Single { bits: EPS_BITS }),
    {
        AdamState::with_betas(
            n,
            Single { bits: BETA1_BITS },
            Single { bits: BETA2_BITS },
            Single { bits: EPS_BITS },
        )
    }

    pub fn with_betas(n: usize, b1: Single, b2: Single, eps: Single) -> (res: Self)
        ensures
            res.m@ == Seq::new(n as nat, |i: int| Single { bits: 0 }),
            res.v@ == Seq::new(n as nat, |i: int| Single { bits: 0 }),
            res.b1 == b1,
            res.b2 == b2,
            res.eps == eps,
    {
        AdamState { m: zeros(n), v: zeros(n), b1, b2, eps }
    }

    /// One step of Adam. `powers` are the two rates of fading to the power of the number of
    /// the step, counted from one.
    pub fn step(
        &mut self,
        params: &mut Vec<Single>,
        grads: &[Single],
        lr: Single,
        powers: (Single, Single),
    )
        requires
            old(self).m@.len() == old(self).v@.len(),
            old(params)@.len() == old(self).m@.len(),
            grads@.len() == old(self).m@.len(),
        ensures
            final(self).m@ == Seq::new(
                old(self).m@.len(),
                |k: int| next_m(old(self).b1, old(self).m@[k], grads@[k]),
            ),
            final(self).v@ == Seq::new(
                old(self).m@.len(),
                |k: int| next_v(old(self).b2, old(self).v@[k], grads@[k]),
            ),
            final(params)@ == Seq::new(
                old(self).m@.len(),
                |k: int|
                    stepped(
                        old(params)@[k],
                        final(self).m@[k],
                        final(self).v@[k],
                        lr,
                        powers.0,
                        powers.1,
                        old(self).eps,
                    ),
            ),
            final(self).b1 == old(self).b1,
            final(self).b2 == old(self).b2,
            final(self).eps == old(self).eps,
    {
        let ghost n = self.m@.len();
        let ghost m0 = self.m@;
        let ghost v0 = self.v@;
        let ghost p0 = params@;
        let unit = Single { bits: ONE_BITS };
        let mut k: usize = 0;
        while k < self.m.len()
            invariant
                k <= n,
                n == m0.len(),
                n == v0.len(),
                n == p0.len(),
                n == grads@.len(),
                self.m@.len() == n,
                self.v@.len() == n,
                params@.len() == n,
                unit == one(),
                self.b1 == old(self).b1,
                self.b2 == old(self).b2,
                self.eps == old(self).eps,
                forall|i: int|
                    #![trigger self.m@[i]]
                    0 <= i < n ==> self.m@[i] == (if i < k {
                        next_m(self.b1, m0[i], grads@[i])
                    } else {
                        m0[i]
                    }),
                forall|i: int|
                    #![trigger self.v@[i]]
                    0 <= i < n ==> self.v@[i] == (if i < k {
                        next_v(self.b2, v0[i], grads@[i])
                    } else {
                        v0[i]
                    }),
                forall|i: int|
                    #![trigger params@[i]]
                    0 <= i < n ==> params@[i] == (if i < k {
                        stepped(
                            p0[i],
                            self.m@[i],
                            self.v@[i],
                            lr,
                            powers.0,
                            powers.1,
                            self.eps,
                        )
                    } else {
                        p0[i]
                    }),
            decreases n - k,
        {
            let g: Single = grads[k];
            let m: Single = self.b1.mul(self.m[k]).add(unit.sub(self.b1).mul(g));
            let v: Single = self.b2.mul(self.v[k]).add(unit.sub(self.b2).mul(g).mul(g));
            let m_hat = m.div(unit.sub(powers.0));
            let v_hat = v.div(unit.sub(powers.1));
            let p: Single = params[k].sub(lr.mul(m_hat).div(v_hat.sqrt().add(self.eps)));
            self.m.set(k, m);
            self.v.set(k, v);
            params.set(k, p);
            k = k + 1;
        }
        assert(self.m@ =~= Seq::new(n, |k: int| next_m(self.b1, m0[k], grads@[k])));
        assert(self.v@ =~= Seq::new(n, |k: int| next_v(self.b2, v0[k], grads@[k])));
        assert(params@ =~= Seq::new(
            n,
            |k: int| stepped(p0[k], self.m@[k], self.v@[k], lr, powers.0, powers.1, self.eps),
        ));
    }
}

// ── learning rates ─────────────────────────────────────────────────

/// How the learning rate falls.
#[derive(Clone, Debug)]
pub enum LrSchedule {
    /// Not at all.
    Constant,
    /// Along half a cosine, down to a factor.
    Cosine { min_factor: Single },
    /// In a straight line, down to a factor.
    LinearDecay { min_factor: Single },
    /// By a factor at each of some steps.
    StepDecay { drop_at: Vec<u32>, factor: Single },
}

/// What a schedule needs of its caller.
#[derive(Clone, Copy, Debug)]
pub enum LrQuery {
    Nothing,
    /// The cosine of an angle.
    CosineOf(Single),
    /// A factor to some power.
    Power(Single, u32),
}

/// How much of a run is done, from zero to one.
pub open spec fn done(step: u32, total: u32) -> Single {
    Single::of_nat(
        (if step < total {
            step
        } else {
            total
        }) as nat,
    ).div_spec(Single::of_nat(total as nat))
}

fn progress(step: u32, total: u32) -> (res: Single)
    ensures
        res == done(step, total),
{
    let s: u32 = if step < total {
        step
    } else {
        total
    };
    Single::from_u64(s as u64).div(Single::from_u64(total as u64))
}

/// How many of the first `n` drops lie at or before a step.
pub open spec fn drops_until(drop_at: Seq<u32>, step: u32, n: int) -> nat
    decreases n,
{
    if n <= 0 {
        0
    } else {
        drops_until(drop_at, step, n - 1) + if step >= drop_at[n - 1] {
            1nat
        } else {
            0nat
        }
    }
}

fn count_drops(drop_at: &Vec<u32>, step: u32) -> (res: usize)
    ensures
        res == drops_until(drop_at@, step, drop_at@.len() as int),
{
    let mut c: usize = 0;
    let mut i: usize = 0;
    while i < drop_at.len()
        invariant
            c <= i <= drop_at@.len(),
            c == drops_until(drop_at@, step, i as int),
        decreases drop_at@.len() - i,
    {
        if step >= drop_at[i] {
            c = c + 1;
        }
        i = i + 1;
    }
    c
}

impl LrSchedule {
    pub open spec fn asks(self, step: u32, total: u32) -> LrQuery {
        if total == 0 {
            LrQuery::Nothing
        } else {
            match self {
                LrSchedule::Cosine { .. } => LrQuery::CosineOf(
                    (Single { bits: PI_BITS }).mul_spec(done(step, total)),
                ),
                LrSchedule::StepDecay { drop_at, factor } => LrQuery::Power(
                    factor,
                    drops_until(drop_at@, step, drop_at@.len() as int) as u32,
                ),
                _ => LrQuery::Nothing,
            }
        }
    }

    /// What the caller has to compute for a step. There are fewer than 2^32 drops.
    pub fn query(&self, step: u32, total: u32) -> (res: LrQuery)
        requires
            self matches LrSchedule::StepDecay { drop_at, factor } ==> drop_at@.len()
                <= 0xffff_ffff,
        ensures
            res == self.asks(step, total),
    {
        if total == 0 {
            return LrQuery::Nothing;
        }
        match self {
            LrSchedule::Cosine { min_factor: _ } => LrQuery::CosineOf(
                (Single { bits: PI_BITS }).mul(progress(step, total)),
            ),
            LrSchedule::StepDecay { drop_at, factor } => {
                let n: usize = count_drops(drop_at, step);
                proof {
                    lemma_drops(drop_at@, step, drop_at@.len() as int);
                }
                LrQuery::Power(*factor, n as u32)
            },
            _ => LrQuery::Nothing,
        }
    }

    pub open spec fn rate(self, base: Single, step: u32, total: u32, answer: Single) -> Single {
        if total == 0 {
            base
        } else {
            match self {
                LrSchedule::Constant => base,
                LrSchedule::Cosine { min_factor } => base.mul_spec(
                    min_factor.add_spec(
                        one().sub_spec(min_factor).mul_spec(Single { bits: HALF_BITS }).mul_spec(
                            one().add_spec(answer),
                        ),
                    ),
                ),
                LrSchedule::LinearDecay { min_factor } => base.mul_spec(
                    one().sub_spec(one().sub_spec(min_factor).mul_spec(done(step, total))),
                ),
                LrSchedule::StepDecay { .. } => base.mul_spec(answer),
            }
        }
    }

    /// The learning rate at a step, given the answer to the schedule's query.
    pub fn lr_at(&self, base: Single, step: u32, total: u32, answer: Single) -> (res: Single)
        ensures
            res == self.rate(base, step, total, answer),
    {
        if total == 0 {
            return base;
        }
        let unit = Single { bits: ONE_BITS };
        match self {
            LrSchedule::Constant => base,
            LrSchedule::Cosine { min_factor } => {
                let half = Single { bits: HALF_BITS };
                let factor = min_factor.add(unit.sub(*min_factor).mul(half).mul(unit.add(answer)));
                base.mul(factor)
            },
            LrSchedule::LinearDecay { min_factor } => {
                base.mul(unit.sub(unit.sub(*min_factor).mul(progress(step, total))))
            },
            LrSchedule::StepDecay { drop_at: _, factor: _ } => base.mul(answer),
        }
    }
}

proof fn lemma_drops(drop_at: Seq<u32>, step: u32, n: int)
    requires
        0 <= n <= drop_at.len(),
    ensures
        drops_until(drop_at, step, n) <= n,
    decreases n,
{
    if n > 0 {
        lemma_drops(drop_at, step, n - 1);
    }
}

/// Drops are never taken back.
pub proof fn drops_only_grow(drop_at: Seq<u32>, a: u32, b: u32, n: int)
    requires
        a <= b,
    ensures
        drops_until(drop_at, a, n) <= drops_until(drop_at, b, n),
    decreases n,
{
    if n > 0 {
        drops_only_grow(drop_at, a, b, n - 1);
    }
}

/// After its last step a schedule stays where it is, but for drops.
pub proof fn schedules_end(s: LrSchedule, base: Single, step: u32, total: u32, answer: Single)
    requires
        step >= total,
    ensures
        s.rate(base, step, total, answer) == s.rate(base, total, total, answer),
{
}

// ── sharpness ──────────────────────────────────────────────────────

/// How the sharpness of a smoothed loss grows.
#[derive(Clone, Copy, Debug)]
pub enum BetaSchedule {
    Constant(Single),
    /// In a straight line.
    LinearAnneal { start: Single, end: Single },
    /// In a straight line between logarithms.
    GeometricAnneal { start: Single, end: Single },
    /// Along half a cosine between logarithms.
    CosineAnneal { start: Single, end: Single },
}

/// What is known of the sharpness at a step.
#[derive(Clone, Copy, Debug)]
pub enum Sharpness {
    Is(Single),
    /// The exponential of a number.
    ExpOf(Single),
}

impl BetaSchedule {
    pub open spec fn at(
        self,
        step: u32,
        total: u32,
        logs: (Single, Single),
        cosine: Single,
    ) -> Sharpness {
        let t = done(step, total);
        match self {
            BetaSchedule::Constant(b) => Sharpness::Is(b),
            BetaSchedule::LinearAnneal { start, end } => if total == 0 {
                Sharpness::Is(start)
            } else {
                Sharpness::Is(start.add_spec(end.sub_spec(start).mul_spec(t)))
            },
            BetaSchedule::GeometricAnneal { start, .. } => if total == 0 {
                Sharpness::Is(start)
            } else {
                Sharpness::ExpOf(logs.0.add_spec(logs.1.sub_spec(logs.0).mul_spec(t)))
            },
            BetaSchedule::CosineAnneal { start, .. } => if total == 0 {
                Sharpness::Is(start)
            } else {
                let ramp = (Single { bits: HALF_BITS }).mul_spec(one().sub_spec(cosine));
                Sharpness::ExpOf(logs.0.add_spec(logs.1.sub_spec(logs.0).mul_spec(ramp)))
            },
        }
    }

    /// The sharpness at a step, given the logarithms of the sharpness at the start and at
    /// the end and the cosine of the angle of the step.
    pub fn beta_at(
        &self,
        step: u32,
        total: u32,
        logs: (Single, Single),
        cosine: Single,
    ) -> (res: Sharpness)
        ensures
            res == self.at(step, total, logs, cosine),
    {
        match self {
            BetaSchedule::Constant(b) => Sharpness::Is(*b),
            BetaSchedule::LinearAnneal { start, end } => {
                if total == 0 {
                    return Sharpness::Is(*start);
                }
                Sharpness::Is(start.add(end.sub(*start).mul(progress(step, total))))
            },
            BetaSchedule::GeometricAnneal { start, end: _ } => {
                if total == 0 {
                    return Sharpness::Is(*start);
                }
                Sharpness::ExpOf(logs.0.add(logs.1.sub(logs.0).mul(progress(step, total))))
            },
            BetaSchedule::CosineAnneal { start, end: _ } => {
                if total == 0 {
                    return Sharpness::Is(*start);
                }
                let ramp = (Single { bits: HALF_BITS }).mul(
                    (Single { bits: ONE_BITS }).sub(cosine),
                );
                Sharpness::ExpOf(logs.0.add(logs.1.sub(logs.0).mul(ramp)))
            },
        }
    }

    /// The angle whose cosine a step needs.
    pub fn angle_at(step: u32, total: u32) -> (res: Single)
        requires
            total > 0,
        ensures
            res == (Single { bits: PI_BITS }).mul_spec(done(step, total)),
    {
        (Single { bits: PI_BITS }).mul(progress(step, total))
    }
}

/// Graphs run on the GPU exactly where there is one and nothing but `0` is set to force the
/// CPU.
pub proof fn the_gpu_is_left_only_by_force(forced: Option<Seq<char>>, mlx: bool)
    ensures
        device_for(forced, mlx) == DeviceChoice::Mlx <==> mlx && (forced is None || forced
            == Some("0"@)),
{
}

/// Without steps, or where it is constant, the learning rate is the base. Where it drops, it
/// is the base times the answer for the number of drops that lie at or before the step, and
/// that number goes up by one at each of them.
pub proof fn rates_follow_their_schedule(
    s: LrSchedule,
    base: Single,
    step: u32,
    total: u32,
    answer: Single,
)
    ensures
        total == 0 ==> s.rate(base, step, total, answer) == base && s.asks(step, total)
            == LrQuery::Nothing,
        s is Constant ==> s.rate(base, step, total, answer) == base,
        s matches LrSchedule::StepDecay { drop_at, factor } ==> total > 0 ==> s.rate(
            base,
            step,
            total,
            answer,
        ) == base.mul_spec(answer) && s.asks(step, total) == LrQuery::Power(
            factor,
            drop_at@.filter(|d: u32| d <= step).len() as u32,
        ),
{
    if let LrSchedule::StepDecay { drop_at, factor } = s {
        lemma_drops_counted(drop_at@, step, drop_at@.len() as int);
        assert(drop_at@.take(drop_at@.len() as int) =~= drop_at@);
    }
}

proof fn lemma_drops_counted(drop_at: Seq<u32>, step: u32, n: int)
    requires
        0 <= n <= drop_at.len(),
    ensures
        drops_until(drop_at, step, n) == drop_at.take(n).filter(|d: u32| d <= step).len(),
    decreases n,
{
    reveal(Seq::filter);
    if n > 0 {
        lemma_drops_counted(drop_at, step, n - 1);
        assert(drop_at.take(n).drop_last() =~= drop_at.take(n - 1));
        assert(drop_at.take(n).last() == drop_at[n - 1]);
    }
}

/// The sharpness is constant, or starts at its start where there are no steps; else it goes
/// from start to end in a straight line by how much of the run is done, or so between the
/// logarithms, by how much is done or along half a cosine.
pub proof fn sharpness_follows_its_schedule(
    start: Single,
    end: Single,
    step: u32,
    total: u32,
    logs: (Single, Single),
    cosine: Single,
)
    ensures
        (BetaSchedule::Constant(start)).at(step, total, logs, cosine) == Sharpness::Is(start),
        ({
            let linear = BetaSchedule::LinearAnneal { start, end };
            let geometric = BetaSchedule::GeometricAnneal { start, end };
            let along = BetaSchedule::CosineAnneal { start, end };
            let at = if step < total {
                step
            } else {
                total
            };
            let t = Single::of_nat(at as nat).div_spec(Single::of_nat(total as nat));
            let half = (Single { bits: HALF_BITS }).mul_spec(
                (Single { bits: ONE_BITS }).sub_spec(cosine),
            );
            let reach = logs.1.sub_spec(logs.0);
            &&& total == 0 ==> linear.at(step, total, logs, cosine) == Sharpness::Is(start)
                && geometric.at(step, total, logs, cosine) == Sharpness::Is(start) && along.at(
                step,
                total,
                logs,
                cosine,
            ) == Sharpness::Is(start)
            &&& total > 0 ==> linear.at(step, total, logs, cosine) == Sharpness::Is(
                start.add_spec(end.sub_spec(start).mul_spec(t)),
            ) && geometric.at(step, total, logs, cosine) == Sharpness::ExpOf(
                logs.0.add_spec(reach.mul_spec(t)),
            ) && along.at(step, total, logs, cosine) == Sharpness::ExpOf(
                logs.0.add_spec(reach.mul_spec(half)),
            )
        }),
{
}

} // verus!
