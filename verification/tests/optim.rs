//! Adam and its schedules.

use rlx_eda::optim::{
    choose_device, default_device, default_device_or_env, AdamState, BetaSchedule, DeviceChoice, LrQuery,
    LrSchedule, Sharpness,
};
use rlx_eda::single::Single;

fn flt(v: f32) -> Single {
    Single { bits: v.to_bits() }
}

fn val(s: Single) -> f32 {
    f32::from_bits(s.bits)
}

fn lr_at(s: &LrSchedule, base: f32, step: u32, total: u32) -> f32 {
    let answer = match s.query(step, total) {
        LrQuery::Nothing => 0.0,
        LrQuery::CosineOf(a) => val(a).cos(),
        LrQuery::Power(f, n) => val(f).powi(n as i32),
    };
    val(s.lr_at(flt(base), step, total, flt(answer)))
}

fn beta_at(s: &BetaSchedule, ends: (f32, f32), step: u32, total: u32) -> f32 {
    let logs = (flt(ends.0.ln()), flt(ends.1.ln()));
    let cosine = if total == 0 { 0.0 } else { val(BetaSchedule::angle_at(step, total)).cos() };
    match s.beta_at(step, total, logs, flt(cosine)) {
        Sharpness::Is(b) => val(b),
        Sharpness::ExpOf(x) => val(x).exp(),
    }
}

#[test]
fn adam_decreases_loss_on_quadratic() {
    // The minimum of (x - 3)² lies at 3.
    let mut x = vec![flt(0.0)];
    let mut adam = AdamState::new(1);
    let lr = flt(0.1);
    for t in 1..=200 {
        let grad = 2.0 * (val(x[0]) - 3.0);
        let powers = (flt(0.9_f32.powi(t)), flt(0.999_f32.powi(t)));
        adam.step(&mut x, &[flt(grad)], lr, powers);
    }
    assert!((val(x[0]) - 3.0).abs() < 0.05, "x = {} after Adam", val(x[0]));
}

#[test]
fn one_step_of_adam_is_the_formula() {
    let mut x = vec![flt(1.5), flt(-2.0)];
    let mut adam = AdamState::new(2);
    let g = [0.25_f32, -4.0];
    adam.step(&mut x, &[flt(g[0]), flt(g[1])], flt(0.1), (flt(0.9), flt(0.999)));
    for k in 0..2 {
        let m = 0.9_f32 * 0.0 + (1.0 - 0.9_f32) * g[k];
        let v = 0.999_f32 * 0.0 + (1.0 - 0.999_f32) * g[k] * g[k];
        let m_hat = m / (1.0 - 0.9_f32);
        let v_hat = v / (1.0 - 0.999_f32);
        let want = [1.5_f32, -2.0][k] - 0.1_f32 * m_hat / (v_hat.sqrt() + 1e-8);
        assert_eq!((val(adam.m[k]), val(adam.v[k]), val(x[k])), (m, v, want));
    }
}

#[test]
fn cosine_lr_decays_to_floor() {
    let s = LrSchedule::Cosine { min_factor: flt(0.1) };
    assert!((lr_at(&s, 1.0, 0, 100) - 1.0).abs() < 1e-6);
    assert!((lr_at(&s, 1.0, 100, 100) - 0.1).abs() < 1e-6);
    // Halfway it is somewhere between.
    let mid = lr_at(&s, 1.0, 50, 100);
    assert!(mid > 0.1 && mid < 1.0, "mid lr = {mid}");
}

#[test]
fn linear_lr_falls_to_floor_and_stays() {
    let s = LrSchedule::LinearDecay { min_factor: flt(0.5) };
    assert_eq!(lr_at(&s, 2.0, 0, 10), 2.0);
    assert_eq!(lr_at(&s, 2.0, 5, 10), 1.5);
    assert_eq!(lr_at(&s, 2.0, 10, 10), 1.0);
    assert_eq!(lr_at(&s, 2.0, 99, 10), 1.0);
    assert_eq!(lr_at(&s, 2.0, 5, 0), 2.0);
    assert_eq!(lr_at(&LrSchedule::Constant, 2.0, 5, 10), 2.0);
}

#[test]
fn step_decay_drops_at_milestones() {
    let s = LrSchedule::StepDecay { drop_at: vec![100, 200], factor: flt(0.1) };
    assert!((lr_at(&s, 1.0, 50, 300) - 1.0).abs() < 1e-6);
    assert!((lr_at(&s, 1.0, 150, 300) - 0.1).abs() < 1e-6);
    assert!((lr_at(&s, 1.0, 250, 300) - 0.01).abs() < 1e-7);
}

#[test]
fn geometric_anneal_log_space_interpolation() {
    let ends = (1e-5_f32, 1e-3_f32);
    let s = BetaSchedule::GeometricAnneal { start: flt(ends.0), end: flt(ends.1) };
    assert!((beta_at(&s, ends, 0, 100) - 1e-5).abs() < 1e-9);
    let mid = beta_at(&s, ends, 50, 100);
    // The middle between the logarithms is the root of the product.
    assert!((mid - 1e-4).abs() / 1e-4 < 1e-3, "mid β = {mid}");
    assert!((beta_at(&s, ends, 100, 100) - 1e-3).abs() / 1e-3 < 1e-3);
}

#[test]
fn other_anneals_meet_their_ends() {
    let ends = (2.0_f32, 8.0_f32);
    let line = BetaSchedule::LinearAnneal { start: flt(2.0), end: flt(8.0) };
    assert_eq!(beta_at(&line, ends, 1, 4), 3.5);
    assert_eq!(beta_at(&line, ends, 3, 0), 2.0);
    let cosine = BetaSchedule::CosineAnneal { start: flt(2.0), end: flt(8.0) };
    assert!((beta_at(&cosine, ends, 0, 4) - 2.0).abs() < 1e-5);
    assert!((beta_at(&cosine, ends, 2, 4) - 4.0).abs() < 1e-5);
    assert!((beta_at(&cosine, ends, 4, 4) - 8.0).abs() < 1e-5);
    assert_eq!(beta_at(&BetaSchedule::Constant(flt(3.0)), ends, 2, 4), 3.0);
}

#[test]
fn any_setting_but_zero_forces_the_cpu() {
    assert_eq!(choose_device(Some("1"), true), DeviceChoice::Cpu);
    assert_eq!(choose_device(Some(""), true), DeviceChoice::Cpu);
    assert_eq!(choose_device(Some("0"), true), DeviceChoice::Mlx);
    assert_eq!(choose_device(None, true), DeviceChoice::Mlx);
    assert_eq!(choose_device(None, false), DeviceChoice::Cpu);
    assert_eq!(default_device_or_env(Some("1")), DeviceChoice::Cpu);
    assert_eq!(default_device(), default_device_or_env(None));
}
