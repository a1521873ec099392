//! Placement by gradients: the loss graphs on the real runtime.

use klayout_core::{
    Angle90, Bbox, CellBuilder, CellId, LayerIndex, LayerInfo, Library, Point, Port, PortKindId, Rect, Shape,
};

/// A library of 1000 units to the micron, with one metal layer.
fn new_library(name: &str) -> (Library, LayerIndex) {
    let lib = Library::new(name, 1000);
    let metal1 = lib.layer(LayerInfo::gds(10, 0));
    (lib, metal1)
}

/// A square cell with a port in its middle.
fn build_unit(lib: &Library, metal1: LayerIndex, name: &str, half: i64) -> CellId {
    let mut cb = CellBuilder::new(name);
    cb.add_shape(
        metal1,
        Shape::Box(Rect::new(Bbox::new(Point::new(-half, -half), Point::new(half, half)))),
    );
    cb.add_port(
        Port::new("p", metal1, Point::new(0, 0), Angle90::E, half * 2).with_kind(PortKindId(1)),
    );
    lib.insert(cb)
}
use rlx_eda::ad::{
    check_extents, combined_loss_graph, combined_loss_graph_with_symmetry, density_loss_graph, hpwl_loss_graph,
    position_param_ids, position_param_layout, symmetry_loss_graph, DifferentiablePlacement, POSITIONS_X_PARAM, POSITIONS_Y_PARAM,
};
use rlx_eda::ad_batch::{combined_loss_graph_batched, position_param_ids_batched};
use rlx_eda::ad_parallel::{combined_loss_graph_parallel, combined_loss_graph_parallel_per_batch};
use rlx_eda::geom;
use rlx_eda::netlist::{Netlist, SymmetryAxis};
use rlx_eda::optim::AdamState;
use rlx_eda::place::Placement;
use rlx_eda::place_report::{gather, scatter};
use rlx_eda::single::Single;
use rlx_ir::NodeId;
use rlx_opt::autodiff::grad_with_loss;
use rlx_runtime::{CompiledGraph, Device, Session};

fn flt(v: f32) -> Single {
    Single { bits: v.to_bits() }
}

fn val(s: Single) -> f32 {
    f32::from_bits(s.bits)
}

fn powers(adam: &AdamState, t: i32) -> (Single, Single) {
    (flt(val(adam.b1).powi(t)), flt(val(adam.b2).powi(t)))
}

fn nodes(ids: &[u32]) -> Vec<NodeId> {
    ids.iter().map(|&i| NodeId(i)).collect()
}

fn push_positions(sess: &mut CompiledGraph, p: &DifferentiablePlacement, nl: &Netlist) {
    for (i, (x, y)) in p.instance_xy.iter().enumerate() {
        sess.set_param(&p.x_param_name(nl, i), &[val(*x)]);
        sess.set_param(&p.y_param_name(nl, i), &[val(*y)]);
    }
}

fn placement(xy: &[(f32, f32)]) -> DifferentiablePlacement {
    DifferentiablePlacement {
        instance_xy: xy.iter().map(|&(x, y)| (flt(x), flt(y))).collect(),
        beta: flt(1e-4),
    }
}

fn xy(p: &DifferentiablePlacement) -> Vec<(f32, f32)> {
    p.instance_xy.iter().map(|&(x, y)| (val(x), val(y))).collect()
}

/// Runs Adam on a loss whose sharpness is given at run time.
fn descend(
    sess: &mut CompiledGraph,
    p: &mut DifferentiablePlacement,
    nl: &Netlist,
    n: usize,
    lr: f32,
    steps: i32,
    betas: bool,
) {
    let mut adam = AdamState::new(n);
    let layout = position_param_layout(nl);
    assert_eq!(layout.len(), n);
    for t in 1..=steps {
        push_positions(sess, p, nl);
        let outs = if betas {
            sess.run(&[("d_output", &[1.0_f32]), ("hpwl_beta", &[1e-4_f32]), ("density_beta", &[1e-3_f32])])
        } else {
            sess.run(&[("d_output", &[1.0_f32])])
        };
        let grads: Vec<Single> = (0..n).map(|k| flt(outs[1 + k][0])).collect();
        let mut params = gather(&layout, &p.instance_xy);
        let pw = powers(&adam, t);
        adam.step(&mut params, &grads, flt(lr), pw);
        scatter(&layout, &params, &mut p.instance_xy);
    }
}

#[test]
fn adam_on_hpwl_collapses_three_instances() {
    let (lib, metal1) = new_library("hpwl");
    let mut cb = CellBuilder::new("U");
    cb.add_shape(
        metal1,
        Shape::Box(Rect::new(Bbox::new(Point::new(0, 0), Point::new(1_000, 1_000)))),
    );
    cb.add_port(Port::new("p", metal1, Point::new(0, 0), Angle90::E, 1_000).with_kind(PortKindId(1)));
    let c = lib.insert(cb);

    let mut nl = Netlist::new("ad_hpwl").with_default_signal_layer(metal1);
    let i0 = nl.add_instance("U0", c);
    let i1 = nl.add_instance("U1", c);
    let i2 = nl.add_instance("U2", c);
    nl.connect("net0", i0, "p");
    nl.connect("net0", i1, "p");
    nl.connect("net0", i2, "p");

    let mut p = placement(&[(0.0, 0.0), (50_000.0, 0.0), (25_000.0, 50_000.0)]);
    let fwd = hpwl_loss_graph(&nl, &lib, p.beta);
    let pos_ids = position_param_ids(&fwd, &nl);
    let bwd = grad_with_loss(&fwd, &nodes(&pos_ids));
    let mut sess = Session::new(Device::Cpu).compile(bwd);

    push_positions(&mut sess, &p, &nl);
    let initial_loss = sess.run(&[("d_output", &[1.0_f32])])[0][0];
    descend(&mut sess, &mut p, &nl, pos_ids.len(), 1_000.0, 600, false);
    push_positions(&mut sess, &p, &nl);
    let final_loss = sess.run(&[("d_output", &[1.0_f32])])[0][0];

    assert!(
        final_loss < 0.5 * initial_loss,
        "HPWL did not converge: initial = {initial_loss:.1}, final = {final_loss:.1}",
    );
    let ends = xy(&p);
    let mut max_dist = 0.0_f32;
    for a in 0..ends.len() {
        for b in (a + 1)..ends.len() {
            let dx = ends[a].0 - ends[b].0;
            let dy = ends[a].1 - ends[b].1;
            let d = (dx * dx + dy * dy).sqrt();
            if d > max_dist {
                max_dist = d;
            }
        }
    }
    let initial_max = ((50_000.0_f32).powi(2) + (50_000.0_f32).powi(2)).sqrt();
    assert!(
        max_dist < 0.3 * initial_max,
        "instances did not collapse: max pairwise distance = {max_dist:.1} (initial {initial_max:.1})",
    );
    let m = p.materialize(&nl, &lib).expect("coordinates fit");
    assert!(m.bbox.max.x - m.bbox.min.x < 30_000);
    assert_eq!(m.transforms[0].disp.x, ends[0].0.round() as i64);
}

#[test]
fn density_breaks_degenerate_collapse() {
    let (lib, metal1) = new_library("ad_combined");
    let cells: Vec<CellId> = (0..3).map(|i| build_unit(&lib, metal1, &format!("U{i}"), 2_000)).collect();
    let mut nl = Netlist::new("ad_combined").with_default_signal_layer(metal1);
    let inst: Vec<usize> =
        cells.iter().enumerate().map(|(i, c)| nl.add_instance(&format!("U{i}"), *c)).collect();
    nl.connect("net0", inst[0], "p");
    nl.connect("net0", inst[1], "p");
    nl.connect("net0", inst[2], "p");

    let mut p = placement(&[(0.0, 0.0), (50_000.0, 0.0), (25_000.0, 50_000.0)]);
    let fwd = combined_loss_graph(&nl, &lib, &p, flt(1e-2));
    let pos_ids = position_param_ids(&fwd, &nl);
    let bwd = grad_with_loss(&fwd, &nodes(&pos_ids));
    let mut sess = Session::new(Device::Cpu).compile(bwd);
    descend(&mut sess, &mut p, &nl, pos_ids.len(), 1_000.0, 600, true);

    let ends = xy(&p);
    let cell_w = 4_000.0_f32;
    for i in 0..3 {
        for j in (i + 1)..3 {
            let dx = (ends[i].0 - ends[j].0).abs();
            let dy = (ends[i].1 - ends[j].1).abs();
            assert!(
                dx >= cell_w * 0.7 || dy >= cell_w * 0.7,
                "cells {i} and {j} overlap: dx = {dx:.0}, dy = {dy:.0} (both < cell width {cell_w})",
            );
        }
    }
    let xs: Vec<f32> = ends.iter().map(|(x, _)| *x).collect();
    let ys: Vec<f32> = ends.iter().map(|(_, y)| *y).collect();
    let span = |v: &[f32]| {
        v.iter().cloned().fold(f32::NEG_INFINITY, f32::max) - v.iter().cloned().fold(f32::INFINITY, f32::min)
    };
    let (span_x, span_y) = (span(&xs), span(&ys));
    assert!(
        span_x > cell_w * 0.5 || span_y > cell_w * 0.5,
        "placement collapsed to a point: span_x = {span_x:.0}, span_y = {span_y:.0}",
    );
    assert!(
        span_x < 30_000.0 && span_y < 30_000.0,
        "placement didn't pack: span_x = {span_x:.0}, span_y = {span_y:.0} (seeds spread 50 kDBU)",
    );
}

#[test]
fn mirror_pair_lands_symmetric_about_axis() {
    let (lib, metal1) = new_library("ad_diff_pair");
    let cell = build_unit(&lib, metal1, "M", 2_000);
    let mut nl = Netlist::new("ad_diff_pair").with_default_signal_layer(metal1);
    let m1 = nl.add_instance("M1", cell);
    let m2 = nl.add_instance("M2", cell);
    nl.connect("tail", m1, "p");
    nl.connect("tail", m2, "p");
    nl.match_mirror("dp", m1, m2, SymmetryAxis::Vertical, flt(0.0));

    let mut p = placement(&[(-30_000.0, 10_000.0), (50_000.0, -20_000.0)]);
    let fwd = combined_loss_graph_with_symmetry(&nl, &lib, &p, flt(1e-2), flt(1.0));
    let pos_ids = position_param_ids(&fwd, &nl);
    let bwd = grad_with_loss(&fwd, &nodes(&pos_ids));
    let mut sess = Session::new(Device::Cpu).compile(bwd);
    descend(&mut sess, &mut p, &nl, pos_ids.len(), 500.0, 800, true);

    let ends = xy(&p);
    let ((xa, ya), (xb, yb)) = (ends[0], ends[1]);
    let mirror_dx = (xa + xb).abs();
    let mirror_dy = (ya - yb).abs();
    assert!(mirror_dx < 200.0, "mirror axis violated: x_a + x_b = {mirror_dx:.0} (want ≈ 0)");
    assert!(mirror_dy < 200.0, "mirror y-equality violated: |y_a - y_b| = {mirror_dy:.0} (want ≈ 0)");
    let separation = (xa - xb).abs();
    assert!(
        separation > 3_000.0,
        "diff-pair collapsed onto axis: |x_a - x_b| = {separation:.0} (cells are 4_000 wide)",
    );
}

#[test]
fn symmetry_loss_zero_on_satisfied_mirror() {
    let (lib, metal1) = new_library("ad_diff_pair_zero");
    let cell = build_unit(&lib, metal1, "M", 2_000);
    let mut nl = Netlist::new("nl").with_default_signal_layer(metal1);
    let m1 = nl.add_instance("M1", cell);
    let m2 = nl.add_instance("M2", cell);
    nl.match_mirror("dp", m1, m2, SymmetryAxis::Vertical, flt(0.0));

    let p = placement(&[(-10_000.0, 5_000.0), (10_000.0, 5_000.0)]);
    let g = symmetry_loss_graph(&nl, &p);
    let mut sess = Session::new(Device::Cpu).compile(g);
    push_positions(&mut sess, &p, &nl);
    let outs = sess.run(&[]);
    let loss = outs[0][0];
    assert!(loss.abs() < 1e-3, "symmetry loss not zero on satisfied mirror: {loss}");
}

fn six_cells(lib: &Library, metal1: LayerIndex) -> Netlist {
    let cells: Vec<CellId> = (0..6).map(|i| build_unit(lib, metal1, &format!("U{i}"), 2_000)).collect();
    let mut nl = Netlist::new("eq").with_default_signal_layer(metal1);
    let inst: Vec<usize> =
        cells.iter().enumerate().map(|(i, c)| nl.add_instance(&format!("U{i}"), *c)).collect();
    nl.connect("netA", inst[0], "p");
    nl.connect("netA", inst[1], "p");
    nl.connect("netA", inst[2], "p");
    nl.connect("bridge", inst[2], "p");
    nl.connect("bridge", inst[3], "p");
    nl.connect("chain1", inst[3], "p");
    nl.connect("chain1", inst[4], "p");
    nl.connect("chain2", inst[4], "p");
    nl.connect("chain2", inst[5], "p");
    nl
}

#[test]
fn batched_loss_matches_unbatched() {
    let (lib, metal1) = new_library("ad_batched");
    let nl = six_cells(&lib, metal1);
    let at = [
        (-20_000.0, -10_000.0),
        (-5_000.0, 5_000.0),
        (12_000.0, 8_000.0),
        (20_000.0, -15_000.0),
        (-10_000.0, 20_000.0),
        (15_000.0, 10_000.0),
    ];
    let p = placement(&at);
    let (beta_h, beta_d, alpha) = (5e-4_f32, 1e-3_f32, 1e-2_f32);

    let g_a = combined_loss_graph(&nl, &lib, &p, flt(alpha));
    let mut sess_a = Session::new(Device::Cpu).compile(g_a);
    push_positions(&mut sess_a, &p, &nl);
    let outs_a = sess_a.run(&[("hpwl_beta", &[beta_h]), ("density_beta", &[beta_d])]);
    let loss_unbatched = outs_a[0][0];

    let g_b = combined_loss_graph_batched(&nl, &lib, &p, flt(alpha));
    let mut sess_b = Session::new(Device::Cpu).compile(g_b);
    let xs: Vec<f32> = at.iter().map(|(x, _)| *x).collect();
    let ys: Vec<f32> = at.iter().map(|(_, y)| *y).collect();
    sess_b.set_param(POSITIONS_X_PARAM, &xs);
    sess_b.set_param(POSITIONS_Y_PARAM, &ys);
    let outs_b = sess_b.run(&[("hpwl_beta", &[beta_h]), ("density_beta", &[beta_d])]);
    let loss_batched = outs_b[0][0];
    let rel = (loss_unbatched - loss_batched).abs() / loss_unbatched.abs().max(1.0);
    assert!(
        rel < 1e-3,
        "batched/unbatched mismatch: unbatched={loss_unbatched}, batched={loss_batched}, rel={rel:.3e}",
    );

    let g_b2 = combined_loss_graph_batched(&nl, &lib, &p, flt(alpha));
    let pos_ids = position_param_ids_batched(&g_b2);
    assert_eq!(pos_ids.len(), 2, "batched should expose 2 position-Param tensors");
    let bwd = grad_with_loss(&g_b2, &nodes(&pos_ids));
    let mut sess_g = Session::new(Device::Cpu).compile(bwd);
    sess_g.set_param(POSITIONS_X_PARAM, &xs);
    sess_g.set_param(POSITIONS_Y_PARAM, &ys);
    let outs_g =
        sess_g.run(&[("d_output", &[1.0_f32]), ("hpwl_beta", &[beta_h]), ("density_beta", &[beta_d])]);
    assert_eq!(outs_g[1].len(), at.len(), "dL/dx tensor should have length N");
    assert_eq!(outs_g[2].len(), at.len(), "dL/dy tensor should have length N");
    let any_nonzero =
        outs_g[1].iter().any(|&v| v.abs() > 1e-9) || outs_g[2].iter().any(|&v| v.abs() > 1e-9);
    assert!(any_nonzero, "batched gradients should be non-zero at this off-optimum placement");
}

#[test]
fn fixed_cells_stay_out_of_the_parameters() {
    let (lib, metal1) = new_library("ad_fixed");
    let mut nl = six_cells(&lib, metal1);
    nl.set_fixed(1, true);
    let p = placement(&[
        (-20_000.0, -10_000.0),
        (-5_000.0, 5_000.0),
        (12_000.0, 8_000.0),
        (20_000.0, -15_000.0),
        (-10_000.0, 20_000.0),
        (15_000.0, 10_000.0),
    ]);
    let g_a = combined_loss_graph(&nl, &lib, &p, flt(1e-2));
    assert_eq!(position_param_ids(&g_a, &nl).len(), 10);
    assert_eq!(position_param_layout(&nl)[2], (2, 0));
    let mut sess_a = Session::new(Device::Cpu).compile(g_a);
    for i in [0, 2, 3, 4, 5] {
        sess_a.set_param(&p.x_param_name(&nl, i), &[val(p.instance_xy[i].0)]);
        sess_a.set_param(&p.y_param_name(&nl, i), &[val(p.instance_xy[i].1)]);
    }
    let a = sess_a.run(&[("hpwl_beta", &[5e-4_f32]), ("density_beta", &[1e-3_f32])])[0][0];

    let g_b = combined_loss_graph_batched(&nl, &lib, &p, flt(1e-2));
    let mut sess_b = Session::new(Device::Cpu).compile(g_b);
    sess_b.set_param(POSITIONS_X_PARAM, &[-20_000.0, 12_000.0, 20_000.0, -10_000.0, 15_000.0]);
    sess_b.set_param(POSITIONS_Y_PARAM, &[-10_000.0, 8_000.0, -15_000.0, 20_000.0, 10_000.0]);
    let b = sess_b.run(&[("hpwl_beta", &[5e-4_f32]), ("density_beta", &[1e-3_f32])])[0][0];
    assert!((a - b).abs() / a.abs().max(1.0) < 1e-3, "{a} against {b}");
}

#[test]
fn parallel_batch_matches_single_batch_per_element() {
    let (lib, metal1) = new_library("ad_parallel");
    let nl = six_cells(&lib, metal1);
    let placements: Vec<Vec<(f32, f32)>> = vec![
        vec![
            (-20_000.0, -10_000.0),
            (-5_000.0, 5_000.0),
            (12_000.0, 8_000.0),
            (20_000.0, -15_000.0),
            (-10_000.0, 20_000.0),
            (15_000.0, 10_000.0),
        ],
        vec![
            (3_000.0, 7_000.0),
            (-8_000.0, 4_000.0),
            (10_000.0, -2_000.0),
            (5_000.0, -12_000.0),
            (-15_000.0, 6_000.0),
            (18_000.0, 1_000.0),
        ],
        vec![
            (0.0, 0.0),
            (10_000.0, 10_000.0),
            (-10_000.0, -10_000.0),
            (10_000.0, -10_000.0),
            (-10_000.0, 10_000.0),
            (5_000.0, 5_000.0),
        ],
        vec![
            (-30_000.0, 0.0),
            (30_000.0, 0.0),
            (0.0, 30_000.0),
            (0.0, -30_000.0),
            (15_000.0, 15_000.0),
            (-15_000.0, -15_000.0),
        ],
    ];
    let b = placements.len();
    let (alpha, beta_h, beta_d) = (1e-2_f32, 5e-4_f32, 1e-3_f32);

    let mut single_losses = Vec::with_capacity(b);
    for at in &placements {
        let g_b = combined_loss_graph_batched(&nl, &lib, &placement(at), flt(alpha));
        let mut sess = Session::new(Device::Cpu).compile(g_b);
        let xs: Vec<f32> = at.iter().map(|(x, _)| *x).collect();
        let ys: Vec<f32> = at.iter().map(|(_, y)| *y).collect();
        sess.set_param(POSITIONS_X_PARAM, &xs);
        sess.set_param(POSITIONS_Y_PARAM, &ys);
        let outs = sess.run(&[("hpwl_beta", &[beta_h]), ("density_beta", &[beta_d])]);
        single_losses.push(outs[0][0]);
    }

    let g_p = combined_loss_graph_parallel_per_batch(&nl, &lib, b, flt(alpha));
    let mut sess = Session::new(Device::Cpu).compile(g_p);
    let xs_flat: Vec<f32> = placements.iter().flatten().map(|(x, _)| *x).collect();
    let ys_flat: Vec<f32> = placements.iter().flatten().map(|(_, y)| *y).collect();
    sess.set_param(POSITIONS_X_PARAM, &xs_flat);
    sess.set_param(POSITIONS_Y_PARAM, &ys_flat);
    let outs = sess.run(&[("hpwl_beta", &[beta_h]), ("density_beta", &[beta_d])]);
    let per_batch = &outs[0];
    assert_eq!(per_batch.len(), b, "per-batch loss should have B entries");
    for k in 0..b {
        let single = single_losses[k];
        let parallel = per_batch[k];
        let rel = (single - parallel).abs() / single.abs().max(1.0);
        assert!(rel < 1e-3, "batch {k}: single = {single}, parallel = {parallel}, rel = {rel:.3e}");
    }

    // The sum over the batch is what is differentiated.
    let g_s = combined_loss_graph_parallel(&nl, &lib, b, flt(alpha));
    let mut sum = Session::new(Device::Cpu).compile(g_s);
    sum.set_param(POSITIONS_X_PARAM, &xs_flat);
    sum.set_param(POSITIONS_Y_PARAM, &ys_flat);
    let total = sum.run(&[("hpwl_beta", &[beta_h]), ("density_beta", &[beta_d])])[0][0];
    let expected: f32 = single_losses.iter().sum();
    assert!((total - expected).abs() / expected.abs() < 1e-3, "{total} against {expected}");
}

#[test]
fn overlap_falls_to_nothing_with_distance() {
    let (lib, metal1) = new_library("density");
    let c = build_unit(&lib, metal1, "U", 2_000);
    let mut nl = Netlist::new("density");
    nl.add_instance("U0", c);
    nl.add_instance("U1", c);
    let at = |x: f32| {
        let p = placement(&[(0.0, 0.0), (x, 0.0)]);
        let mut sess = Session::new(Device::Cpu).compile(density_loss_graph(&nl, &lib, &p));
        push_positions(&mut sess, &p, &nl);
        sess.run(&[("density_beta", &[1e-3_f32])])[0][0]
    };
    // 4000 times the logistic function of 4, squared.
    let full = 4_000.0 / (1.0 + (-4.0_f32).exp());
    assert!((at(0.0) - full * full).abs() < 0.01 * full * full);
    assert!(at(2_000.0) < at(0.0));
    assert!(at(100_000.0).abs() < 1.0);
}

#[test]
fn fixed_cells_have_no_parameters() {
    let (lib, metal1) = new_library("fixed");
    let c = build_unit(&lib, metal1, "U", 2_000);
    let mut nl = Netlist::new("fixed").with_default_signal_layer(metal1);
    nl.add_fixed_instance("U0", c);
    nl.add_instance("U1", c);
    nl.connect("n", 0, "p");
    nl.connect("n", 1, "p");
    let layout = position_param_layout(&nl);
    assert_eq!(layout, vec![(1, 0), (1, 1)]);
    let mut p = placement(&[(1.0, 2.0), (3.0, 4.0)]);
    scatter(&layout, &vec![flt(5.0), flt(6.0)], &mut p.instance_xy);
    assert_eq!(xy(&p), vec![(1.0, 2.0), (5.0, 6.0)]);
    let g = combined_loss_graph(&nl, &lib, &placement(&[(0.0, 0.0), (9_000.0, 0.0)]), flt(1e-2));
    assert_eq!(position_param_ids(&g, &nl).len(), 2);
}

#[test]
fn net_weights_scale_the_length() {
    let (lib, metal1) = new_library("weights");
    let c = build_unit(&lib, metal1, "U", 2_000);
    let length = |weight: f32| {
        let mut nl = Netlist::new("weights").with_default_signal_layer(metal1);
        nl.add_instance("U0", c);
        nl.add_instance("U1", c);
        nl.connect("n", 0, "p");
        nl.connect("n", 1, "p");
        nl.set_net_weight("n", flt(weight));
        nl.set_net_weight("absent", flt(9.0));
        let p = placement(&[(0.0, 0.0), (50_000.0, 20_000.0)]);
        let mut sess = Session::new(Device::Cpu).compile(combined_loss_graph(&nl, &lib, &p, flt(0.0)));
        push_positions(&mut sess, &p, &nl);
        let weighted = sess.run(&[("hpwl_beta", &[1e-3_f32]), ("density_beta", &[1e-3_f32])])[0][0];
        let mut sess = Session::new(Device::Cpu).compile(hpwl_loss_graph(&nl, &lib, flt(1e-3)));
        push_positions(&mut sess, &p, &nl);
        (weighted, sess.run(&[])[0][0])
    };
    let (once, plain) = length(1.0);
    let (thrice, plain_again) = length(3.0);
    assert!((thrice - 3.0 * once).abs() < 1e-3 * thrice);
    assert!((once - 70_000.0).abs() < 1e-3 * 70_000.0);
    // The plain sum of lengths has no weights.
    assert_eq!(plain, plain_again);
}

#[test]
fn matching_groups_vanish_where_cells_match() {
    let (lib, metal1) = new_library("groups");
    let c = build_unit(&lib, metal1, "U", 2_000);
    let mut nl = Netlist::new("groups").with_default_signal_layer(metal1);
    for i in 0..3 {
        nl.add_instance(&format!("U{i}"), c);
    }
    nl.match_common_centroid("middle", vec![0, 1, 2], (flt(100.0), flt(0.0)));
    nl.match_interdigitated("row", vec![0, 1, 2], SymmetryAxis::Vertical, flt(0.0), flt(100.0));
    let loss = |nl: &Netlist, xs: [(f32, f32); 3]| {
        let p = placement(&xs);
        let mut sess = Session::new(Device::Cpu).compile(symmetry_loss_graph(nl, &p));
        push_positions(&mut sess, &p, nl);
        sess.run(&[])[0][0]
    };
    assert_eq!(loss(&nl, [(0.0, 0.0), (100.0, 0.0), (200.0, 0.0)]), 0.0);
    let off = [(10.0, 0.0), (100.0, 0.0), (200.0, 0.0)];
    assert_eq!(loss(&nl, off), 200.0);
    nl.set_match_weight("row", flt(3.0));
    nl.set_match_weight("absent", flt(5.0));
    assert_eq!(loss(&nl, off), 400.0);
}

#[test]
fn placements_start_from_where_cells_are() {
    let seed = Placement {
        transforms: vec![geom::Trans::translate(geom::Vec2 { x: -3, y: 70_000 })],
        bbox: geom::Bbox { min: geom::Point { x: 0, y: 0 }, max: geom::Point { x: 0, y: 0 } },
    };
    let p = DifferentiablePlacement::from_placement(&seed).with_beta(flt(0.5));
    assert_eq!(xy(&p), vec![(-3.0, 70_000.0)]);
    assert_eq!(val(p.beta), 0.5);
    assert_eq!(val(DifferentiablePlacement::from_placement(&seed).beta), 1e-4);
}

#[test]
fn designs_of_unknown_or_empty_cells_are_told_apart() {
    let (lib, metal1) = new_library("known");
    let (other, other_metal1) = new_library("other");
    let known = build_unit(&lib, metal1, "A", 500);
    build_unit(&other, other_metal1, "A", 500);
    let unknown = build_unit(&other, other_metal1, "B", 700);
    let hollow = lib.insert(CellBuilder::new("hollow"));
    let design = |c: CellId| {
        let mut nl = Netlist::new("d");
        nl.add_instance("U0", known);
        nl.add_instance("U1", c);
        nl
    };
    assert!(check_extents(&design(known), &lib));
    assert!(check_extents(&design(unknown), &other));
    assert!(!check_extents(&design(hollow), &lib));
    let empty = Library::new("empty", 1000);
    assert!(!check_extents(&design(known), &empty));
}
