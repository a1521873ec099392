//! What the reports say.

use rlx_eda::charts::{draw_chart, marks_of, ChartSpec, Marks};
use rlx_eda::corner::{Corner, CornerKind, View};
use rlx_eda::double::Real;
use rlx_eda::harness::RunOutcome;
use rlx_eda::limits::{McSummaryStyle, Spec, SpecBundle};
use rlx_eda::measure::{MeasureLog, MeasurementValue};
use rlx_eda::ordmap::NameMap;
use rlx_eda::place_report::{
    agreement_reference, bbox_diagonal, best_batch, build_markdown, end_losses, floor_reference, gather,
    loss_reference, placement_row, run_summary, scaling_row, scatter, times_faster, timing_reference, RunSetup,
    ScalingRun,
};
use rlx_eda::reporter::{Document, Reporter};
use rlx_eda::sim_pdf::{corner_page, front_page, page_picture_of, pdf_title, place_picture};
use rlx_eda::sim_plot::{pane_kind_of, plan_plot, PaneKind};
use rlx_eda::sim_report::{
    corner_stem, delta_from_typ, fmt_value, html_escape, mc_histogram_svg, range_bar_svg, render_corner_html,
    render_summary_html, render_summary_markdown, shows_key,
};
use rlx_eda::single::Single;
use rlx_eda::trace::{Trace, TraceRow};
use rlx_eda::trace_report::{
    format_smart, render_outcome, render_reference_table, Domain, FloorplanSource, Panel, PanelBody, Reference,
    Report, ReportMeta,
};
use rlx_eda::verify::VerifyReport;

fn dbl(v: f64) -> Real {
    Real { bits: v.to_bits() }
}

fn flt(v: f32) -> Single {
    Single { bits: v.to_bits() }
}

fn val(s: Single) -> f32 {
    f32::from_bits(s.bits)
}

fn spec() -> Spec {
    Spec {
        name: "ibn".into(),
        min: Some(dbl(4e-6)),
        typ: Some(dbl(5e-6)),
        max: Some(dbl(6e-6)),
        unit: Some("A".into()),
    }
}

fn outcome(corner: Corner, ibn: f64) -> RunOutcome {
    let s = spec();
    let check = s.check(Some(dbl(ibn)));
    RunOutcome {
        corner,
        deck: "* deck <1>\n".into(),
        sha: "0123456789abcdef".into(),
        from_cache: false,
        stdout: "".into(),
        measures: MeasureLog { values: NameMap::new().with("ibn", MeasurementValue::Number(dbl(ibn))) },
        has_waveform: true,
        spec_checks: vec![("ibn".into(), check)],
        verify: VerifyReport::empty(),
        ran_at: dbl(0.0),
    }
}

fn outcomes() -> Vec<RunOutcome> {
    vec![
        outcome(Corner::typical("tt", dbl(1.8)), 5e-6),
        outcome(Corner::etc("hot", "tt", dbl(1.8), dbl(85.0)), 7e-6),
        outcome(Corner::mc("mc_000", "mc", dbl(1.8), dbl(27.0), 1), 5.1e-6),
        outcome(Corner::mc("mc_001", "mc", dbl(1.8), dbl(27.0), 2), 4.9e-6),
    ]
}

#[test]
fn values_come_with_engineering_prefixes() {
    assert_eq!(fmt_value(dbl(4.5e-6), "A"), "4.500 µA");
    assert_eq!(fmt_value(dbl(0.0), "V"), "0 V");
    assert_eq!(fmt_value(dbl(0.0), ""), "0");
    assert_eq!(fmt_value(dbl(1234.0), "Hz"), "1.234 kHz");
    // From one to a thousand there is no prefix.
    assert_eq!(fmt_value(dbl(1.5), ""), "1.5000");
    assert_eq!(fmt_value(dbl(-1.8), "V"), "-1.8000 V");
    assert_eq!(fmt_value(dbl(1000.0), "Hz"), "1000.0000 Hz");
    assert_eq!(fmt_value(dbl(0.25), "V"), "250.000 mV");
    assert_eq!(fmt_value(dbl(3e-15), "F"), "3.000 fF");
    // Other negative values, and those too small for a prefix, are not scaled.
    assert_eq!(fmt_value(dbl(-1e-3), "A"), "-1.0000e-3 A");
    assert_eq!(fmt_value(dbl(2e-17), ""), "2.0000e-17");
    assert_eq!(fmt_value(dbl(f64::NAN), "V"), "NaN");
    assert_eq!(fmt_value(dbl(f64::INFINITY), "V"), "inf");
    assert_eq!(fmt_value(dbl(-2e-17), "F"), "-2.0000e-17 F");
}

#[test]
fn summaries_lead_to_the_files_of_both_views() {
    let mut o = outcomes();
    let specs = SpecBundle { specs: vec![spec()] };
    let page = |o: &[RunOutcome]| {
        let rep = Reporter::new("tb", &specs, o, "/t/out");
        render_summary_html("tb", &rep.rows(), o, &specs, McSummaryStyle::MinMax)
    };
    let html = page(&o);
    assert!(html.contains("<a href=\"tb_hot.html\"><img class=thumb src=\"tb_hot.png\" alt=\"hot\"></a>"));
    o[1].corner.view = View::Layout;
    let html = page(&o);
    assert!(html.contains("<a href=\"tb_Lay_hot.html\"><strong>hot</strong></a>"), "{html}");
    assert!(html.contains("<a href=\"tb_Lay_hot.html\"><img class=thumb src=\"tb_Lay_hot.png\" alt=\"hot\"></a>"));
    assert!(html.contains("<a href=\"tb_Sch_typical.html\">"));
    let rep = Reporter::new("tb", &specs, &o, "/t/out");
    let docs = rep.write_all();
    for path in ["/t/out/tb_Lay_hot.html", "/t/out/tb_Lay_hot.png", "/t/out/tb_Sch_typical.html"] {
        assert!(docs.iter().any(|d| match d {
            Document::Text { path: p, .. } => p == path,
            Document::Plot { path: p, .. } => p == path,
            Document::Pdf { .. } => false,
        }));
    }
}

#[test]
fn keys_are_shown_by_bytes() {
    assert!(shows_key("0123456789ab", 12));
    assert!(!shows_key("0123456789a", 12));
    // Two bytes for each of six letters.
    assert!(shows_key("éééééé", 8) && shows_key("éééééé", 12));
    assert!(!shows_key("0ééééééé", 8));
    let mut o = outcomes();
    o[0].sha = "éééééé".into();
    let page = render_corner_html("tb", &o[0], &SpecBundle { specs: vec![spec()] }, false);
    assert!(page.contains("<code>éééééé</code>"));
}

#[test]
fn references_pass_by_their_criteria() {
    let r = loss_reference("c", "f", dbl(200.4), dbl(160.0));
    assert!(r.passed);
    assert_eq!(r.simulated, "initial = 200, final = 160");
    assert!(!loss_reference("c", "f", dbl(160.0), dbl(160.0)).passed);

    // Twice the logarithm over 1/64 is 128 for each net; half as much again is let pass.
    let floor = |last: f64| floor_reference(dbl(last), dbl(1.0), flt(0.015625), 2);
    assert_eq!(floor(384.0).predicted, "≈ 128 DBU per net");
    assert_eq!(floor(384.0).simulated, "384 DBU total (2 nets)");
    assert!(floor(384.0).passed);
    assert!(!floor(384.5).passed);

    let t = timing_reference("Mlx", dbl(3.0), dbl(1.5));
    assert_eq!(t.simulated, "Mlx wall: 1.50 s   (2.00× vs Cpu)");
    assert_eq!(t.predicted, "Cpu wall: 3.00 s");
    assert_eq!(times_faster(dbl(3.0), dbl(0.0)), dbl(1.0));

    let a = agreement_reference("Cpu", dbl(1000.0), dbl(1000.5));
    assert!(a.passed);
    assert_eq!(a.predicted, "CPU final = 1.0000e3");
    assert!(!agreement_reference("Cpu", dbl(1000.0), dbl(1001.0)).passed);
    // Small losses are held against one.
    assert!(agreement_reference("Cpu", dbl(0.0), dbl(0.0005)).passed);
}

#[test]
fn text_is_inert_in_pages() {
    assert_eq!(html_escape("<a href=\"x\">&"), "&lt;a href=&quot;x&quot;&gt;&amp;");
}

#[test]
fn summaries_count_runs_and_failures() {
    let o = outcomes();
    let specs = SpecBundle { specs: vec![spec()] };
    let rep = Reporter::new("tb", &specs, &o, "/t/out");
    let rows = rep.rows();
    let md = render_summary_markdown("tb", &rows, &o, &specs, McSummaryStyle::MinMax);
    assert!(md.contains("ibn"), "{md}");
    assert!(md.contains("7.000 µA"), "{md}");
    let html = render_summary_html("tb", &rows, &o, &specs, McSummaryStyle::MinMax);
    assert!(html.contains("SPEC FAILURES PRESENT") || html.contains("FAIL"), "no verdict");
    let page = render_corner_html("tb", &o[0], &specs, false);
    assert!(page.contains("* deck &lt;1&gt;"), "{page}");
    assert_eq!(corner_stem("tb", &o[0].corner, false), "tb_typical");

    let paths: Vec<String> = rep
        .write_all()
        .iter()
        .map(|d| match d {
            Document::Text { path, .. } => path.clone(),
            Document::Plot { path, .. } => path.clone(),
            Document::Pdf { path } => path.clone(),
        })
        .collect();
    assert!(paths.contains(&"/t/out/README.md".to_string()), "{paths:?}");
    assert!(paths.iter().any(|p| p.ends_with(".pdf")), "{paths:?}");

    let lines = front_page("tb", &rows, &o, &specs, McSummaryStyle::MinMax);
    assert_eq!(lines[0].text, pdf_title("tb"));
    assert!(lines.iter().any(|l| l.text == "SPEC FAILURES PRESENT"));
    assert!(lines.iter().any(|l| l.text == "4 corners (2 typical/etc, 2 MC)    1 specs"));
    assert!(corner_page("tb", &o[2], &specs, false).is_none());
    assert_eq!(corner_page("tb", &o[1], &specs, false).unwrap().measures, ["  ibn = 7.000 µA"]);
    assert_eq!(o[2].corner.kind, CornerKind::Mc);
    let label = &o[1].corner.label;
    assert_eq!(corner_page("tb", &o[1], &specs, false).unwrap().picture, format!("tb_{label}.png"));
    assert_eq!(corner_page("tb", &o[1], &specs, true).unwrap().picture, format!("tb_Sch_{label}.png"));
}

#[test]
fn lines_go_below_the_picture_of_a_corner() {
    let val = |s: Single| f32::from_bits(s.bits);
    let plan = place_picture(1000, 700, 3);
    assert_eq!(val(plan.y), 258.0 - 180.0 * 700.0 / 1000.0 - 4.0);
    assert_eq!(val(plan.scale_x), 180.0_f32 / (1000.0_f32 * 25.4 / 300.0));
    assert_eq!(val(plan.scale_y), 126.0_f32 / (700.0_f32 * 25.4 / 300.0));
    assert_eq!(plan.lines.iter().map(|y| val(*y)).collect::<Vec<_>>(), [120.0, 115.5, 111.0]);
    // From 120 mm down to 15 mm there is room for 24 lines.
    assert_eq!(place_picture(1000, 700, 100).lines.len(), 24);
    assert_eq!(place_picture(1000, 2000, 9).lines.len(), 1);
    assert_eq!(place_picture(1000, 2000, 0).lines.len(), 0);
}

#[test]
fn pictures_of_corners_are_decoded_and_placed() {
    let o = outcomes();
    let specs = SpecBundle { specs: vec![spec()] };
    let page = corner_page("tb", &o[0], &specs, false).unwrap();
    let pixels: Vec<u8> = (0..18).map(|i| i * 14).collect();
    let img = image::RgbImage::from_raw(3, 2, pixels.clone()).unwrap();
    let mut bytes = std::io::Cursor::new(Vec::new());
    image::DynamicImage::ImageRgb8(img).write_to(&mut bytes, image::ImageOutputFormat::Png).unwrap();
    let bytes = bytes.into_inner();
    let p = page_picture_of(&bytes, &page).unwrap();
    assert_eq!((p.width, p.height), (3, 2));
    assert_eq!(p.pixels, pixels);
    let plan = place_picture(3, 2, page.measures.len());
    assert_eq!(format!("{:?}", p.plan), format!("{plan:?}"));
    assert!(!p.plan.lines.is_empty());
    // What is no picture has no page.
    assert!(page_picture_of(&bytes[..20].to_vec(), &page).is_none());
    assert!(page_picture_of(&b"not a picture".to_vec(), &page).is_none());
}

#[test]
fn pictures_show_values_between_limits() {
    let bar = range_bar_svg(dbl(5e-6), &spec());
    assert!(bar.starts_with("<svg") && bar.contains("mark-ok"), "{bar}");
    assert!(range_bar_svg(dbl(9e-6), &spec()).contains("mark-bad"));
    let vs: Vec<Real> = [4.8e-6, 5.0e-6, 5.2e-6].iter().map(|&v| dbl(v)).collect();
    assert!(mc_histogram_svg(&vs, &spec()).unwrap().contains("<rect"));
    assert!(mc_histogram_svg(&Vec::new(), &spec()).is_none());
    let (delta, _) = delta_from_typ(dbl(5.5e-6), Some(dbl(5e-6))).unwrap();
    assert!((f64::from_bits(delta.bits) - 10.0).abs() < 1e-9, "{}", f64::from_bits(delta.bits));
}

#[test]
fn signals_are_plotted_by_what_they_are() {
    assert_eq!(pane_kind_of("V(out)"), PaneKind::Voltages);
    assert_eq!(pane_kind_of("vdd#branch"), PaneKind::Currents);
    assert_eq!(pane_kind_of("temp"), PaneKind::Other);
    let axis: Vec<Real> = [0.0, 1e-6, 2e-6].iter().map(|&v| dbl(v)).collect();
    let names = vec!["v(out)".to_string(), "i(r1)".to_string()];
    let series = vec![axis.iter().map(|_| dbl(1.0)).collect::<Vec<_>>(); 2];
    let p = plan_plot("time", &axis, &names, &series).unwrap();
    assert_eq!(p.x_label, "time (µs)");
    assert_eq!(p.x_scale, dbl(1e-6));
    assert_eq!(p.height, 500);
    assert!(plan_plot("time", &Vec::new(), &names, &series).is_none());
}

fn trace() -> Trace {
    let mut t = Trace::default();
    t.series_order = vec!["loss".into(), "bbox_diag".into()];
    for (s, loss, d) in [(0, 200.0, 50.0), (1, 150.5, 40.0), (2, 160.0, 30.0)] {
        t.rows.push(TraceRow::new(s).with("loss", dbl(loss)).with("bbox_diag", dbl(d)));
    }
    t
}

#[test]
fn run_reports_hold_their_parts() {
    assert_eq!(format_smart(dbl(0.0)), "0");
    assert_eq!(format_smart(dbl(123.456)), "123.456");
    assert_eq!(format_smart(dbl(1e-7)), "1.0000e-7");
    let t = trace();
    assert!(render_outcome(&t).contains("| `loss` | 200.000 | 160.000 | -40.000000 |"), "{}", render_outcome(&t));
    let refs = vec![Reference {
        citation: "A".into(),
        formula: "f".into(),
        predicted: "1".into(),
        simulated: "2".into(),
        passed: true,
    }];
    assert!(render_reference_table(&refs).contains("A"));
    let meta = ReportMeta::new("Title", "circuit", Domain::Layout).with_intro("intro text").with_references(refs);
    let charts = [ChartSpec::line("loss", "Loss", "step", "loss").add_series("loss", "loss")];
    let report = Report {
        trace: &t,
        meta: &meta,
        charts: &charts,
        floorplan: FloorplanSource::Svg { svg: "<svg/>".into(), caption: "plan".into() },
        extra_panels: vec![Panel { heading: "More".into(), body: PanelBody::Markdown("words".into()) }],
    };
    let ticks = |v: &[f64]| v.iter().map(|x| dbl(*x)).collect::<Vec<_>>();
    let marks = vec![Marks { x_ticks: ticks(&[0.0, 1.0, 2.0]), y_ticks: ticks(&[150.0, 200.0]), log: None }];
    let files = report.write_over("/t/docs", "run", &marks);
    let md = &files.iter().find(|f| f.path == "/t/docs/run.md").unwrap().content;
    assert!(md.starts_with("# Title"), "{md}");
    assert!(md.contains("intro text") && md.contains("words") && md.contains("plan"));
    assert!(files.iter().any(|f| f.path == "/t/docs/run.csv" && f.content == t.to_csv()));
    let chart = files.iter().find(|f| f.path == "/t/docs/assets/run/loss.svg").unwrap();
    assert_eq!(chart.content, draw_chart(&charts[0], &t, &marks[0]));
    assert!(chart.content.contains("Loss") && chart.raster.is_some());

    let log10 = |x: Real| dbl(f64::from_bits(x.bits).log10());
    let ten_to = |x: Real| dbl(10f64.powf(f64::from_bits(x.bits)));
    let ten_to_whole = |e: i32| dbl(10f64.powi(e));
    let found = vec![marks_of(&charts[0], &t, &log10, &ten_to, &ten_to_whole)];
    let same = report.write("/t/docs", "run", &log10, &ten_to, &ten_to_whole);
    let over = report.write_over("/t/docs", "run", &found);
    assert_eq!(format!("{same:?}"), format!("{over:?}"));
}

#[test]
fn placement_runs_are_summed_up() {
    let setup = RunSetup {
        instances: 2,
        nets: 1,
        adam_steps: 600,
        density_weight: flt(1e-2),
        beta: flt(1e-4),
        beta_density: flt(1e-3),
    };
    let seeds = vec![(flt(0.0), flt(0.0)), (flt(30_000.0), flt(40_000.0))];
    let ends = vec![(flt(0.0), flt(0.0)), (flt(3.0), flt(-4.0))];
    let text = run_summary(&trace(), setup, &seeds, &ends);
    let want = "\nspike-eda PNR ▸ HPWL + density loss   (2 instances, 1 nets, 600 Adam steps)\n\
\x20 loss = HPWL + α·Σ overlap(i,j)   α = 1e-2  β_hpwl = 1e-4  β_density = 1e-3\n\n\
\x20 step       loss       bbox_diag    Δloss\n\
\x20    0       200.0        50.0            —\n\
\x20    1       150.5        40.0        -49.5\n\
\x20    2       160.0        30.0         +9.5  ↑\n\
\n  initial HPWL =     200.0    final HPWL =     160.0    reduction = 20.0 %\n\
\n  instance        seed (x, y)              final (x, y)           drift [DBU]\n\
\x20 U0        (      +0,       +0)       (      +0,       +0)                0\n\
\x20 U1        (  +30000,   +40000)       (      +3,       -4)            50001\n\
\n  pairwise separations (cell width = 4000 DBU):\n\
\x20   U0—U1   dx =      3   dy =      4   ✗ overlap\n\
\n  ✗ 1 pair(s) overlapped: {(0, 1)}\n";
    let lines = |s: &str| s.lines().map(|l| l.to_string()).collect::<Vec<_>>();
    for (a, b) in lines(&text).iter().zip(lines(want).iter()) {
        assert_eq!(a, b);
    }
    assert_eq!(lines(&text).len(), lines(want).len());
    assert_eq!(end_losses(&trace()), (dbl(200.0), dbl(160.0)));
    let apart = vec![(flt(0.0), flt(0.0)), (flt(2_800.0), flt(0.0))];
    assert!(run_summary(&trace(), setup, &seeds, &apart).ends_with("\n  ✓ no cell-bbox overlaps — density penalty held the cluster apart\n"));
}

#[test]
fn timings_are_tabulated() {
    let row = scaling_row(ScalingRun {
        batch: 16,
        cpu_wall_s: dbl(0.97),
        mlx_wall_s: dbl(2.14),
        best_loss: dbl(6.99e6),
    });
    assert_eq!(row.step, 16);
    assert_eq!(row.get("speedup"), dbl(0.97 / 2.14));
    assert_eq!(row.get("cpu_per_placement_ms"), dbl(0.97 / 16.0 * 1000.0));
    let one = scaling_row(ScalingRun {
        batch: 1,
        cpu_wall_s: dbl(5.0),
        mlx_wall_s: dbl(2.0),
        best_loss: dbl(f64::NAN),
    });
    assert_eq!(one.get("best_loss"), dbl(0.0));
    let mut t = Trace::default();
    t.rows = vec![one, row];
    let md = build_markdown(&t);
    assert!(md.contains("| **1** | 5.00 s | 2.00 s | **2.50×** | — | 5000 ms | 2000 ms |\n"), "{md}");
    assert!(md.contains("| **16** | 0.97 s | 2.14 s | 0.453× | 6.99e6 | 61 ms | 134 ms |\n"), "{md}");
    assert!(md.ends_with("same workspace state.\n"));
}

#[test]
fn steps_log_and_update_positions() {
    let mut xy = vec![(flt(0.0), flt(0.0)), (flt(3.0), flt(4.0))];
    assert_eq!(val(bbox_diagonal(&xy)), 5.0);
    let row = placement_row(7, flt(2.5), flt(0.1), flt(1e-4), &xy);
    assert_eq!(row.step, 7);
    assert_eq!(row.get("bbox_diag"), dbl(5.0));
    assert_eq!(row.get("y1"), dbl(4.0));
    assert_eq!(row.get("lr"), dbl(0.1_f32 as f64));
    let layout = vec![(1, 0), (1, 1)];
    assert_eq!(gather(&layout, &xy), vec![flt(3.0), flt(4.0)]);
    scatter(&layout, &vec![flt(8.0), flt(9.0)], &mut xy);
    assert_eq!(xy, vec![(flt(0.0), flt(0.0)), (flt(8.0), flt(9.0))]);
    assert_eq!(best_batch(&[flt(3.0), flt(1.0), flt(f32::NAN), flt(1.0)]), 1);
}
