//! Running every program that writes a report.

use rlx_eda::double::Real;
use rlx_eda::manifest::{discover_in_crate, BinTarget};
use rlx_eda::paths::relative_to;
use rlx_eda::runs::{
    closing_line, count_results, find_artifact, grouped_listing, label_width, mode_desc, parse_artifact,
    run_label, select_bins, summary_markdown, summary_path, tail_of, Args, Painter, Parsed, RunResult, RunStatus,
};

fn dbl(v: f64) -> Real {
    Real { bits: v.to_bits() }
}

fn args(v: &[&str]) -> Parsed {
    Args::parse(&v.iter().map(|s| s.to_string()).collect())
}

fn run(v: &[&str]) -> Args {
    match args(v) {
        Parsed::Run(a) => a,
        other => panic!("wrong outcome: {other:?}"),
    }
}

fn bin(package: &str, name: &str) -> BinTarget {
    BinTarget { package: package.into(), bin_name: name.into() }
}

fn bins() -> Vec<BinTarget> {
    vec![
        bin("spike-lna", "lna_match_trace"),
        bin("eda-trace", "run-all-traces"),
        bin("eda-pnr", "hpwl_optim_trace"),
        bin("eda-cli", "eda-cli"),
    ]
}

fn names(v: &[BinTarget]) -> Vec<&str> {
    v.iter().map(|b| b.bin_name.as_str()).collect()
}

#[test]
fn arguments_are_read_in_order() {
    let a = run(&["--filter", "_opt", "--exclude", "a", "--exclude", "b", "--release", "--workspace-root", "/w"]);
    assert_eq!(a.filter.as_deref(), Some("_opt"));
    assert_eq!(a.excludes, ["a", "b"]);
    assert!(a.release && !a.dry_run && !a.list_only && !a.all);
    assert_eq!(a.workspace_root.as_deref(), Some("/w"));
    assert_eq!(run(&["--filter"]).filter.as_deref(), Some(""));
    assert!(run(&["--exclude"]).excludes.is_empty());
    assert!(run(&["--workspace-root"]).workspace_root.is_none());
    assert!(matches!(args(&["--list", "-h", "--bogus"]), Parsed::Help));
    match args(&["--bogus", "-h"]) {
        Parsed::Unknown(s) => assert_eq!(s, "--bogus"),
        other => panic!("wrong outcome: {other:?}"),
    }
}

#[test]
fn programs_are_picked_by_what_was_asked_for() {
    let bins = bins();
    let pick = |v: &[&str]| select_bins(&bins, &run(v));
    assert_eq!(names(&pick(&[])), ["lna_match_trace", "hpwl_optim_trace"]);
    assert_eq!(names(&pick(&["--all"])), ["lna_match_trace", "hpwl_optim_trace", "eda-cli"]);
    assert_eq!(names(&pick(&["--filter", "cli"])), ["eda-cli"]);
    assert_eq!(names(&pick(&["--filter", ""])), ["lna_match_trace", "hpwl_optim_trace", "eda-cli"]);
    assert_eq!(names(&pick(&["--exclude", "lna"])), ["hpwl_optim_trace"]);
    assert_eq!(mode_desc(&run(&[])), "auto (report patterns)");
    assert_eq!(mode_desc(&run(&["--filter", ""])), "no filter");
    assert_eq!(mode_desc(&run(&["--filter", "x\"y"])), "filter \"x\\\"y\"");
    assert_eq!(mode_desc(&run(&["--all", "--filter", "x"])), "all");
}

#[test]
fn programs_are_found_in_manifests_and_files() {
    let manifest = "[package]\nname = \"spike-lna\"\nversion = \"0.1.0\"\n\n[[bin]]\nname = \"one\"\npath = \"src/bin/one.rs\"\n\n[[bin]]\npath = \"x.rs\"\n";
    let files: Vec<String> = ["one.rs", "two.rs", "notes.md", ".rs"].iter().map(|s| s.to_string()).collect();
    let found = discover_in_crate(manifest, &files, true);
    assert_eq!(names(&found), ["one", "two", "spike-lna"]);
    assert!(found.iter().all(|b| b.package == "spike-lna"));
    assert_eq!(names(&discover_in_crate(manifest, &Vec::new(), false)), ["one"]);
    assert!(discover_in_crate("not a [manifest", &files, true).is_empty());
    assert!(discover_in_crate("[workspace]\nmembers = []\n", &files, true).is_empty());
}

#[test]
fn listings_are_grouped_by_package() {
    let text = grouped_listing(Painter { color: false }, &bins(), "all discovered bins", true);
    assert_eq!(
        text,
        "\nall discovered bins (4 bins, 4 crates)\n\n  eda-cli (1 bins)\n    • eda-cli\n  eda-pnr (1 bins)\n    • hpwl_optim_trace [report]\n  eda-trace (1 bins)\n    • run-all-traces [report]\n  spike-lna (1 bins)\n    • lna_match_trace [report]\n"
    );
}

#[test]
fn colours_come_only_on_terminals() {
    assert!(Painter::detect(false, Some("xterm"), true).color);
    assert!(!Painter::detect(false, Some("xterm"), false).color);
    assert!(!Painter::detect(true, None, true).color);
    assert!(!Painter::detect(false, Some("dumb"), true).color);
    assert_eq!(Painter { color: true }.fail("x"), "\x1b[31;1mx\x1b[0m");
    assert_eq!(Painter { color: false }.fail("x"), "x");
}

#[test]
fn artifacts_are_read_from_the_output() {
    assert_eq!(parse_artifact("wrote: /abs/foo.md (+ csv)").as_deref(), Some("/abs/foo.md"));
    assert_eq!(parse_artifact("wrote:   ").as_deref(), None);
    assert_eq!(parse_artifact("nothing"), None);
    assert_eq!(parse_artifact("wrote:awrote:b").as_deref(), Some("a"));
    assert_eq!(find_artifact("hello\n  wrote: /a/b.md  \nwrote: /c\n").as_deref(), Some("/a/b.md"));
    let long: String = (0..30).map(|i| format!("line {i}\n")).collect();
    let tail = tail_of(&long);
    assert_eq!(tail.len(), 20);
    assert_eq!(tail[0], "line 10");
}

#[test]
fn labels_stand_in_columns() {
    let b = bins();
    assert_eq!(label_width(&b), 26);
    assert_eq!(run_label(3, 12, &b[3], 18), "[ 3/12] eda-cli::eda-cli  ");
    let line = closing_line(Painter { color: false }, 2, 1, dbl(3.25));
    assert_eq!(line, "\n∎ 2 ok, 1 failed across 3 bins  (total 3.2s)\n");
}

#[test]
fn paths_are_shown_from_the_root() {
    assert_eq!(relative_to("/w", "/w/a/b.md").as_deref(), Some("a/b.md"));
    assert_eq!(relative_to("/w/", "/w//a/./b/").as_deref(), Some("a/./b"));
    assert_eq!(relative_to("/w", "/wa/b"), None);
    assert_eq!(relative_to("/w", "w/b"), None);
    assert_eq!(relative_to("", "a./b.").as_deref(), Some("a./b."));
    for (root, path) in [("/w", "/w/a/b.md"), ("/w/", "/w//a/./b/"), ("/w", "/wa/b"), ("/w", "w/b"), ("", "/x/"), ("./a", "a/b"), ("a", "a"), ("/", "/x")] {
        let want = std::path::Path::new(path).strip_prefix(root).ok().map(|p| p.to_string_lossy().to_string());
        assert_eq!(relative_to(root, path), want, "{root} {path}");
    }
    assert_eq!(summary_path("/w"), "/w/crates/eda-trace/docs/run-summary.md");
}

#[test]
fn summaries_list_every_run_and_every_failure() {
    let rs = vec![
        RunResult {
            bin: bin("p", "a_trace"),
            status: RunStatus::Passed,
            elapsed_s: dbl(1.25),
            artifact: Some("/w/crates/p/docs/a.md".into()),
            stderr_tail: vec![],
        },
        RunResult {
            bin: bin("q", "b_trace"),
            status: RunStatus::Failed,
            elapsed_s: dbl(0.5),
            artifact: None,
            stderr_tail: vec!["error: x".into(), "note".into()],
        },
    ];
    assert_eq!(count_results(&rs), (1, 1));
    let md = summary_markdown("/w", &rs, dbl(1.75), "all", 1_700_000_000);
    assert!(md.starts_with("# `run-all-traces` — last run summary\n\nMode: `all`  ·  Total: **1.8s**  ·  Outcome: **1** ok, **1** failed  ·  Unix time: `1700000000`\n\n"), "{md}");
    assert!(md.contains("| ✓ | `p` | `a_trace` | 1.2s | [`crates/p/docs/a.md`](../../../crates/p/docs/a.md) |\n"), "{md}");
    assert!(md.contains("| ✗ | `q` | `b_trace` | 0.5s | — |\n"));
    assert!(md.ends_with("\n## Failures\n\n### `q::b_trace`\n\n```\nerror: x\nnote\n```\n\n"));
}
