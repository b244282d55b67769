use ast_to_mermaid::cache::gc::GcReport;
use ast_to_mermaid::cache::Cache;
use ast_to_mermaid::cli::args::{
    dispatch, AnalyzeArgs, BundleArgs, Dispatch, ANALYZE_USAGE, BUNDLE_USAGE, USAGE,
};
use ast_to_mermaid::cli::flags::{
    AnalyzeFlags, AnalyzeFormat, CacheArgs, CacheRoot, ExitCode, FlowFlags, GcFlags, SequenceFlags,
};
use ast_to_mermaid::cli::run::{
    analyzed_line, bundled_line, cached_line, check_analyze, check_not_emptied, check_ref_arg,
    check_sequence, diff_line, diff_refs, external_mode, flow_line, gc_line, gc_options,
    indexed_line, needs_index, not_found, reuses_bundle, sequence_line, sequence_mode,
    sequences_line, skipped_line, External, SequenceMode, SequenceTally,
};
use ast_to_mermaid::dates::Duration;
use ast_to_mermaid::render::detail::Detail;

fn args(items: &[&str]) -> Vec<String> {
    items.iter().map(|s| (*s).to_owned()).collect()
}

fn exit(items: &[&str]) -> Option<ExitCode> {
    match dispatch(&args(items)) {
        Dispatch::Refuse { code, .. } => Some(code),
        _ => None,
    }
}

// Command lines

#[test]
fn version_returns_success() {
    assert_eq!(dispatch(&args(&["version"])), Dispatch::Version);
}

#[test]
fn version_long_flag_returns_success() {
    assert_eq!(dispatch(&args(&["--version"])), Dispatch::Version);
}

#[test]
fn version_short_flag_returns_success() {
    assert_eq!(dispatch(&args(&["-V"])), Dispatch::Version);
}

#[test]
fn mcp_redirects_with_usage_error() {
    assert_eq!(exit(&["mcp"]), Some(ExitCode::UsageError));
}

#[test]
fn unknown_command_returns_usage_error() {
    assert_eq!(exit(&["frobnicate"]), Some(ExitCode::UsageError));
    assert_eq!(
        dispatch(&args(&["frobnicate"])),
        Dispatch::Refuse {
            code: ExitCode::UsageError,
            message: "unknown command: frobnicate".to_owned(),
            usage: USAGE,
        }
    );
}

#[test]
fn no_args_prints_usage_and_returns_usage_error() {
    assert_eq!(
        dispatch(&Vec::new()),
        Dispatch::Refuse {
            code: ExitCode::UsageError,
            message: String::new(),
            usage: USAGE,
        }
    );
}

#[test]
fn analyze_without_path_returns_usage_error() {
    assert_eq!(exit(&["analyze"]), Some(ExitCode::UsageError));
}

#[test]
fn analyze_with_unknown_flag_returns_usage_error() {
    assert_eq!(
        exit(&["analyze", "--bogus", "x", "/tmp"]),
        Some(ExitCode::UsageError)
    );
}

#[test]
fn analyze_with_missing_flag_value_returns_usage_error() {
    assert_eq!(exit(&["analyze", "--level"]), Some(ExitCode::UsageError));
    assert_eq!(exit(&["analyze", "--out"]), Some(ExitCode::UsageError));
}

#[test]
fn analyze_with_invalid_level_returns_usage_error() {
    assert_eq!(
        exit(&["analyze", "--level", "bogus", "/tmp"]),
        Some(ExitCode::UsageError)
    );
}

#[test]
fn analyze_with_two_positional_args_returns_usage_error() {
    assert_eq!(exit(&["analyze", "/a", "/b"]), Some(ExitCode::UsageError));
}

#[test]
fn analyze_args_parse_picks_up_all_flags() {
    let parsed = AnalyzeArgs::parse(&args(&[
        "/some/path",
        "--level",
        "overview",
        "--out",
        "g.mmd",
    ]))
    .expect("ok");
    assert_eq!(parsed.path, "/some/path");
    assert_eq!(parsed.level, Detail::Overview);
    assert_eq!(parsed.out, Some("g.mmd".to_owned()));
}

#[test]
fn analyze_args_parse_default_level_is_project() {
    let parsed = AnalyzeArgs::parse(&args(&["/some/path"])).expect("ok");
    assert_eq!(parsed.level, Detail::Project);
    assert!(parsed.out.is_none());
}

#[test]
fn analyze_short_flags_alias_long_flags() {
    let short = AnalyzeArgs::parse(&args(&["p", "-l", "module", "-t", "m", "-x", "a,b", "-o", "g"]));
    let long = AnalyzeArgs::parse(&args(&[
        "p", "--level", "module", "--target", "m", "--exclude", "a,b", "--out", "g",
    ]));
    assert_eq!(short, long);
    assert_eq!(short.expect("ok").exclude, vec!["a", "b"]);
}

#[test]
fn analyze_args_errors_say_why() {
    let err = |items: &[&str]| AnalyzeArgs::parse(&args(items)).expect_err("refused");
    assert_eq!(err(&[]), "missing <path>");
    assert_eq!(err(&["-l"]), "-l requires a value");
    assert_eq!(err(&["--what"]), "unknown flag: --what");
    assert_eq!(err(&["a", "b"]), "unexpected positional arg: b");
    assert_eq!(err(&["a", "-l", "impact"]), "level=impact requires --target");
    assert_eq!(
        err(&["a", "-l", "x"]),
        "invalid --level: invalid input: unknown render level: \"x\" (expected: project | overview | module | function | impact)"
    );
    // Directories to skip add up; of the other flags the last one counts.
    let ok = AnalyzeArgs::parse(&args(&["a", "-x", "u", "-x", "v", "-o", "1", "-o", "2"]))
        .expect("ok");
    assert_eq!(ok.exclude, vec!["u", "v"]);
    assert_eq!(ok.out.as_deref(), Some("2"));
}

#[test]
fn exit_code_clones_and_compares() {
    let a = ExitCode::Success;
    let b = a;
    assert_eq!(a, b);
    assert_ne!(a, ExitCode::Failure);
    assert_ne!(ExitCode::Failure, ExitCode::UsageError);
    assert!(format!("{a:?}").contains("Success"));
}

#[test]
fn exit_codes_are_numbers() {
    assert_eq!(ExitCode::Success.code(), 0);
    assert_eq!(ExitCode::Failure.code(), 1);
    assert_eq!(ExitCode::UsageError.code(), 2);
}

#[test]
fn bundle_without_path_returns_usage_error() {
    assert_eq!(exit(&["bundle"]), Some(ExitCode::UsageError));
}

#[test]
fn bundle_without_out_returns_usage_error() {
    assert_eq!(
        dispatch(&args(&["bundle", "/p"])),
        Dispatch::Refuse {
            code: ExitCode::UsageError,
            message: "bundle: missing --out <dir>".to_owned(),
            usage: BUNDLE_USAGE,
        }
    );
}

#[test]
fn bundle_with_unknown_flag_returns_usage_error() {
    assert_eq!(
        exit(&["bundle", "--bogus", "x", "/tmp"]),
        Some(ExitCode::UsageError)
    );
    // The level is no flag of a bundle.
    assert_eq!(
        exit(&["bundle", "/p", "--out", "o", "--level", "project"]),
        Some(ExitCode::UsageError)
    );
}

#[test]
fn bundle_with_two_positional_args_returns_usage_error() {
    assert_eq!(
        exit(&["bundle", "/a", "/b", "--out", "/c"]),
        Some(ExitCode::UsageError)
    );
}

#[test]
fn bundle_with_missing_flag_value_returns_usage_error() {
    assert_eq!(exit(&["bundle", "/x", "--out"]), Some(ExitCode::UsageError));
}

#[test]
fn bundle_args_parse_picks_up_all_flags() {
    let parsed = BundleArgs::parse(&args(&[
        "/some/path",
        "--out",
        "/tmp/bundle",
        "--exclude",
        "vendor,target",
    ]))
    .expect("ok");
    assert_eq!(parsed.path, "/some/path");
    assert_eq!(parsed.out, "/tmp/bundle");
    assert_eq!(parsed.exclude, vec!["vendor", "target"]);
}

#[test]
fn commands_are_dispatched_with_their_arguments() {
    let Dispatch::Analyze(a) = dispatch(&args(&["analyze", "src"])) else {
        panic!("expected analyze")
    };
    assert_eq!(a.path, "src");
    let Dispatch::Bundle(b) = dispatch(&args(&["bundle", "src", "-o", "out"])) else {
        panic!("expected bundle")
    };
    assert_eq!(b.out, "out");
    assert_eq!(
        dispatch(&args(&["analyze"])),
        Dispatch::Refuse {
            code: ExitCode::UsageError,
            message: "analyze: missing <path>".to_owned(),
            usage: ANALYZE_USAGE,
        }
    );
}

// Flags

#[test]
fn flags_cache_args_resolve_no_cache_returns_tempdir_handle() {
    let args = CacheArgs { cache_dir: None, no_cache: true };
    assert!(matches!(args.resolve("/tmp", None), CacheRoot::Ephemeral));
}

#[test]
fn flags_cache_args_resolve_explicit_cache_dir_wins() {
    let args = CacheArgs { cache_dir: Some("/x/explicit-cache".to_owned()), no_cache: false };
    let CacheRoot::At(root) = args.resolve("/tmp", Some("/top")) else {
        panic!("explicit cache_dir is persistent")
    };
    assert_eq!(root, "/x/explicit-cache");
}

#[test]
fn flags_cache_args_resolve_default_outside_git_falls_back_to_path() {
    let args = CacheArgs::default();
    let CacheRoot::At(root) = args.resolve("/tmp/p", None) else {
        panic!("persistent")
    };
    assert_eq!(root, Cache::default_root("/tmp/p"));
    let CacheRoot::At(root) = args.resolve("/tmp/p", Some("/tmp")) else {
        panic!("persistent")
    };
    assert_eq!(root, Cache::default_root("/tmp"));
}

// Decisions

fn analyze_flags(target: Option<&str>, git_ref: Option<&str>) -> AnalyzeFlags {
    AnalyzeFlags {
        path: "/dev/null".to_owned(),
        target: target.map(str::to_owned),
        exclude: String::new(),
        include_generated: false,
        out: None,
        git_ref: git_ref.map(str::to_owned),
        format: AnalyzeFormat::default(),
    }
}

#[test]
fn analyze_module_level_without_target_returns_usage_error() {
    let refused = check_analyze(Detail::Module, &analyze_flags(None, None)).expect_err("refused");
    assert_eq!(refused.code, ExitCode::UsageError);
    assert_eq!(refused.message, "module: --target: required for this level");
    assert!(check_analyze(Detail::Module, &analyze_flags(Some("m"), None)).is_ok());
    assert!(check_analyze(Detail::Project, &analyze_flags(None, None)).is_ok());
}

#[test]
fn refs_that_look_like_flags_are_refused() {
    assert!(check_ref_arg("index", None).is_ok());
    assert!(check_ref_arg("index", Some("HEAD")).is_ok());
    let refused = check_ref_arg("index", Some("--upload-pack=x")).expect_err("refused");
    assert_eq!(refused.code, ExitCode::UsageError);
    assert!(refused.message.starts_with("index: --ref: "));
    assert!(check_ref_arg("index", Some("")).is_err());
    assert!(check_analyze(Detail::Project, &analyze_flags(None, Some("-x"))).is_err());
}

#[test]
fn diff_diff_range_without_double_dot_is_usage_error() {
    let refused = diff_refs("abc").expect_err("refused");
    assert_eq!(refused.code, ExitCode::UsageError);
    assert_eq!(refused.message, "diff: expected `<ref-a>..<ref-b>`, got `abc`");
}

#[test]
fn diff_diff_range_with_empty_side_is_usage_error() {
    let refused = diff_refs("..main").expect_err("refused");
    assert_eq!(refused.code, ExitCode::UsageError);
    assert_eq!(refused.message, "diff: both refs must be non-empty in `..main`");
}

#[test]
fn diff_ranges_part_at_the_first_dots() {
    assert_eq!(
        diff_refs("main..feat").expect("ok"),
        ("main".to_owned(), "feat".to_owned())
    );
    assert!(diff_refs("main..-x").is_err());
}

fn gc_flags(max_size: &str, older_than: Option<&str>) -> GcFlags {
    GcFlags {
        path: ".".to_owned(),
        max_size: max_size.to_owned(),
        older_than: older_than.map(str::to_owned),
        dry_run: true,
        cache: CacheArgs::default(),
    }
}

#[test]
fn gc_gc_bad_max_size_is_usage_error() {
    let refused = gc_options(&gc_flags("huge", None)).expect_err("refused");
    assert_eq!(refused.code, ExitCode::UsageError);
    assert!(refused.message.starts_with("gc: --max-size: "));
}

#[test]
fn gc_gc_bad_older_than_is_usage_error() {
    let refused = gc_options(&gc_flags("1G", Some("forever"))).expect_err("refused");
    assert_eq!(refused.code, ExitCode::UsageError);
    assert!(refused.message.starts_with("gc: --older-than: "));
}

#[test]
fn gc_gc_dry_run_with_age_filter_succeeds() {
    let options = gc_options(&gc_flags("10M", Some("30d"))).expect("ok");
    assert_eq!(options.max_size_bytes, Some(10 * 1024 * 1024));
    assert_eq!(options.older_than, Some(Duration::from_secs(30 * 86_400)));
    assert!(options.dry_run);
}

fn sequence_flags(target: Option<&str>, all: bool, out: Option<&str>) -> SequenceFlags {
    SequenceFlags {
        path: "p".to_owned(),
        target: target.map(str::to_owned),
        all,
        exclude: String::new(),
        include_generated: false,
        out: out.map(str::to_owned),
        git_ref: None,
    }
}

#[test]
fn sequence_no_target_no_all_is_usage_error() {
    let refused = check_sequence(&sequence_flags(None, false, None)).expect_err("refused");
    assert_eq!(refused.code, ExitCode::UsageError);
}

#[test]
fn sequence_sequence_empty_target_is_usage_error() {
    let refused = check_sequence(&sequence_flags(Some("   "), false, None)).expect_err("refused");
    assert_eq!(refused.code, ExitCode::UsageError);
    assert_eq!(refused.message, "sequence: pass --target <NAME> or --all");
}

#[test]
fn sequence_sequence_no_rust_files_returns_failure() {
    let refused = sequence_mode(&sequence_flags(Some("anything"), false, None), 0)
        .expect_err("refused");
    assert_eq!(refused.code, ExitCode::Failure);
    assert_eq!(refused.message, "sequence: no Rust or Python files found under p");
}

#[test]
fn sequence_sequence_unknown_function_returns_failure() {
    let refused = not_found("missing", "p");
    assert_eq!(refused.code, ExitCode::Failure);
    assert_eq!(refused.message, "sequence: function `missing` not found under p");
}

#[test]
fn sequence_all_requires_out_dir() {
    let refused = sequence_mode(&sequence_flags(None, true, None), 1).expect_err("refused");
    assert_eq!(refused.code, ExitCode::UsageError);
    assert_eq!(
        sequence_mode(&sequence_flags(None, true, Some("d")), 1).expect("ok"),
        SequenceMode::All("d".to_owned())
    );
    assert_eq!(
        sequence_mode(&sequence_flags(Some("f"), false, None), 1).expect("ok"),
        SequenceMode::Single("f".to_owned())
    );
}

#[test]
fn functions_without_steps_are_skipped() {
    let mut tally = SequenceTally { written: 0, skipped: 0 };
    assert!(tally.note(Some(2)));
    assert!(!tally.note(Some(0)));
    assert!(!tally.note(None));
    assert_eq!(
        sequences_line(&tally, "d"),
        "sequence --all: 1 diagrams written to d (2 skipped: empty / parse fail)"
    );
}

#[test]
fn bundle_refuses_empty_into_populated_out_dir() {
    let refused = check_not_emptied(0, false, true, "out", "src").expect_err("refused");
    assert_eq!(refused.code, ExitCode::Failure);
    assert_eq!(
        refused.message,
        "bundle: refusing to overwrite populated out with an empty bundle (src produced 0 entities). Pass --allow-empty to override."
    );
    assert!(check_not_emptied(0, true, true, "out", "src").is_ok());
    assert!(check_not_emptied(0, false, false, "out", "src").is_ok());
    assert!(check_not_emptied(1, false, true, "out", "src").is_ok());
}

#[test]
fn cached_bundles_are_reused_unless_forced() {
    assert!(reuses_bundle(true, false, false));
    assert!(!reuses_bundle(true, true, false));
    assert!(!reuses_bundle(true, false, true));
    assert!(!reuses_bundle(false, false, false));
    assert!(!needs_index(true, false));
    assert!(needs_index(true, true));
    assert!(needs_index(false, false));
}

#[test]
fn external_calls_are_shown_as_asked() {
    let flags = |no_external: bool, include_external: bool| FlowFlags {
        path: "p".to_owned(),
        target: "t".to_owned(),
        depth: 2,
        include_external,
        no_external,
        exclude: String::new(),
        include_generated: false,
        out: None,
    };
    assert_eq!(external_mode(&flags(true, true)), External::Never);
    assert_eq!(external_mode(&flags(false, true)), External::Always);
    assert_eq!(external_mode(&flags(false, false)), External::NearOnly);
}

#[test]
fn lines_that_commands_print() {
    assert_eq!(
        analyzed_line(1, 2, 3, "o.mmd"),
        "analyzed 1 files, 2 atoms, 3 cross-module edges → o.mmd"
    );
    assert_eq!(
        bundled_line(1, 2, 3, 4, "out"),
        "bundled 1 files, 2 atoms, 3 edges, 4 entities → out"
    );
    assert_eq!(cached_line("sha", "dir"), "cached sha → dir");
    assert_eq!(
        indexed_line("sha", "dir", 1, 2, 3),
        "indexed sha → dir (1 files, 2 atoms, 3 edges)"
    );
    assert_eq!(diff_line("a", "b", 1, 2, 3, 4), "diff a → b: +1 -2 ~3 ↪4");
    assert_eq!(skipped_line(0), None);
    assert_eq!(
        skipped_line(2).as_deref(),
        Some("skipped 2 files (see --trace=warn for details)")
    );
    assert_eq!(
        sequence_line("f", "a.rs", 2, 3, Some("o")),
        "sequence f from a.rs (2 participants, 3 steps) → o"
    );
    assert_eq!(
        sequence_line("f", "a.rs", 2, 3, None),
        "sequence f from a.rs (2 participants, 3 steps)"
    );
    assert_eq!(flow_line("f", 2, 3, 4), "flow: f depth 2 (3 files, 4 atoms)");
    let report = GcReport {
        total_before: 10,
        removed_count: 1,
        removed_size: 4,
        count_before: 2,
        dry_run: true,
        errors: Vec::new(),
    };
    assert_eq!(
        gc_line(&report, true, "c"),
        "would remove 1 entries (4 bytes) from c (had 2 entries, 10 bytes)"
    );
    assert_eq!(
        gc_line(&report, false, "c"),
        "removed 1 entries (4 bytes) from c (had 2 entries, 10 bytes)"
    );
}
