use ast_to_mermaid::error::AstToMermaidError;
use ast_to_mermaid::git_source::{
    blob_size, cat_file, ls_tree, parse_tree_listing, read_header, rev_parse, show_toplevel,
    validate_git_ref, GitOutput,
};
use ast_to_mermaid::limits::MAX_AST_DEPTH;
use ast_to_mermaid::model::{Edge, EdgeKind, EntityId};
use ast_to_mermaid::parser::{CodeParser, Language, ParseUnit};
use ast_to_mermaid::pipeline::{
    analyze, bundle, check_root, fits, index_sources, worktree_id, AnalyzeOptions, AnalyzeReport,
    Source,
};
use ast_to_mermaid::render::Level;
use ast_to_mermaid::walk::{
    escape_control_chars, file_line, is_excluded, language_for, sort_files, visit, visit_root,
    SourceFile, Visit,
};

// Walking

#[test]
fn language_for_recognizes_rs_and_py() {
    assert_eq!(language_for("/x/foo.rs"), Some(Language::Rust));
    assert_eq!(language_for("foo.py"), Some(Language::Python));
    assert_eq!(language_for("Makefile"), None);
    assert_eq!(language_for("a.txt"), None);
}

#[test]
fn walk_returns_sorted_pairs_skipping_target() {
    let none = Vec::new();
    assert_eq!(visit("r/src/a.rs", false, true, &none), Visit::Take(Language::Rust));
    assert_eq!(visit("r/src/b.py", false, true, &none), Visit::Take(Language::Python));
    assert_eq!(visit("r/target", true, false, &none), Visit::Skip);
    assert_eq!(visit("r/.git", true, false, &none), Visit::Skip);
    assert_eq!(visit("r/README.md", false, true, &none), Visit::Skip);
    let file = |p: &str| SourceFile { path: p.to_owned(), language: Language::Rust };
    let sorted = sort_files(&vec![file("r/b.rs"), file("r/a/z.rs"), file("r/a.rs")]);
    let paths: Vec<&str> = sorted.iter().map(|f| f.path.as_str()).collect();
    assert_eq!(paths, vec!["r/a/z.rs", "r/a.rs", "r/b.rs"]);
}

#[test]
fn walk_skips_hidden_directories() {
    let none = Vec::new();
    assert_eq!(visit("r/.hidden", true, false, &none), Visit::Skip);
    assert_eq!(visit("r/src", true, false, &none), Visit::Descend);
}

#[test]
fn walk_handles_single_file_input() {
    assert_eq!(visit_root("lone.rs", false, true), Visit::Take(Language::Rust));
    assert_eq!(visit_root("target", true, false), Visit::Descend);
}

#[test]
fn walk_unknown_path_is_empty() {
    assert_eq!(visit_root("does-not-exist", false, false), Visit::Skip);
}

#[test]
fn walk_exclude_skips_named_dir() {
    let extra = vec!["vendor".to_owned(), "workspaces".to_owned()];
    let none = Vec::new();
    for dir in ["r/vendor", "r/workspaces"] {
        assert_eq!(visit(dir, true, false, &none), Visit::Descend);
        assert_eq!(visit(dir, true, false, &extra), Visit::Skip);
    }
}

#[test]
fn walk_exclude_does_not_override_builtin_skip_set() {
    let none = Vec::new();
    let extra = vec!["unrelated".to_owned()];
    for name in ["target", "node_modules", ".git"] {
        assert!(is_excluded(name, &none));
        assert!(is_excluded(name, &extra));
    }
    assert!(!is_excluded("src", &extra));
}

#[test]
fn walk_prints_a_line_per_file() {
    assert_eq!(file_line(Language::Rust, "src/lib.rs"), "rust\tsrc/lib.rs");
}

#[test]
fn escape_control_chars_passes_plain_paths_through() {
    assert_eq!(escape_control_chars("src/lib.rs"), "src/lib.rs");
    // Tab is preserved (the field separator on the printed line).
    assert_eq!(escape_control_chars("a\tb"), "a\tb");
    // Non-ASCII unicode is preserved verbatim.
    assert_eq!(escape_control_chars("café/日本語.rs"), "café/日本語.rs");
}

#[test]
fn escape_control_chars_escapes_newline_cr_and_nul() {
    assert_eq!(escape_control_chars("a\nb"), "a\\x0ab");
    assert_eq!(escape_control_chars("a\rb"), "a\\x0db");
    assert_eq!(escape_control_chars("a\0b"), "a\\x00b");
    assert_eq!(escape_control_chars("a\\b"), "a\\\\b");
    assert_eq!(escape_control_chars("a\x7fb"), "a\\x7fb");
}

// Answers of git

fn answered(stdout: &str) -> GitOutput {
    GitOutput { success: true, stdout: stdout.as_bytes().to_vec(), stderr: Vec::new() }
}

fn refused(stderr: &[u8]) -> GitOutput {
    GitOutput { success: false, stdout: Vec::new(), stderr: stderr.to_vec() }
}

#[test]
fn rev_parse_resolves_head() {
    assert_eq!(rev_parse("HEAD", &answered("0123abc\n")).expect("ok"), "0123abc");
}

#[test]
fn rev_parse_unknown_ref_errors_with_fetch_hint() {
    let err = rev_parse("definitely-not-a-ref", &refused(b"fatal: bad\n")).expect_err("unknown");
    let msg = err.to_string();
    assert!(msg.contains("git fetch"), "missing hint: {msg}");
    assert_eq!(
        msg,
        "invalid input: git rev-parse definitely-not-a-ref: fatal: bad (try `git fetch`?)"
    );
}

#[test]
fn complaints_of_git_need_not_be_text() {
    let err = rev_parse("x", &refused(b"bad \xff byte")).expect_err("unknown");
    assert!(err.to_string().contains("bad \u{fffd} byte"));
    let out = GitOutput { success: true, stdout: vec![0xff], stderr: Vec::new() };
    let err = rev_parse("x", &out).expect_err("no text");
    assert_eq!(err.to_string(), "invalid input: non-utf8 git output");
}

#[test]
fn show_toplevel_returns_repo_root() {
    assert_eq!(show_toplevel("/r/src", &answered("/r\n")).expect("ok"), "/r");
    let err = show_toplevel("/x", &refused(b"fatal: not a repo")).expect_err("outside");
    assert_eq!(
        err.to_string(),
        "invalid input: not inside a git work tree (start=/x): fatal: not a repo"
    );
}

#[test]
fn ls_tree_yields_path_and_blob_sha() {
    let entries = ls_tree("HEAD", &answered("100644 blob abc\tsrc/lib.rs\0")).expect("ok");
    assert_eq!(entries.len(), 1);
    assert_eq!(entries[0].path, "src/lib.rs");
    assert_eq!(entries[0].blob_sha, "abc");
    assert!(ls_tree("HEAD", &refused(b"fatal")).is_err());
}

#[test]
fn listings_keep_odd_names_and_pass_over_other_objects() {
    let entries = parse_tree_listing("160000 commit c1\tsub\0100644 blob b1\ta\nb c.rs\0junk\0");
    assert_eq!(entries.len(), 1);
    assert_eq!(entries[0].path, "a\nb c.rs");
    assert_eq!(entries[0].blob_sha, "b1");
}

#[test]
fn cat_file_reads_blob_content() {
    let content = cat_file("abc", "abc blob 9\n", &b"fn x(){}\n\n".to_vec()).expect("ok");
    assert_eq!(content, b"fn x(){}\n");
    // An empty blob is followed by the line end alone.
    assert_eq!(cat_file("abc", "abc blob 0\n", &b"\n".to_vec()).expect("ok"), b"");
    assert!(cat_file("abc", "abc blob 3\n", &b"ab".to_vec()).is_err());
    assert!(cat_file("abc", "abc blob 3\n", &b"abc".to_vec()).is_err());
}

#[test]
fn cat_file_unknown_blob_errors() {
    let sha = "0000000000000000000000000000000000000000";
    let err = cat_file(sha, &format!("{sha} missing\n"), &Vec::new()).expect_err("missing");
    assert!(err.to_string().contains("git cat-file"));
    assert!(err.to_string().contains("missing"));
}

#[test]
fn headers_of_blobs() {
    assert_eq!(blob_size("a", "a blob 12\n").expect("ok"), 12);
    assert_eq!(
        blob_size("a", "").expect_err("eof").to_string(),
        "invalid input: git cat-file: unexpected EOF on header"
    );
    assert_eq!(
        blob_size("a", "nonsense\n").expect_err("malformed").to_string(),
        "invalid input: git cat-file: malformed header \"nonsense\""
    );
    assert_eq!(
        read_header("a", "a blob x\n", "<h>").expect_err("size").to_string(),
        "invalid input: git cat-file: non-numeric size in header <h>"
    );
}

#[test]
fn refs_are_validated() {
    assert!(validate_git_ref("main").is_ok());
    assert!(validate_git_ref("").is_err());
    assert!(validate_git_ref("--output=x").is_err());
}

// The pipeline

fn source(path: &str, language: Language, content: &str) -> Source {
    Source { path: path.to_owned(), language, content: content.as_bytes().to_vec() }
}

#[test]
fn analyze_report_clone_eq_debug() {
    let r = AnalyzeReport {
        mermaid: "graph TD\n".to_owned(),
        files_parsed: 2,
        atoms_indexed: 4,
        edges_resolved: 1,
    };
    let c = r.clone();
    assert_eq!(r, c);
    assert!(format!("{r:?}").contains("AnalyzeReport"));
}

#[test]
fn analyze_options_default_uses_project_level() {
    let opts = AnalyzeOptions::default();
    assert_eq!(opts.level, Level::Project);
    assert_eq!(opts.scope.namespace, "local");
    assert!(opts.exclude.is_empty());
}

#[test]
fn analyze_missing_root_errors() {
    let err = check_root("/definitely/does/not/exist/12345", false).expect_err("must error");
    assert!(matches!(err, AstToMermaidError::InvalidInput(_)));
    assert!(check_root("/", true).is_ok());
}

#[test]
fn analyze_empty_dir_yields_empty_graph() {
    let mut indexed = index_sources(&Vec::new(), MAX_AST_DEPTH).expect("ok");
    let report = analyze(&mut indexed, &Vec::new(), Level::Project);
    assert_eq!(report.files_parsed, 0);
    assert_eq!(report.atoms_indexed, 0);
    assert_eq!(report.edges_resolved, 0);
    assert_eq!(report.mermaid, "graph TD\n");
}

#[test]
fn analyze_propagates_invalid_utf8() {
    let bad = Source {
        path: "bad.rs".to_owned(),
        language: Language::Rust,
        content: vec![0xff, 0xfe, 0xfd],
    };
    let err = match index_sources(&vec![bad], MAX_AST_DEPTH) {
        Ok(_) => panic!("must reject"),
        Err(e) => e,
    };
    assert!(matches!(err, AstToMermaidError::InvalidInput(_)));
    assert!(err.to_string().starts_with("invalid input: parse bad.rs: invalid input: invalid utf-8 in bad.rs: "));
}

#[test]
fn analyze_simple_two_crate_workspace_renders_project() {
    let mut indexed = index_sources(&vec![
        source("crates/crate_a/src/lib.rs", Language::Rust, "pub fn caller() { helper(); }\n"),
        source("crates/crate_b/src/lib.rs", Language::Rust, "pub fn helper() {}\n"),
    ], MAX_AST_DEPTH)
    .unwrap_or_else(|e| panic!("{}", e.to_string()));
    let resolved = vec![Edge::new(
        EntityId::new("code:crates/crate_a/src/lib.rs::function::caller"),
        EntityId::new("code:crates/crate_b/src/lib.rs::function::helper"),
        EdgeKind::Calls,
    )];
    let report = analyze(&mut indexed, &resolved, Level::Project);
    assert_eq!(report.files_parsed, 2);
    assert!(report.atoms_indexed >= 4); // 2 modules + 2 functions
    assert_eq!(report.edges_resolved, 1);
    assert!(report.mermaid.contains("crate_a"));
    assert!(report.mermaid.contains("crate_b"));
    assert!(
        report.mermaid.contains("crate_a -->|\"1 calls\"| crate_b"),
        "got: {}",
        report.mermaid
    );
}

#[test]
fn analyze_overview_level_renders_modules() {
    let mut indexed = index_sources(&vec![
        source(
            "src/mod_a.rs",
            Language::Rust,
            "pub fn caller() { helper(); }\npub fn other() {}\n",
        ),
        source("src/mod_b.rs", Language::Rust, "pub fn helper() {}\n"),
    ], MAX_AST_DEPTH)
    .unwrap_or_else(|e| panic!("{}", e.to_string()));
    let resolved = vec![Edge::new(
        EntityId::new("code:src/mod_a.rs::function::caller"),
        EntityId::new("code:src/mod_b.rs::function::helper"),
        EdgeKind::Calls,
    )];
    let report = analyze(&mut indexed, &resolved, Level::Overview);
    assert_eq!(report.files_parsed, 2);
    assert!(report.mermaid.contains("mod_a"));
    assert!(report.mermaid.contains("mod_b"));
    assert!(report.mermaid.contains(" -->|\""));
}

#[test]
fn bundle_produces_overview_project_and_per_entity_files() {
    let mut indexed = index_sources(&vec![
        source("src/lib.rs", Language::Rust, "pub fn hello() {}\n"),
        source("tool.py", Language::Python, "def run():\n    pass\n"),
    ], MAX_AST_DEPTH)
    .unwrap_or_else(|e| panic!("{}", e.to_string()));
    let (made, report) = bundle(&mut indexed, &Vec::new(), "/repo", "now", "0.1.0");
    assert_eq!(report.files_parsed, 2);
    assert!(report.atoms_indexed >= 4);
    assert_eq!(report.mermaid, made.overview_mmd);
    assert!(made.overview_mmd.starts_with("graph TD"));
    assert!(made.project_mmd.starts_with("graph TD"));
    assert_eq!(made.index.schema_version, 1);
    assert_eq!(made.index.stats.files_parsed, 2);
    assert_eq!(made.index.source_root, "/repo");
    let kinds: Vec<&str> = made.entities.iter().map(|e| e.meta.kind.as_str()).collect();
    assert!(kinds.contains(&"module"), "missing module entity: {kinds:?}");
    assert!(kinds.contains(&"function"), "missing function entity: {kinds:?}");
    for e in &made.entities {
        assert!(e.mmd.contains(&format!("%% id: {}", e.id)));
        assert!(e.mmd.contains(&format!("%% kind: {}", e.meta.kind)));
        assert!(e.mmd.starts_with("%% id:"));
    }
    assert_eq!(made.index.entities.len(), made.entities.len());
}

// Snapshots

#[test]
fn a_working_tree_is_known_by_its_paths_and_contents() {
    let a = || source("a.rs", Language::Rust, "fn a() {}");
    let b = || source("b.py", Language::Python, "");
    assert_eq!(
        worktree_id(&vec![a(), b()]),
        "wt-1afa945b6c06685c4524e076928313fd6257f3debb3111933185d183e4e1004a"
    );
    assert_eq!(
        worktree_id(&Vec::new()),
        "wt-e3b0c44298fc1c149afbf4c8996fb92427ae41e4649b934ca495991b7852b855"
    );
    let changed = source("a.rs", Language::Rust, "fn b() {}");
    let moved = source("c.rs", Language::Rust, "fn a() {}");
    assert_ne!(worktree_id(&vec![a()]), worktree_id(&vec![changed]));
    assert_ne!(worktree_id(&vec![a()]), worktree_id(&vec![moved]));
}

#[test]
fn a_unit_fits_the_file_that_was_parsed() {
    let unit = CodeParser::rust().parse(b"fn a() {}", "x/a.rs").expect("parses");
    assert!(fits(&unit, "x/a.rs"));
    assert!(!fits(&unit, "y/a.rs"));
    assert!(fits(&ParseUnit::default(), "y/a.rs"));
}
