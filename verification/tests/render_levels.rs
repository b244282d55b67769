use ast_to_mermaid::error::AstToMermaidError;
use ast_to_mermaid::graph::catalog::{Atom, Catalog, Relation};
use ast_to_mermaid::render::overview::ModuleCounts;
use ast_to_mermaid::render::project::CrateCounts;
use ast_to_mermaid::render::util::mermaid_id;
use ast_to_mermaid::render::{overview, project, render, Level};
use std::collections::HashSet;

fn module_name(file_path: &str) -> &str {
    file_path
        .rsplit('/')
        .next()
        .unwrap_or(file_path)
        .strip_suffix(".rs")
        .unwrap_or(file_path)
}

fn ingest(catalog: &mut Catalog, file_path: &str, name: &str, items: &[(&str, &str)]) {
    let module = format!("code:{file_path}");
    catalog.add_atom(Atom::new(&module, "module", name, "h").in_file(file_path));
    for (kind, item) in items {
        let id = format!("code:{file_path}::{kind}::{item}");
        catalog.add_atom(Atom::new(&id, kind, item, "h").in_file(file_path));
        catalog.add_relation(Relation::new(&module, &id, "contains"));
    }
}

fn build(catalog: &mut Catalog, file_path: &str, items: &[(&str, &str)]) {
    ingest(catalog, file_path, module_name(file_path), items);
}

// Levels

#[test]
fn level_as_str_and_display() {
    assert_eq!(Level::Project.as_str(), "project");
    assert_eq!(Level::Overview.as_str(), "overview");
    assert_eq!(Level::Project.to_string(), "project");
    assert_eq!(Level::Overview.to_string(), "overview");
}

#[test]
fn level_from_str_known() {
    assert_eq!(Level::from_str("project").expect("ok"), Level::Project);
    assert_eq!(Level::from_str("overview").expect("ok"), Level::Overview);
}

#[test]
fn level_from_str_unknown_errors() {
    let err = Level::from_str("module").expect_err("unknown");
    assert!(matches!(err, AstToMermaidError::InvalidInput(_)));
    assert!(err.to_string().contains("module"));
    assert_eq!(
        err.to_string(),
        "invalid input: unknown render level: \"module\" (expected: project | overview)"
    );
}

#[test]
fn level_clone_copy_eq_hash() {
    let a = Level::Project;
    let b = a;
    assert_eq!(a, b);
    let mut set = HashSet::new();
    set.insert(a);
    set.insert(b);
    assert_eq!(set.len(), 1);
    assert!(format!("{a:?}").contains("Project"));
}

#[test]
fn levels_print_and_parse_back() {
    for level in [Level::Project, Level::Overview] {
        assert_eq!(Level::from_str(&level.to_string()).expect("ok"), level);
        assert!(!level.requires_target());
    }
}

#[test]
fn render_dispatches_to_correct_level() {
    let store = Catalog::new();
    let project = render(Level::Project, &store).expect("project");
    let overview = render(Level::Overview, &store).expect("overview");
    assert_eq!(project, "graph TD\n");
    assert_eq!(overview, "graph TD\n");
}

// Project

#[test]
fn empty_store_renders_minimal_graph() {
    let store = Catalog::new();
    assert_eq!(project::render(&store), "graph TD\n");
}

#[test]
fn single_crate_counts_modules_functions_structs() {
    let mut store = Catalog::new();
    build(
        &mut store,
        "crates/foo/src/lib.rs",
        &[("function", "f1"), ("function", "f2"), ("struct", "S")],
    );
    let out = project::render(&store);
    assert!(out.contains("foo — 1 mod, 2 fn, 1 struct"));
}

#[test]
fn cross_crate_calls_emit_edges_with_counts() {
    let mut store = Catalog::new();
    build(&mut store, "crates/crate_a/src/lib.rs", &[("function", "caller")]);
    build(&mut store, "crates/crate_b/src/lib.rs", &[("function", "helper")]);
    store.add_relation(Relation::new(
        "code:crates/crate_a/src/lib.rs::function::caller",
        "code:crates/crate_b/src/lib.rs::function::helper",
        "calls",
    ));
    let out = project::render(&store);
    assert!(out.contains("crate_a"));
    assert!(out.contains("crate_b"));
    assert!(
        out.contains("crate_a -->|\"1 calls\"| crate_b"),
        "expected cross-crate edge in {out}"
    );
}

#[test]
fn intra_crate_calls_do_not_emit_edges() {
    let mut store = Catalog::new();
    build(
        &mut store,
        "crates/foo/src/lib.rs",
        &[("function", "a"), ("function", "b")],
    );
    store.add_relation(Relation::new(
        "code:crates/foo/src/lib.rs::function::a",
        "code:crates/foo/src/lib.rs::function::b",
        "calls",
    ));
    assert!(!project::render(&store).contains("-->"));
}

#[test]
fn multiple_calls_aggregate_to_single_edge_with_count() {
    let mut store = Catalog::new();
    build(
        &mut store,
        "crates/crate_a/src/lib.rs",
        &[("function", "caller_one"), ("function", "caller_two")],
    );
    build(&mut store, "crates/crate_b/src/lib.rs", &[("function", "helper")]);
    for caller in ["caller_one", "caller_two"] {
        store.add_relation(Relation::new(
            &format!("code:crates/crate_a/src/lib.rs::function::{caller}"),
            "code:crates/crate_b/src/lib.rs::function::helper",
            "calls",
        ));
    }
    assert!(project::render(&store).contains("crate_a -->|\"2 calls\"| crate_b"));
}

#[test]
fn non_calls_relations_ignored_in_edges() {
    let mut store = Catalog::new();
    build(&mut store, "crates/crate_a/src/lib.rs", &[("function", "f")]);
    build(&mut store, "crates/crate_b/src/lib.rs", &[("function", "g")]);
    store.add_relation(Relation::new(
        "code:crates/crate_a/src/lib.rs::function::f",
        "code:crates/crate_b/src/lib.rs::function::g",
        "uses",
    ));
    assert!(!project::render(&store).contains("-->"));
}

#[test]
fn atom_without_file_path_skipped() {
    let mut store = Catalog::new();
    store.add_atom(Atom::new("code:crates/foo/src/lib.rs", "module", "lib", "h"));
    assert_eq!(project::render(&store), "graph TD\n");
}

#[test]
fn crate_counts_default_and_bump() {
    let mut c = CrateCounts::default();
    assert_eq!(c.functions, 0);
    c.bump("function");
    c.bump("function");
    c.bump("struct");
    c.bump("module");
    c.bump("unknown_kind"); // ignored
    assert_eq!(c.modules, 1);
    assert_eq!(c.functions, 2);
    assert_eq!(c.structs, 1);
    assert_eq!(c.label("foo"), "foo — 1 mod, 2 fn, 1 struct");
}

#[test]
fn crate_counts_bumps_all_kinds() {
    let mut c = CrateCounts::default();
    for k in ["module", "function", "struct", "trait", "impl", "enum"] {
        c.bump(k);
    }
    assert_eq!(c.modules, 1);
    assert_eq!(c.functions, 1);
    assert_eq!(c.structs, 1);
    assert_eq!(c.traits, 1);
    assert_eq!(c.impls, 1);
    assert_eq!(c.enums, 1);
}

#[test]
fn project_view_of_two_crates_is_drawn_in_full() {
    let mut store = Catalog::new();
    build(&mut store, "crates/zed/src/lib.rs", &[("function", "f")]);
    build(&mut store, "crates/abc/src/lib.rs", &[("struct", "S")]);
    store.add_relation(Relation::new(
        "code:crates/zed/src/lib.rs::function::f",
        "code:crates/abc/src/lib.rs::struct::S",
        "calls",
    ));
    assert_eq!(
        project::render(&store),
        "graph TD\n    abc[\"abc — 1 mod, 0 fn, 1 struct\"]\n    zed[\"zed — 1 mod, 1 fn, 0 struct\"]\n    zed -->|\"1 calls\"| abc\n"
    );
}

// Overview

#[test]
fn empty_store_yields_only_header() {
    let store = Catalog::new();
    assert_eq!(overview::render(&store), "graph TD\n");
}

#[test]
fn single_module_with_no_items_shows_zero_count() {
    let mut store = Catalog::new();
    ingest(&mut store, "src/lib.rs", "lib", &[]);
    let out = overview::render(&store);
    assert!(out.contains("lib — 0 fn"), "got: {out}");
}

#[test]
fn item_counts_correct_per_module() {
    let mut store = Catalog::new();
    ingest(
        &mut store,
        "src/lib.rs",
        "lib",
        &[("function", "f1"), ("function", "f2"), ("struct", "S"), ("trait", "T")],
    );
    let out = overview::render(&store);
    assert!(out.contains("lib — 2 fn, 1 struct, 1 trait"), "got: {out}");
}

#[test]
fn modules_with_only_functions_use_short_label() {
    let mut store = Catalog::new();
    ingest(
        &mut store,
        "src/lib.rs",
        "lib",
        &[("function", "a"), ("function", "b")],
    );
    let out = overview::render(&store);
    assert!(out.contains("lib — 2 fn"));
    assert!(!out.contains("struct"));
    assert!(!out.contains("trait"));
}

#[test]
fn cross_module_call_emits_edge() {
    let mut store = Catalog::new();
    ingest(&mut store, "src/mod_a.rs", "mod_a", &[("function", "caller")]);
    ingest(&mut store, "src/mod_b.rs", "mod_b", &[("function", "helper")]);
    store.add_relation(Relation::new(
        "code:src/mod_a.rs::function::caller",
        "code:src/mod_b.rs::function::helper",
        "calls",
    ));
    let out = overview::render(&store);
    let from_id = mermaid_id("src/mod_a.rs");
    let to_id = mermaid_id("src/mod_b.rs");
    assert!(
        out.contains(&format!("{from_id} -->|\"1\"| {to_id}")),
        "expected edge in {out}"
    );
}

#[test]
fn intra_module_calls_excluded_from_edges() {
    let mut store = Catalog::new();
    ingest(
        &mut store,
        "src/mod_a.rs",
        "mod_a",
        &[("function", "a"), ("function", "b")],
    );
    store.add_relation(Relation::new(
        "code:src/mod_a.rs::function::a",
        "code:src/mod_a.rs::function::b",
        "calls",
    ));
    assert!(!overview::render(&store).contains("-->"));
}

#[test]
fn multiple_calls_aggregate_to_single_edge() {
    let mut store = Catalog::new();
    ingest(
        &mut store,
        "src/mod_a.rs",
        "mod_a",
        &[("function", "c1"), ("function", "c2")],
    );
    ingest(&mut store, "src/mod_b.rs", "mod_b", &[("function", "h")]);
    for c in ["c1", "c2"] {
        store.add_relation(Relation::new(
            &format!("code:src/mod_a.rs::function::{c}"),
            "code:src/mod_b.rs::function::h",
            "calls",
        ));
    }
    let out = overview::render(&store);
    let from_id = mermaid_id("src/mod_a.rs");
    let to_id = mermaid_id("src/mod_b.rs");
    assert!(out.contains(&format!("{from_id} -->|\"2\"| {to_id}")));
}

#[test]
fn modules_keyed_by_file_path_avoid_collapse() {
    let mut store = Catalog::new();
    ingest(
        &mut store,
        "crates/foo/src/queries.rs",
        "queries",
        &[("function", "f1")],
    );
    ingest(
        &mut store,
        "crates/bar/src/queries.rs",
        "queries",
        &[("function", "f2")],
    );
    let out = overview::render(&store);
    assert!(out.contains(&mermaid_id("crates/foo/src/queries.rs")));
    assert!(out.contains(&mermaid_id("crates/bar/src/queries.rs")));
}

#[test]
fn module_without_file_path_skipped() {
    let mut store = Catalog::new();
    store.add_atom(Atom::new("code:no-path", "module", "ghost", "h"));
    assert_eq!(overview::render(&store), "graph TD\n");
}

#[test]
fn module_counts_default_and_bumps() {
    let mut c = ModuleCounts::default();
    c.bump("function");
    c.bump("function");
    c.bump("struct");
    c.bump("trait");
    c.bump("module"); // ignored
    c.bump("enum"); // ignored
    assert_eq!(c.functions, 2);
    assert_eq!(c.structs, 1);
    assert_eq!(c.traits, 1);
    assert_eq!(c.label("m"), "m — 2 fn, 1 struct, 1 trait");

    let bare = ModuleCounts::default();
    assert_eq!(bare.label("m"), "m — 0 fn");
}
