use ast_to_mermaid::error::AstToMermaidError;
use ast_to_mermaid::graph::catalog::{Atom, Catalog, Relation};
use ast_to_mermaid::graph::Store;
use ast_to_mermaid::model::{CodeAtom, Edge, EdgeKind, EntityId};
use ast_to_mermaid::render::detail::{render_view, reverse_steps, Detail};
use ast_to_mermaid::render::impact::DEFAULT_HOPS;
use ast_to_mermaid::render::lookup::{
    find_function, find_module, resolve_function, resolve_module,
};
use ast_to_mermaid::render::module::{node_shape, short_kind};
use ast_to_mermaid::render::{function, impact, module};

fn module_atom(file_path: &str, name: &str) -> Atom {
    Atom::new(&format!("code:{file_path}"), "module", name, "h").in_file(file_path)
}

fn function_atom(file_path: &str, name: &str) -> Atom {
    let id = format!("code:{file_path}::function::{name}");
    Atom::new(&id, "function", name, "h").in_file(file_path)
}

fn make_store(atoms: Vec<Atom>) -> Catalog {
    let mut store = Catalog::new();
    for a in atoms {
        store.add_atom(a);
    }
    store
}

fn build(store: &mut Catalog, file_path: &str, items: &[(&str, &str)]) {
    let m = format!("code:{file_path}");
    store.add_atom(module_atom(file_path, "mod"));
    for (kind, name) in items {
        let id = format!("code:{file_path}::{kind}::{name}");
        store.add_atom(Atom::new(&id, kind, name, "h").in_file(file_path));
        store.add_relation(Relation::new(&m, &id, "contains"));
    }
}

// Lookup

#[test]
fn resolve_module_empty_target_errors() {
    let store = make_store(vec![]);
    let err = resolve_module(&store, "").expect_err("empty rejected");
    assert!(matches!(err, AstToMermaidError::InvalidInput(_)));
}

#[test]
fn resolve_module_by_exact_id() {
    let store = make_store(vec![module_atom("src/foo.rs", "foo")]);
    let id = resolve_module(&store, "code:src/foo.rs").expect("ok");
    assert_eq!(id.as_str(), "code:src/foo.rs");
}

#[test]
fn resolve_module_by_file_path() {
    let store = make_store(vec![module_atom("src/foo.rs", "foo")]);
    let id = resolve_module(&store, "src/foo.rs").expect("ok");
    assert_eq!(id.as_str(), "code:src/foo.rs");
}

#[test]
fn resolve_module_by_name_unique() {
    let store = make_store(vec![module_atom("src/foo.rs", "foo")]);
    let id = resolve_module(&store, "foo").expect("ok");
    assert_eq!(id.as_str(), "code:src/foo.rs");
}

#[test]
fn resolve_module_by_name_ambiguous_errors() {
    let store = make_store(vec![
        module_atom("src/a/queries.rs", "queries"),
        module_atom("src/b/queries.rs", "queries"),
    ]);
    let err = resolve_module(&store, "queries").expect_err("ambiguous");
    assert!(err.to_string().contains("ambiguous"));
    assert!(err.to_string().contains("2 candidates"));
}

#[test]
fn resolve_module_no_match_errors() {
    let store = make_store(vec![module_atom("src/foo.rs", "foo")]);
    let err = resolve_module(&store, "ghost").expect_err("missing");
    assert!(err.to_string().contains("no module"));
}

#[test]
fn resolve_function_by_exact_id() {
    let store = make_store(vec![function_atom("src/lib.rs", "foo")]);
    let id = resolve_function(&store, "code:src/lib.rs::function::foo").expect("ok");
    assert_eq!(id.as_str(), "code:src/lib.rs::function::foo");
}

#[test]
fn resolve_function_by_name_unique() {
    let store = make_store(vec![function_atom("src/lib.rs", "foo")]);
    let id = resolve_function(&store, "foo").expect("ok");
    assert_eq!(id.as_str(), "code:src/lib.rs::function::foo");
}

#[test]
fn resolve_function_by_name_ambiguous_errors() {
    let store = make_store(vec![
        function_atom("src/a.rs", "render"),
        function_atom("src/b.rs", "render"),
        function_atom("src/c.rs", "render"),
    ]);
    let err = resolve_function(&store, "render").expect_err("ambiguous");
    assert!(err.to_string().contains("ambiguous"));
    assert!(err.to_string().contains("3 candidates"));
}

#[test]
fn resolve_function_ambiguous_truncates_long_lists() {
    let mut atoms = Vec::new();
    for i in 0..6 {
        atoms.push(function_atom(&format!("src/m{i}.rs"), "f"));
    }
    let store = make_store(atoms);
    let err = resolve_function(&store, "f").expect_err("ambiguous");
    let s = err.to_string();
    assert!(s.contains("6 candidates"), "got: {s}");
    assert!(s.contains("..."), "list should be truncated, got: {s}");
}

#[test]
fn resolve_function_empty_target_errors() {
    let store = make_store(vec![]);
    assert!(matches!(
        resolve_function(&store, "").expect_err("empty"),
        AstToMermaidError::InvalidInput(_)
    ));
}

#[test]
fn resolve_function_no_match_errors() {
    let store = make_store(vec![function_atom("src/lib.rs", "foo")]);
    let err = resolve_function(&store, "ghost").expect_err("missing");
    assert!(err.to_string().contains("no function"));
}

#[test]
fn lookups_show_the_target_as_given() {
    let store = make_store(vec![function_atom("src/lib.rs", "foo")]);
    let err = find_module(&store, "x\ty", "<shown>").expect_err("missing");
    assert!(err.to_string().contains("<shown>"));
    let err = find_function(&store, "x\ty", "<shown>").expect_err("missing");
    assert!(err.to_string().contains("<shown>"));
    // The target is quoted in the error, with control characters escaped.
    let err = resolve_function(&store, "x\ty").expect_err("missing");
    assert!(err.to_string().contains("\"x\\ty\""));
}

// Function view

#[test]
fn function_missing_target_errors() {
    let store = Catalog::new();
    let err = function::render(&store, "ghost").expect_err("must error");
    assert!(matches!(err, AstToMermaidError::InvalidInput(_)));
}

#[test]
fn function_empty_target_errors() {
    let store = Catalog::new();
    let err = function::render(&store, "").expect_err("must error");
    assert!(matches!(err, AstToMermaidError::InvalidInput(_)));
}

#[test]
fn function_isolated_function_renders_only_target() {
    let store = make_store(vec![function_atom("src/lib.rs", "foo")]);
    let out = function::render(&store, "foo").expect("render");
    assert!(out.contains("fn foo (target)"));
    assert_eq!(out.matches("-->").count(), 0);
}

#[test]
fn callers_appear_with_arrows_in() {
    let mut store = make_store(vec![
        function_atom("src/a.rs", "caller_one"),
        function_atom("src/a.rs", "caller_two"),
        function_atom("src/lib.rs", "target"),
    ]);
    for caller in ["caller_one", "caller_two"] {
        store.add_relation(Relation::new(
            &format!("code:src/a.rs::function::{caller}"),
            "code:src/lib.rs::function::target",
            "calls",
        ));
    }
    let out = function::render(&store, "target").expect("render");
    assert!(out.contains("caller_one"));
    assert!(out.contains("caller_two"));
    assert_eq!(out.matches("--> ").count(), 2);
}

#[test]
fn callees_appear_with_arrows_out() {
    let mut store = make_store(vec![
        function_atom("src/lib.rs", "target"),
        function_atom("src/b.rs", "helper_one"),
        function_atom("src/b.rs", "helper_two"),
    ]);
    for callee in ["helper_one", "helper_two"] {
        store.add_relation(Relation::new(
            "code:src/lib.rs::function::target",
            &format!("code:src/b.rs::function::{callee}"),
            "calls",
        ));
    }
    let out = function::render(&store, "target").expect("render");
    assert!(out.contains("helper_one"));
    assert!(out.contains("helper_two"));
    assert_eq!(out.matches("--> ").count(), 2);
}

#[test]
fn non_calls_relations_ignored() {
    let mut store = make_store(vec![
        function_atom("src/lib.rs", "target"),
        function_atom("src/b.rs", "noise"),
    ]);
    store.add_relation(Relation::new(
        "code:src/lib.rs::function::target",
        "code:src/b.rs::function::noise",
        "uses",
    ));
    let out = function::render(&store, "target").expect("render");
    assert!(!out.contains("noise"));
}

// Impact view

fn code_atom(file_path: &str, name: &str) -> CodeAtom {
    CodeAtom {
        id: EntityId::new(&format!("code:{file_path}::function::{name}")),
        kind: "function".to_owned(),
        name: name.to_owned(),
        file_path: file_path.to_owned(),
        line_start: 1,
        line_end: 1,
        doc: String::new(),
        signature: String::new(),
        content_hash: "h".to_owned(),
        calls: Vec::new(),
        method_calls: Vec::new(),
        parent: None,
    }
}

fn calling(names: &[&str], calls: &[(&str, &str)]) -> Store {
    let mut store = Store::new();
    for n in names {
        store.add_atom(code_atom("src/m.rs", n));
    }
    for (from, to) in calls {
        store.add_edge(Edge::new(
            EntityId::new(&format!("code:src/m.rs::function::{from}")),
            EntityId::new(&format!("code:src/m.rs::function::{to}")),
            EdgeKind::Calls,
        ));
    }
    store
}

fn impact_of(store: &Store, name: &str, hops: u8) -> String {
    let catalog = Catalog::of_store(store);
    let id = EntityId::new(&format!("code:src/m.rs::function::{name}"));
    let paths = reverse_steps(store, &id, hops);
    impact::render(&catalog, name, &paths).expect("render")
}

#[test]
fn impact_missing_target_errors() {
    let store = Catalog::new();
    let err = impact::render(&store, "ghost", &vec![]).expect_err("must error");
    assert!(matches!(err, AstToMermaidError::InvalidInput(_)));
}

#[test]
fn impact_isolated_function_renders_only_target() {
    let store = calling(&["foo"], &[]);
    let out = impact_of(&store, "foo", DEFAULT_HOPS);
    assert!(out.contains("fn foo (impacted)"));
    assert_eq!(out.matches("--> ").count(), 0);
}

#[test]
fn linear_chain_walks_back_n_hops() {
    let store = calling(&["a", "b", "c"], &[("a", "b"), ("b", "c")]);
    let out = impact_of(&store, "c", 2);
    assert!(out.contains("fn c (impacted)"));
    assert!(out.contains("\"a\""));
    assert!(out.contains("\"b\""));
    assert_eq!(out.matches("--> ").count(), 2);
}

#[test]
fn zero_hops_renders_only_target() {
    let store = calling(&["a", "b"], &[("a", "b")]);
    let out = impact_of(&store, "b", 0);
    assert!(out.contains("fn b (impacted)"));
    assert!(!out.contains("\"a\""));
}

#[test]
fn diamond_dedup_unique_nodes_and_edges() {
    let store = calling(
        &["a", "b", "c", "d"],
        &[("a", "b"), ("a", "c"), ("b", "d"), ("c", "d")],
    );
    let out = impact_of(&store, "d", 2);
    for n in ["\"a\"", "\"b\"", "\"c\""] {
        assert!(out.contains(n), "missing {n} in:\n{out}");
    }
    assert_eq!(out.matches("--> ").count(), 4);
}

#[test]
fn default_hops_is_3() {
    assert_eq!(DEFAULT_HOPS, 3);
}

#[test]
fn steps_back_are_calls_of_the_graph() {
    let store = calling(&["a", "b", "c"], &[("a", "b"), ("b", "c"), ("c", "c")]);
    let steps = reverse_steps(&store, &EntityId::new("code:src/m.rs::function::c"), 3);
    assert_eq!(
        steps,
        vec![
            vec!["code:src/m.rs::function::c", "code:src/m.rs::function::b"],
            vec!["code:src/m.rs::function::b", "code:src/m.rs::function::a"],
        ]
    );
}

// Module view

#[test]
fn module_empty_target_errors() {
    let store = Catalog::new();
    let err = module::render(&store, "").expect_err("must error");
    assert!(matches!(err, AstToMermaidError::InvalidInput(_)));
}

#[test]
fn missing_module_errors() {
    let store = Catalog::new();
    let err = module::render(&store, "ghost").expect_err("must error");
    assert!(err.to_string().contains("no module"));
}

#[test]
fn module_with_items_renders_subgraph() {
    let mut store = Catalog::new();
    build(
        &mut store,
        "src/foo.rs",
        &[
            ("function", "f1"),
            ("struct", "S"),
            ("trait", "T"),
            ("impl", "I"),
            ("enum", "E"),
            ("type_alias", "TA"),
            ("const", "C"),
            ("static", "ST"),
            ("macro", "M"),
        ],
    );
    let out = module::render(&store, "src/foo.rs").expect("render");
    assert!(out.contains("subgraph"));
    assert!(out.contains("mod (src/foo.rs)"));
    assert!(out.contains("fn f1\"]"));
    assert!(out.contains("(struct S)"));
    assert!(out.contains("{{trait T}}"));
    assert!(out.contains("[/impl I/]"));
    assert!(out.contains("[(const C)]"));
    assert!(out.contains("[[macro M]]"));
    assert!(out.contains("(type TA)"));
}

#[test]
fn outgoing_and_incoming_calls_render_external_nodes() {
    let mut store = Catalog::new();
    build(&mut store, "src/mod_a.rs", &[("function", "caller")]);
    build(&mut store, "src/mod_b.rs", &[("function", "helper")]);
    build(&mut store, "src/mod_c.rs", &[("function", "caller_outside")]);
    store.add_relation(Relation::new(
        "code:src/mod_a.rs::function::caller",
        "code:src/mod_b.rs::function::helper",
        "calls",
    ));
    store.add_relation(Relation::new(
        "code:src/mod_c.rs::function::caller_outside",
        "code:src/mod_a.rs::function::caller",
        "calls",
    ));
    let out = module::render(&store, "src/mod_a.rs").expect("render");
    assert!(out.contains("subgraph"));
    assert!(out.contains("([\"helper\"])"));
    assert!(out.contains("([\"caller_outside\"])"));
    assert!(out.contains(" --> "));
}

#[test]
fn intra_module_calls_excluded_from_arrows() {
    let mut store = Catalog::new();
    build(
        &mut store,
        "src/foo.rs",
        &[("function", "a"), ("function", "b")],
    );
    store.add_relation(Relation::new(
        "code:src/foo.rs::function::a",
        "code:src/foo.rs::function::b",
        "calls",
    ));
    let out = module::render(&store, "src/foo.rs").expect("render");
    assert!(out.contains("fn a\"]"));
    assert!(out.contains("fn b\"]"));
    let arrows = out.matches("-->").count();
    assert_eq!(arrows, 0, "expected no arrows, got {arrows}\n{out}");
}

#[test]
fn short_kind_covers_known() {
    for k in [
        "function",
        "struct",
        "trait",
        "impl",
        "enum",
        "type_alias",
        "const",
        "static",
        "macro",
    ] {
        assert!(!short_kind(k).is_empty());
    }
    assert_eq!(short_kind("unknown"), "?");
}

#[test]
fn node_shape_per_kind() {
    assert_eq!(node_shape("function", "id", "L"), "id[\"L\"]");
    assert_eq!(node_shape("struct", "id", "L"), "id(L)");
    assert_eq!(node_shape("enum", "id", "L"), "id(L)");
    assert_eq!(node_shape("type_alias", "id", "L"), "id(L)");
    assert_eq!(node_shape("trait", "id", "L"), "id{{L}}");
    assert_eq!(node_shape("impl", "id", "L"), "id[/L/]");
    assert_eq!(node_shape("const", "id", "L"), "id[(L)]");
    assert_eq!(node_shape("static", "id", "L"), "id[(L)]");
    assert_eq!(node_shape("macro", "id", "L"), "id[[L]]");
    assert_eq!(node_shape("unknown", "id", "L"), "id[\"L\"]");
}

// All levels of detail

#[test]
fn details_print_and_parse_back() {
    for (detail, name, targeted) in [
        (Detail::Project, "project", false),
        (Detail::Overview, "overview", false),
        (Detail::Module, "module", true),
        (Detail::Function, "function", true),
        (Detail::Impact, "impact", true),
    ] {
        assert_eq!(detail.as_str(), name);
        assert_eq!(Detail::from_str(name).expect("ok"), detail);
        assert_eq!(detail.requires_target(), targeted);
    }
    let err = Detail::from_str("bogus").expect_err("unknown");
    assert!(err.to_string().contains("\"bogus\""));
    assert_eq!(Detail::from_name("x", "<x>").expect_err("unknown").to_string(),
        "invalid input: unknown render level: <x> (expected: project | overview | module | function | impact)");
}

#[test]
fn views_of_a_store() {
    let mut store = calling(&["a", "b"], &[("a", "b")]);
    let mut m = code_atom("src/m.rs", "m");
    m.id = EntityId::new("code:src/m.rs");
    m.kind = "module".to_owned();
    store.add_atom(m);
    let catalog = Catalog::of_store(&store);
    assert_eq!(
        render_view(Detail::Function, &store, Some("b")).expect("ok"),
        function::render(&catalog, "b").expect("ok")
    );
    assert_eq!(
        render_view(Detail::Module, &store, Some("m")).expect("ok"),
        module::render(&catalog, "m").expect("ok")
    );
    let drawn = render_view(Detail::Impact, &store, Some("b")).expect("ok");
    assert!(drawn.contains("\"a\""));
    assert_eq!(drawn, impact_of(&store, "b", DEFAULT_HOPS));
    let err = render_view(Detail::Impact, &store, None).expect_err("no target");
    assert_eq!(err.to_string(), "invalid input: level=impact requires --target");
}
