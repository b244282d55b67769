use ast_to_mermaid::artifacts::entity::{class_colors, mermaid_id_short, one_line};
use ast_to_mermaid::artifacts::names::{build_sequence_path, marked_stem, qualified_fn_name};
use ast_to_mermaid::artifacts::sequences::{sequence_targets, Diagram, Extracted};
use ast_to_mermaid::artifacts::write::{
    entity_stems, index_needs_write, members_agree, needs_write, planned_writes, prune_orphans,
    sequence_stems, structurally_equal_modulo_generated_at,
};
use ast_to_mermaid::artifacts::{
    emit_artifacts, emit_artifacts_with_sequences, filename_id, ArtifactSet,
};
use ast_to_mermaid::graph::Store;
use ast_to_mermaid::model::{CodeAtom, Edge, EdgeKind, EntityId};

const NOW: &str = "1970-01-01T00:00:00Z";

fn fn_atom(id: &str, file: &str, name: &str) -> CodeAtom {
    CodeAtom {
        id: EntityId::new(id),
        kind: "function".to_owned(),
        name: name.to_owned(),
        file_path: file.to_owned(),
        line_start: 1,
        line_end: 10,
        doc: "Does something useful.".to_owned(),
        signature: format!("pub fn {name}()"),
        content_hash: "hash123".to_owned(),
        calls: Vec::new(),
        method_calls: Vec::new(),
        parent: None,
    }
}

fn module_atom(file: &str) -> CodeAtom {
    CodeAtom {
        id: EntityId::new(&format!("code:{file}")),
        kind: "module".to_owned(),
        name: "lib".to_owned(),
        file_path: file.to_owned(),
        line_start: 1,
        line_end: 50,
        doc: String::new(),
        signature: String::new(),
        content_hash: "mhash".to_owned(),
        calls: Vec::new(),
        method_calls: Vec::new(),
        parent: None,
    }
}

fn set_of(names: &[(&str, &str)]) -> ArtifactSet {
    let mut store = Store::new();
    for (name, hash) in names {
        let mut a = fn_atom(
            &format!("code:src/lib.rs::function::{name}"),
            "src/lib.rs",
            name,
        );
        a.content_hash = (*hash).to_owned();
        store.add_atom(a);
    }
    emit_artifacts(&store, "/src", NOW)
}

fn writes(set: &ArtifactSet) -> Vec<(String, String)> {
    let metas = set.entities.iter().map(|e| e.meta.content_hash.clone()).collect();
    planned_writes(set, &metas)
}

fn strings(items: &[&str]) -> Vec<String> {
    items.iter().map(|s| (*s).to_owned()).collect()
}

#[test]
fn emit_artifacts_produces_expected_structure() {
    let mut store = Store::new();
    let m = module_atom("src/lib.rs");
    let f = fn_atom("code:src/lib.rs::function::foo", "src/lib.rs", "foo");
    let g = fn_atom("code:src/lib.rs::function::bar", "src/lib.rs", "bar");
    let mid = m.id.clone();
    let fid = f.id.clone();
    let gid = g.id.clone();
    store.add_atom(m);
    store.add_atom(f);
    store.add_atom(g);
    store.add_edge(Edge::new(mid.clone(), fid.clone(), EdgeKind::Contains));
    store.add_edge(Edge::new(mid.clone(), gid.clone(), EdgeKind::Contains));
    store.add_edge(Edge::new(fid.clone(), gid.clone(), EdgeKind::Calls));

    let artifacts = emit_artifacts(&store, "/src", NOW);

    assert!(!artifacts.overview_mmd.is_empty());
    assert_eq!(artifacts.entities.len(), 3);
    assert_eq!(artifacts.index.entities.len(), 3);
    assert_eq!(artifacts.index.source_root, "/src");
    assert_eq!(artifacts.index.schema, 2);
    assert_eq!(artifacts.index.generated_at, NOW);

    let foo_artifact = artifacts
        .entities
        .iter()
        .find(|e| e.id.as_str() == "code:src/lib.rs::function::foo")
        .expect("foo");
    let callees = &foo_artifact.meta.callees;
    assert_eq!(callees.len(), 1);
    assert_eq!(callees[0], "code:src/lib.rs::function::bar");

    assert!(foo_artifact.mmd.contains("%% id:"));
    assert!(foo_artifact.mmd.contains("%% kind: function"));
    assert!(foo_artifact.mmd.contains("classDef function"));
}

#[test]
fn entity_diagram_is_exact() {
    let mut store = Store::new();
    store.add_atom(fn_atom("code:a.rs::function::f", "a.rs", "f"));
    store.add_atom(fn_atom("code:a.rs::function::g", "a.rs", "g"));
    store.add_edge(Edge::new(
        EntityId::new("code:a.rs::function::f"),
        EntityId::new("code:a.rs::function::g"),
        EdgeKind::Calls,
    ));
    let set = emit_artifacts(&store, "/src", NOW);
    let head = |name: &str| {
        format!(
            "%% id: code:a.rs::function::{name}\n%% kind: function\n%% file: a.rs:1-10\n%% content_hash: hash123\n%% signature: pub fn {name}()\ngraph LR\n  classDef function fill:#e1f5fe,stroke:#01579b\n  classDef function fill:#e1f5fe,stroke:#01579b\n  classDef module fill:#f3e5f5,stroke:#4a148c\n  {name}:::function[{name}]\n"
        )
    };
    assert_eq!(
        set.entities[0].mmd,
        format!("{}  f -- calls --> g:::function[g]\n", head("f"))
    );
    assert_eq!(
        set.entities[1].mmd,
        format!("{}  f:::function[f] -- calls --> g\n", head("g"))
    );
}

#[test]
fn index_rows_name_the_files() {
    let set = set_of(&[("foo", "h1")]);
    let row = &set.index.entities[0];
    assert_eq!(row.mmd_path, "entities/code_src_lib.rs__function__foo.mmd");
    assert_eq!(row.meta_path, "entities/code_src_lib.rs__function__foo.meta.json");
    assert_eq!(row.sequence_path, None);
    assert_eq!(row.content_hash, "h1");
    let paths: Vec<String> = writes(&set).into_iter().map(|w| w.0).collect();
    assert_eq!(paths, strings(&[&row.mmd_path, &row.meta_path, "overview.mmd"]));
}

#[test]
fn filename_id_replaces_special_chars() {
    assert_eq!(
        filename_id("code:src/lib.rs::function::foo"),
        "code_src_lib.rs__function__foo"
    );
    assert_eq!(filename_id("abc_123-def.rs"), "abc_123-def.rs");
    assert_eq!(filename_id("a::b"), "a__b");
}

#[test]
fn filename_id_case_collision_distinct_outputs() {
    let a = filename_id("Foo");
    let b = filename_id("foo");
    let c = filename_id("FOO");
    assert_ne!(a, b);
    assert_ne!(a, c);
    assert_ne!(b, c);
    assert_ne!(a.to_ascii_lowercase(), b.to_ascii_lowercase());
    assert_ne!(a.to_ascii_lowercase(), c.to_ascii_lowercase());
    assert_ne!(b.to_ascii_lowercase(), c.to_ascii_lowercase());
    assert_eq!(b, "foo");
    assert!(a.starts_with("foo_H"), "got: {a}");
    assert!(c.starts_with("foo_H"), "got: {c}");
}

#[test]
fn filename_id_is_deterministic() {
    assert_eq!(filename_id("MyStruct"), filename_id("MyStruct"));
}

#[test]
fn marked_stems_take_the_hash() {
    assert_eq!(marked_stem("Foo", "abc"), "foo_Habc");
    assert_eq!(marked_stem("foo", "abc"), "foo");
}

#[test]
fn write_artifacts_creates_files() {
    let set = set_of(&[("foo", "hash123")]);
    let paths: Vec<String> = writes(&set).into_iter().map(|w| w.0).collect();
    assert!(paths.contains(&"overview.mmd".to_owned()));
    assert!(paths.iter().any(|p| p.starts_with("entities/")));
}

#[test]
fn write_artifacts_skips_unchanged_files() {
    let first = writes(&set_of(&[("foo", "h1")]));
    let second = writes(&set_of(&[("foo", "h1")]));
    for (a, b) in first.iter().zip(second.iter()) {
        assert_eq!(a.0, b.0);
        assert!(!needs_write(Some(a.1.as_bytes()), b.1.as_bytes()));
    }
    let at = |time: &str| format!("{{\"entities\": [], \"generated_at\": {time}}}").into_bytes();
    assert!(structurally_equal_modulo_generated_at(&at("\"1\""), &at("\"2\"")));
}

#[test]
fn write_artifacts_rewrites_only_modified_entity() {
    let first = writes(&set_of(&[("foo", "h1"), ("bar", "b1")]));
    let second = writes(&set_of(&[("foo", "h1"), ("bar", "b2")]));
    for (a, b) in first.iter().zip(second.iter()) {
        assert_eq!(a.0, b.0);
        assert_eq!(
            needs_write(Some(a.1.as_bytes()), b.1.as_bytes()),
            a.0.contains("bar")
        );
    }
    assert!(needs_write(None, b""));
}

#[test]
fn write_artifacts_prunes_removed_entities() {
    let first = set_of(&[("foo", "h"), ("bar", "h")]);
    let second = set_of(&[("foo", "h")]);
    let names: Vec<String> = writes(&first)
        .into_iter()
        .filter_map(|w| w.0.strip_prefix("entities/").map(str::to_owned))
        .collect();
    let gone = prune_orphans(&names, &entity_stems(&second), &strings(&[".meta.json", ".mmd"]));
    assert_eq!(
        gone,
        strings(&[
            "code_src_lib.rs__function__bar.mmd",
            "code_src_lib.rs__function__bar.meta.json",
        ])
    );
    let kept = prune_orphans(&names, &entity_stems(&first), &strings(&[".meta.json", ".mmd"]));
    assert!(kept.is_empty());
    let other = prune_orphans(&strings(&["notes.txt"]), &Vec::new(), &strings(&[".mmd"]));
    assert!(other.is_empty());
}

#[test]
fn documents_differ_where_their_data_does() {
    let same = |a: &str, b: &str| {
        structurally_equal_modulo_generated_at(a.as_bytes(), b.as_bytes())
    };
    assert!(!same("{\"entities\": []}", "{\"entities\": [1]}"));
    assert!(!same("{\"entities\": []}", "{}"));
    assert!(!same("{}", "{\"entities\": null}"));
    assert!(same("{}", "{\"generated_at\": \"1\"}"));
    assert!(!same("{\"a\": {\"generated_at\": 1}}", "{\"a\": {\"generated_at\": 2}}"));
    assert!(same("1", " 1"));
    assert!(!same("1", "2"));
    assert!(!same("1", "{\"entities\": []}"));
    assert!(!same("{", "{"));
}

#[test]
fn numbers_are_told_apart_by_their_value() {
    let same = |a: &str, b: &str| {
        structurally_equal_modulo_generated_at(a.as_bytes(), b.as_bytes())
    };
    assert!(same("{\"n\": 0.0}", "{\"n\": -0.0}"));
    assert!(same("0.0", "-0.0"));
    assert!(same("{\"n\": 1e1}", "{\"n\": 10.0}"));
    assert!(!same("{\"n\": 1}", "{\"n\": 1.0}"));
    assert!(!index_needs_write(Some(&b"{\"n\": [0.0]}"[..]), &b"{\"n\": [-0.0]}"[..]));
}

#[test]
fn members_agree_apart_from_the_time() {
    let member = |key: &str, same: bool| (key.to_owned(), same);
    assert!(members_agree(&Vec::new()));
    assert!(members_agree(&vec![member("a", true), member("generated_at", false)]));
    assert!(!members_agree(&vec![member("a", true), member("b", false)]));
    assert!(!members_agree(&vec![member("generated_at ", false)]));
}

#[test]
fn an_index_is_written_where_its_data_changed() {
    let old = b"{\"schema\": 2, \"generated_at\": \"1\", \"entities\": [{\"b\": 1, \"a\": 2}]}";
    let later = b"{\"entities\":[{\"a\":2,\"b\":1}],\"generated_at\":\"2\",\"schema\":2}";
    let other = b"{\"entities\":[{\"a\":3,\"b\":1}],\"generated_at\":\"1\",\"schema\":2}";
    assert!(!index_needs_write(Some(&old[..]), &later[..]));
    assert!(index_needs_write(Some(&old[..]), &other[..]));
    assert!(index_needs_write(Some(&b"{ not json"[..]), &later[..]));
    assert!(index_needs_write(Some(&b"[]"[..]), &later[..]));
    assert!(!index_needs_write(Some(&b" [1, 2]"[..]), &b"[1,2]"[..]));
    assert!(index_needs_write(None, &later[..]));
    assert!(!index_needs_write(Some(&later[..]), &later[..]));
}

#[test]
fn build_sequence_path_funnels_through_filename_id() {
    let f = build_sequence_path("src/cache.rs", "Cache::open");
    let expected = format!("{}.mmd", filename_id("src/cache.rs::Cache::open"));
    assert_eq!(f, expected);
    assert!(f.contains("cache"), "got: {f}");
    assert!(f.contains("__cache__open_H"), "got: {f}");
    assert!(std::path::Path::new(&f)
        .extension()
        .is_some_and(|e| e.eq_ignore_ascii_case("mmd")));
}

#[test]
fn build_sequence_path_disambiguates_case_collisions() {
    let foo_upper = build_sequence_path("lib.rs", "Foo");
    let foo_lower = build_sequence_path("lib.rs", "foo");
    let foo_screaming = build_sequence_path("lib.rs", "FOO");
    let mut names = [&foo_upper, &foo_lower, &foo_screaming];
    names.sort();
    assert_ne!(names[0], names[1], "got: {names:?}");
    assert_ne!(names[1], names[2], "got: {names:?}");
    let mut lowered: Vec<String> = names.iter().map(|n| n.to_ascii_lowercase()).collect();
    lowered.sort();
    lowered.dedup();
    assert_eq!(lowered.len(), 3, "case-fold collision: {lowered:?}");
}

#[test]
fn sequences_of_functions_with_steps() {
    let mut store = Store::new();
    store.add_atom(module_atom("src/lib.rs"));
    store.add_atom(fn_atom("code:src/lib.rs::function::foo", "src/lib.rs", "foo"));
    store.add_atom(fn_atom("code:src/lib.rs::function::bar", "src/lib.rs", "bar"));
    let drawn = |name: &str, steps: usize| Diagram {
        name: name.to_owned(),
        steps,
        mmd: format!("sequenceDiagram {name}\n"),
    };
    let extracted = vec![Extracted {
        file: "src/lib.rs".to_owned(),
        diagrams: vec![drawn("foo", 2), drawn("bar", 0)],
    }];
    let set = emit_artifacts_with_sequences(&store, "/src", NOW, &extracted);
    assert_eq!(set.sequences.len(), 1);
    assert_eq!(set.sequences[0].entity_id.as_str(), "code:src/lib.rs::function::foo");
    assert_eq!(set.sequences[0].mmd, "sequenceDiagram foo\n");
    assert_eq!(
        sequence_targets(&set.entities, "src/lib.rs"),
        strings(&["bar", "foo"])
    );
    assert!(sequence_targets(&set.entities, "src/other.rs").is_empty());
    assert_eq!(
        sequence_stems(&set),
        strings(&["code_src_lib.rs__function__foo"])
    );
    let row = set
        .index
        .entities
        .iter()
        .find(|r| r.name == "foo")
        .expect("foo");
    assert_eq!(
        row.sequence_path.as_deref(),
        Some("sequences/code_src_lib.rs__function__foo.mmd")
    );
    let paths: Vec<String> = writes(&set).into_iter().map(|w| w.0).collect();
    assert!(paths.contains(row.sequence_path.as_ref().expect("path")));
}

#[test]
fn names_and_comments_of_entities() {
    assert_eq!(one_line(" a\nb\rc "), "a b c");
    assert_eq!(mermaid_id_short("code:a.rs::function::do-it"), "do_it");
    assert_eq!(class_colors("function"), ("#e1f5fe", "#01579b"));
    assert_eq!(class_colors("nothing"), ("#f5f5f5", "#424242"));
    assert_eq!(
        qualified_fn_name("code:a.rs::function::f"),
        Some("f".to_owned())
    );
    assert_eq!(qualified_fn_name("code:a.rs"), None);
}

#[test]
fn written_entity_files_are_never_left_over() {
    let set = set_of(&[("foo", "h1"), ("Foo", "h2")]);
    let names: Vec<String> = writes(&set)
        .iter()
        .filter_map(|(path, _)| path.strip_prefix("entities/"))
        .map(str::to_owned)
        .collect();
    assert_eq!(names.len(), 4);
    let gone = prune_orphans(&names, &entity_stems(&set), &strings(&[".meta.json", ".mmd"]));
    assert!(gone.is_empty(), "gone={gone:?}");
    let stems = entity_stems(&set);
    assert_ne!(stems[0].to_lowercase(), stems[1].to_lowercase());
}
