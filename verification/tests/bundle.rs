use ast_to_mermaid::bundle::entities::{neighbor_meta, render_entity_mmd};
use ast_to_mermaid::bundle::files::{
    planned_files, BundleFiles, FileState, Listing, NamedFile,
};
use ast_to_mermaid::bundle::{
    build_index, collect_entities, load_artifact_dir, sanitize_id, ArtifactDir, EntityArtifact,
    Stats,
};
use ast_to_mermaid::error::AstToMermaidError;
use ast_to_mermaid::graph::catalog::{Atom, Catalog, Relation};

#[test]
fn sanitize_id_keeps_alphanumeric_and_safe_punctuation() {
    assert_eq!(sanitize_id("abc_123-def.rs"), "abc_123-def.rs");
}

#[test]
fn sanitize_id_replaces_colons_and_slashes_with_underscore() {
    assert_eq!(
        sanitize_id("code:src/lib.rs::function::foo"),
        "code_src_lib.rs__function__foo"
    );
}

#[test]
fn sanitize_id_replaces_unicode_with_underscore() {
    assert_eq!(sanitize_id("café"), "caf_");
}

#[test]
fn sanitize_id_handles_empty_string() {
    assert_eq!(sanitize_id(""), "");
}

#[test]
fn sanitize_id_is_byte_identical_with_documented_rule() {
    for (input, expected) in &[
        (
            "code:src/lib.rs::function::foo",
            "code_src_lib.rs__function__foo",
        ),
        ("a/b/c", "a_b_c"),
        ("hello world", "hello_world"),
        ("UPPER_lower-123", "UPPER_lower-123"),
        ("dot.in.path", "dot.in.path"),
    ] {
        assert_eq!(sanitize_id(input), *expected, "input: {input}");
    }
}

fn stats(files_parsed: usize, atoms_indexed: usize, edges_resolved: usize) -> Stats {
    Stats { files_parsed, atoms_indexed, edges_resolved }
}

#[test]
fn build_index_stamps_schema_version_and_stats() {
    let idx = build_index(Vec::new(), "/tmp/repo", stats(5, 42, 7), "now", "0.1.0");
    assert_eq!(idx.schema_version, 1);
    assert_eq!(idx.source_root, "/tmp/repo");
    assert_eq!(idx.stats.files_parsed, 5);
    assert_eq!(idx.stats.atoms_indexed, 42);
    assert_eq!(idx.stats.edges_resolved, 7);
    assert!(idx.entities.is_empty());
    assert_eq!(idx.generated_at, "now", "must stamp timestamp");
    assert_eq!(idx.ast_to_mermaid_version, "0.1.0", "must record producer version");
}

#[test]
fn build_index_carries_entity_list() {
    let mut store = Catalog::new();
    store.add_atom(Atom::new("code:src/lib.rs::function::foo", "function", "foo", "h"));
    let (_, entries) = collect_entities(&store);
    let idx = build_index(entries, "/r", stats(1, 1, 0), "now", "0.1.0");
    assert_eq!(idx.entities[0].id, "code:src/lib.rs::function::foo");
}

// Reading a bundle back

fn meta(id: &str) -> String {
    format!("{{\"id\":\"{id}\",\"kind\":\"function\"}}")
}

fn fixture_artifacts() -> ArtifactDir {
    let entity = |id: &str, name: &str| EntityArtifact {
        id: id.to_owned(),
        mmd: format!("%% id: {id}\n%% kind: function\ngraph TD\n    {name}[\"{name}\"]\n"),
        meta: meta(id),
    };
    ArtifactDir {
        overview_mmd: "graph TD\n    src[\"src — 1 mod\"]\n".to_owned(),
        project_mmd: "graph TD\n    repo[\"repo — 1 mod\"]\n".to_owned(),
        index_json: "{\"schema_version\":1,\"entities\":[]}".to_owned(),
        entities: vec![
            entity("code:src/lib.rs::function::foo", "foo"),
            entity("code:src/main.rs::function::main", "main"),
        ],
    }
}

fn text(s: &str) -> FileState {
    FileState::Text(s.to_owned())
}

fn named(name: &str, state: FileState) -> NamedFile {
    NamedFile { name: name.to_owned(), state }
}

fn only_index(entities: Listing) -> BundleFiles {
    BundleFiles {
        overview: text("graph TD\n"),
        project: FileState::Missing,
        index: text("{\"schema_version\":1,\"entities\":[]}"),
        entities,
    }
}

#[test]
fn write_then_load_round_trip_preserves_struct() {
    let original = fixture_artifacts();
    let loaded = load_artifact_dir("dir", &planned_files(&original)).expect("load");
    assert_eq!(loaded.overview_mmd, original.overview_mmd);
    assert_eq!(loaded.project_mmd, original.project_mmd);
    assert_eq!(loaded.index_json, original.index_json);
    assert_eq!(loaded.entities.len(), original.entities.len());
    for (a, b) in loaded.entities.iter().zip(original.entities.iter()) {
        assert_eq!(a.id, b.id);
        assert_eq!(a.mmd, b.mmd);
        assert_eq!(a.meta, b.meta);
    }
}

#[test]
fn write_creates_entities_dir_with_sanitized_filenames() {
    let files = planned_files(&fixture_artifacts());
    let Listing::Files(list) = files.entities else {
        panic!("expected files")
    };
    let names: Vec<&str> = list.iter().map(|f| f.name.as_str()).collect();
    let foo_stem = sanitize_id("code:src/lib.rs::function::foo");
    assert!(names.contains(&format!("{foo_stem}.mmd").as_str()));
    assert!(names.contains(&format!("{foo_stem}.meta.json").as_str()));
}

#[test]
fn load_artifact_dir_missing_overview_errors() {
    let files = BundleFiles {
        overview: FileState::Missing,
        project: FileState::Missing,
        index: FileState::Missing,
        entities: Listing::Missing,
    };
    assert!(matches!(
        load_artifact_dir("dir", &files),
        Err(AstToMermaidError::ArtifactNotFound(_))
    ));
}

#[test]
fn load_artifact_dir_missing_index_errors() {
    let mut files = only_index(Listing::Missing);
    files.index = FileState::Missing;
    let result = load_artifact_dir("dir", &files);
    assert!(matches!(
        result,
        Err(AstToMermaidError::ArtifactNotFound(_))
    ));
    assert_eq!(
        result.expect_err("missing").to_string(),
        "artifact not found: dir/index.json"
    );
}

#[test]
fn load_artifact_dir_treats_missing_project_mmd_as_empty() {
    let loaded = load_artifact_dir("dir", &only_index(Listing::Missing)).expect("load");
    assert_eq!(loaded.project_mmd, "");
}

#[test]
fn load_artifact_dir_missing_meta_json_errors() {
    let files = only_index(Listing::Files(vec![named("orphan.mmd", text("graph TD\n"))]));
    assert!(matches!(
        load_artifact_dir("dir", &files),
        Err(AstToMermaidError::ArtifactNotFound(_))
    ));
}

#[test]
fn load_artifact_dir_meta_without_id_field_errors() {
    let files = only_index(Listing::Files(vec![
        named("x.mmd", text("graph TD\n")),
        named("x.meta.json", text("{\"kind\":\"function\"}")),
    ]));
    let result = load_artifact_dir("dir", &files);
    assert!(matches!(result, Err(AstToMermaidError::InvalidInput(_))));
}

#[test]
fn load_artifact_dir_sorts_entities_by_id() {
    let mut artifacts = fixture_artifacts();
    artifacts.entities.reverse();
    let loaded = load_artifact_dir("dir", &planned_files(&artifacts)).expect("load");
    assert_eq!(loaded.entities[0].id, "code:src/lib.rs::function::foo");
    assert_eq!(loaded.entities[1].id, "code:src/main.rs::function::main");
}

#[test]
fn load_artifact_dir_reports_bad_json_and_unreadable_files() {
    let mut files = only_index(Listing::Missing);
    files.index = text("{not json");
    let err = load_artifact_dir("dir", &files).expect_err("bad json");
    assert!(matches!(err, AstToMermaidError::InvalidInput(_)));
    assert!(err.to_string().contains("parse dir/index.json"), "{}", err.to_string());

    let mut files = only_index(Listing::Missing);
    files.overview = FileState::Unreadable("denied".to_owned());
    let err = load_artifact_dir("dir", &files).expect_err("unreadable");
    assert!(matches!(err, AstToMermaidError::Io(_)));
    assert!(err.to_string().contains("denied"));

    let files = only_index(Listing::Unreadable("denied".to_owned()));
    let err = load_artifact_dir("dir", &files).expect_err("unreadable");
    assert!(matches!(err, AstToMermaidError::Io(_)));

    // An id that is no text is as good as none.
    let files = only_index(Listing::Files(vec![
        named("x.mmd", text("graph TD\n")),
        named("x.meta.json", text("{\"id\":7}")),
    ]));
    assert!(load_artifact_dir("dir", &files).is_err());
}

#[test]
fn ids_of_loaded_entities_come_from_the_metadata() {
    let files = only_index(Listing::Files(vec![
        named("x.mmd", text("graph TD\n")),
        named("x.meta.json", text("{\"id\":\"code:\\u0061\"}")),
    ]));
    let loaded = load_artifact_dir("dir", &files).expect("load");
    assert_eq!(loaded.entities[0].id, "code:a");
}

// Entities

#[test]
fn entities_list_their_neighbours() {
    let mut store = Catalog::new();
    store.add_atom(Atom::new("code:a.rs", "module", "a", "h").in_file("a.rs"));
    store.add_atom(Atom::new("code:a.rs::function::f", "function", "f", "h").in_file("a.rs"));
    store.add_atom(Atom::new("code:a.rs::function::g", "function", "g", "h").in_file("a.rs"));
    store.add_atom(Atom::new("code:a.rs::const::C", "const", "C", "h").in_file("a.rs"));
    store.add_relation(Relation::new("code:a.rs", "code:a.rs::function::f", "contains"));
    store.add_relation(Relation::new(
        "code:a.rs::function::f",
        "code:a.rs::function::g",
        "calls",
    ));
    let (records, entries) = collect_entities(&store);
    let ids: Vec<&str> = records.iter().map(|r| r.id.as_str()).collect();
    assert_eq!(
        ids,
        vec!["code:a.rs", "code:a.rs::function::f", "code:a.rs::function::g"]
    );
    assert_eq!(records[0].meta.children[0].id, "code:a.rs::function::f");
    assert_eq!(records[1].meta.callees[0].id, "code:a.rs::function::g");
    assert_eq!(records[2].meta.callers[0].id, "code:a.rs::function::f");
    assert_eq!(entries[1].mmd_path, "entities/code_a.rs__function__f.mmd");
    assert_eq!(
        entries[1].edges_out,
        vec![("code:a.rs::function::g".to_owned(), "calls".to_owned())]
    );
    assert_eq!(
        entries[1].edges_in,
        vec![("code:a.rs".to_owned(), "contains".to_owned())]
    );
    for r in &records {
        assert!(r.mmd.starts_with(&format!("%% id: {}", r.id)));
        assert!(r.mmd.contains(&format!("%% kind: {}", r.meta.kind)));
    }
}

#[test]
fn neighbours_are_named_by_id() {
    assert_eq!(neighbor_meta("code:x").id, "code:x");
    let drawn = render_entity_mmd("i", "function", "n", "f.rs", 1, 2, &Vec::new(), &Vec::new());
    assert!(drawn.starts_with("%% id: i\n%% kind: function\n"));
}
