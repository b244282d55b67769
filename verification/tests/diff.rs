use ast_to_mermaid::diff::{compute_diff, render_mermaid, IndexEntity};

fn ent(id: &str, hash: &str) -> IndexEntity {
    IndexEntity {
        id: id.to_owned(),
        kind: "function".to_owned(),
        name: id.split("::").last().unwrap_or("").to_owned(),
        file: "src/x.rs".to_owned(),
        content_hash: hash.to_owned(),
        edges_out: Vec::new(),
    }
}

fn ent_with_calls(id: &str, hash: &str, calls: &[&str]) -> IndexEntity {
    IndexEntity {
        id: id.to_owned(),
        kind: "function".to_owned(),
        name: id.split("::").last().unwrap_or("").to_owned(),
        file: "src/x.rs".to_owned(),
        content_hash: hash.to_owned(),
        edges_out: calls.iter().map(|s| (*s).to_owned()).collect(),
    }
}

#[test]
fn pure_addition_is_classified() {
    let from = vec![ent("code:a", "h1")];
    let to = vec![ent("code:a", "h1"), ent("code:b", "h2")];
    let d = compute_diff("a", "b", "sha-a", "sha-b", from, to);
    assert_eq!(d.added.len(), 1);
    assert_eq!(d.added[0].id, "code:b");
    assert!(d.removed.is_empty());
    assert!(d.modified.is_empty());
    assert!(d.renamed.is_empty());
}

#[test]
fn pure_removal_is_classified() {
    let from = vec![ent("code:a", "h1"), ent("code:b", "h2")];
    let to = vec![ent("code:a", "h1")];
    let d = compute_diff("a", "b", "sa", "sb", from, to);
    assert_eq!(d.removed.len(), 1);
    assert_eq!(d.removed[0].id, "code:b");
}

#[test]
fn modified_when_hash_differs_at_same_id() {
    let from = vec![ent("code:a", "h1")];
    let to = vec![ent("code:a", "h2")];
    let d = compute_diff("a", "b", "sa", "sb", from, to);
    assert_eq!(d.modified.len(), 1);
    assert_eq!(d.modified[0].id, "code:a");
    assert_eq!(d.modified[0].from_hash, "h1");
    assert_eq!(d.modified[0].to_hash, "h2");
}

#[test]
fn rename_paired_by_matching_content_hash() {
    let from = vec![ent("code:foo.rs::function::x", "shared")];
    let to = vec![ent("code:bar.rs::function::x", "shared")];
    let d = compute_diff("a", "b", "sa", "sb", from, to);
    assert_eq!(d.renamed.len(), 1);
    assert!(d.added.is_empty());
    assert!(d.removed.is_empty());
    assert_eq!(d.renamed[0].from_id, "code:foo.rs::function::x");
    assert_eq!(d.renamed[0].to_id, "code:bar.rs::function::x");
}

#[test]
fn empty_content_hashes_never_rename() {
    // Pre-V1 bundles may have empty content_hash; guard against false
    // rename pairing.
    let from = vec![ent("code:foo", "")];
    let to = vec![ent("code:bar", "")];
    let d = compute_diff("a", "b", "sa", "sb", from, to);
    assert_eq!(d.added.len(), 1);
    assert_eq!(d.removed.len(), 1);
    assert!(d.renamed.is_empty());
}

#[test]
fn render_mermaid_emits_classdef_lines() {
    let from = vec![ent("code:a", "h1")];
    let to = vec![ent("code:a", "h1"), ent("code:b", "h2")];
    let d = compute_diff("main", "feat", "sa", "sb", from.clone(), to.clone());
    let m = render_mermaid(&d, &to);
    assert!(m.starts_with("graph TD"));
    assert!(m.contains("classDef added"));
    assert!(m.contains("code:b"));
    assert!(m.contains(":::added"));
}

#[test]
fn render_mermaid_draws_edges_between_changed_entities() {
    // A new fn `new_caller` calls a modified `existing_helper`. Both are
    // in the diff → expect an arrow from new_caller to existing_helper.
    let from = vec![
        ent_with_calls("code:helper", "h_old", &[]),
        ent_with_calls("code:other", "h2", &["code:helper"]),
    ];
    let to = vec![
        ent_with_calls("code:helper", "h_new", &[]), // modified (hash change)
        ent_with_calls("code:other", "h2", &["code:helper"]),
        ent_with_calls("code:new_caller", "h3", &["code:helper"]), // added, calls helper
    ];
    let d = compute_diff("a", "b", "sa", "sb", from, to.clone());
    let m = render_mermaid(&d, &to);
    // Two changed nodes: new_caller (added) + helper (modified). other is unchanged.
    assert!(m.contains(":::added"));
    assert!(m.contains(":::modified"));
    // The blast-radius edge: new_caller → helper, both colored, so we
    // expect at least one arrow line in the output.
    assert!(
        m.contains("blast-radius edges"),
        "expected blast-radius header, got:\n{m}"
    );
    let arrow_count = m.matches(" --> ").count();
    assert_eq!(arrow_count, 1, "expected 1 blast-radius edge, got: {arrow_count}\n{m}");
}

#[test]
fn render_mermaid_omits_edges_when_endpoint_unchanged() {
    // `existing_caller` (unchanged) calls `helper` (modified). The caller
    // is not in the diff → its edge should NOT be drawn.
    let from = vec![
        ent_with_calls("code:caller", "h1", &["code:helper"]),
        ent_with_calls("code:helper", "h_old", &[]),
    ];
    let to = vec![
        ent_with_calls("code:caller", "h1", &["code:helper"]),
        ent_with_calls("code:helper", "h_new", &[]),
    ];
    let d = compute_diff("a", "b", "sa", "sb", from, to.clone());
    let m = render_mermaid(&d, &to);
    // helper is modified; caller is unchanged. Only helper renders.
    assert!(!m.contains(" --> "), "no edge expected, got:\n{m}");
}

#[test]
fn a_bundle_does_not_differ_from_itself() {
    let side = vec![ent("code:a", "h1"), ent("code:b", ""), ent("code:c", "h1")];
    let d = compute_diff("a", "a", "sa", "sa", side.clone(), side.clone());
    assert!(d.added.is_empty() && d.removed.is_empty());
    assert!(d.modified.is_empty() && d.renamed.is_empty());
    assert_eq!((d.from.as_str(), d.to.as_str()), ("a", "a"));
    assert_eq!((d.from_sha.as_str(), d.to_sha.as_str()), ("sa", "sa"));
}

#[test]
fn lists_of_a_difference_are_sorted_by_id() {
    let to = vec![ent("code:c", "1"), ent("code:a", "2"), ent("code:b", "3")];
    let d = compute_diff("a", "b", "sa", "sb", Vec::new(), to);
    let ids: Vec<&str> = d.added.iter().map(|e| e.id.as_str()).collect();
    assert_eq!(ids, vec!["code:a", "code:b", "code:c"]);
}

#[test]
fn exchanging_the_sides_exchanges_the_difference() {
    let x = || vec![ent("a", "h"), ent("b", "h"), ent("m", "1"), ent("r", "r")];
    let y = || vec![ent("c", "h"), ent("m", "2"), ent("n", "n"), ent("o", "o")];
    let d = compute_diff("x", "y", "sx", "sy", x(), y());
    let e = compute_diff("y", "x", "sy", "sx", y(), x());
    assert_eq!(d.modified.len(), 1);
    assert_eq!(e.modified[0].id, d.modified[0].id);
    assert_eq!(e.modified[0].from_hash, d.modified[0].to_hash);
    assert_eq!(e.modified[0].to_hash, d.modified[0].from_hash);
    // Two are gone and one is new with the content `h`.
    assert_eq!(d.renamed.len(), 1);
    assert_eq!(e.renamed.len(), 1);
    assert_eq!((d.added.len(), d.removed.len()), (2, 2));
    assert_eq!((e.added.len(), e.removed.len()), (d.removed.len(), d.added.len()));
}
