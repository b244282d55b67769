use ast_to_mermaid::graph::memory::contains_id;
use ast_to_mermaid::graph::{reconstruct_path, Predecessors, Store};
use ast_to_mermaid::model::{CodeAtom, Edge, EdgeKind, EntityId};

fn atom(id: &str, kind: &str, name: &str, file: &str) -> CodeAtom {
    CodeAtom {
        id: EntityId::new(id),
        kind: kind.to_owned(),
        name: name.to_owned(),
        file_path: file.to_owned(),
        line_start: 1,
        line_end: 10,
        doc: String::new(),
        signature: String::new(),
        content_hash: "deadbeef".to_owned(),
        calls: Vec::new(),
        method_calls: Vec::new(),
        parent: None,
    }
}

fn edge(from: &str, to: &str, kind: EdgeKind) -> Edge {
    Edge::new(EntityId::new(from), EntityId::new(to), kind)
}

#[test]
fn new_store_is_empty() {
    let mut store = Store::new();
    assert_eq!(store.atom_count(), 0);
    assert_eq!(store.edge_count(), 0);
}

#[test]
fn add_then_get_atom_roundtrips() {
    let mut store = Store::new();
    let a = atom(
        "code:src/lib.rs::function::foo",
        "function",
        "foo",
        "src/lib.rs",
    );
    store.add_atom(a);
    let got = store
        .get_atom(&EntityId::new("code:src/lib.rs::function::foo"))
        .expect("present");
    assert_eq!(got.name, "foo");
}

#[test]
fn add_atom_upserts() {
    let mut store = Store::new();
    store.add_atom(atom("code:x", "function", "first", "src/a.rs"));
    store.add_atom(atom("code:x", "function", "second", "src/a.rs"));
    assert_eq!(store.atom_count(), 1);
    assert_eq!(
        store
            .get_atom(&EntityId::new("code:x"))
            .expect("present")
            .name,
        "second"
    );
}

#[test]
fn atoms_by_kind_filters_correctly() {
    let mut store = Store::new();
    store.add_atom(atom("code:a", "function", "a", "src/a.rs"));
    store.add_atom(atom("code:b", "module", "b", "src/b.rs"));
    store.add_atom(atom("code:c", "function", "c", "src/c.rs"));
    let fns = store.atoms_by_kind("function");
    assert_eq!(fns.len(), 2);
    let mods = store.atoms_by_kind("module");
    assert_eq!(mods.len(), 1);
}

#[test]
fn atoms_in_file_filters_by_path() {
    let mut store = Store::new();
    store.add_atom(atom("code:1", "function", "f", "src/a.rs"));
    store.add_atom(atom("code:2", "function", "g", "src/b.rs"));
    let in_a = store.atoms_in_file("src/a.rs");
    assert_eq!(in_a.len(), 1);
    assert_eq!(in_a[0].name, "f");
}

#[test]
fn edges_from_and_to_work() {
    let mut store = Store::new();
    store.add_edge(edge("a", "b", EdgeKind::Calls));
    store.add_edge(edge("a", "c", EdgeKind::Contains));
    let from_a = store.edges_from(&EntityId::new("a"));
    assert_eq!(from_a.len(), 2);
    let to_b = store.edges_to(&EntityId::new("b"));
    assert_eq!(to_b.len(), 1);
}

#[test]
fn call_edges_from_and_to_filter_by_kind() {
    let mut store = Store::new();
    store.add_edge(edge("a", "b", EdgeKind::Calls));
    store.add_edge(edge("a", "c", EdgeKind::Contains));
    store.add_edge(edge("d", "b", EdgeKind::Calls));
    let calls_from_a = store.call_edges_from(&EntityId::new("a"));
    assert_eq!(calls_from_a.len(), 1);
    assert_eq!(calls_from_a[0].as_str(), "b");
    let calls_to_b = store.call_edges_to(&EntityId::new("b"));
    assert_eq!(calls_to_b.len(), 2);
}

#[test]
fn children_of_returns_contains_targets() {
    let mut store = Store::new();
    store.add_edge(edge("mod", "fn1", EdgeKind::Contains));
    store.add_edge(edge("mod", "fn2", EdgeKind::Contains));
    store.add_edge(edge("mod", "ext", EdgeKind::Calls));
    let children = store.children_of(&EntityId::new("mod"));
    assert_eq!(children.len(), 2);
}

#[test]
fn reverse_call_paths_zero_hops_returns_self() {
    let mut store = Store::new();
    let (predecessors, reachable) = store.reverse_call_paths(&EntityId::new("c"), 0);
    assert!(predecessors.is_empty());
    assert_eq!(reachable, vec![EntityId::new("c")]);
}

#[test]
fn reverse_call_paths_walks_back() {
    let mut store = Store::new();
    // a → b → c
    store.add_edge(edge("a", "b", EdgeKind::Calls));
    store.add_edge(edge("b", "c", EdgeKind::Calls));
    let target = EntityId::new("c");
    let (predecessors, reachable) = store.reverse_call_paths(&target, 2);

    // Reachable contains target plus both transitive callers.
    let set: std::collections::HashSet<_> = reachable.iter().collect();
    assert!(set.contains(&EntityId::new("a")));
    assert!(set.contains(&EntityId::new("b")));
    assert!(set.contains(&target));

    // Reconstructed path `a → … → c` reads `[a, b, c]`.
    let path = reconstruct_path(&predecessors, &EntityId::new("a"));
    assert_eq!(
        path,
        vec![EntityId::new("a"), EntityId::new("b"), EntityId::new("c")]
    );
}

#[test]
fn reverse_call_paths_cycle_terminates() {
    let mut store = Store::new();
    store.add_edge(edge("a", "b", EdgeKind::Calls));
    store.add_edge(edge("b", "a", EdgeKind::Calls));
    // Must terminate, not loop forever.
    let (predecessors, reachable) = store.reverse_call_paths(&EntityId::new("a"), 3);
    // Each node visited at most once.
    let unique: std::collections::HashSet<_> = reachable.iter().collect();
    assert_eq!(unique.len(), reachable.len());
    // Predecessor map never contains a self-loop entry.
    for k in &reachable {
        if let Some(vs) = predecessors.get(k) {
            assert!(!vs.contains(k), "self-loop in predecessors[{k:?}]");
        }
    }
}

#[test]
fn reverse_call_paths_diamond_records_all_call_edges() {
    // a → b, a → c, b → d, c → d. With target = d, hops = 2 the
    // predecessor map must capture all four caller→callee edges so
    // that the impact view does not lose the parallel branch.
    let mut store = Store::new();
    for (f, t) in [("a", "b"), ("a", "c"), ("b", "d"), ("c", "d")] {
        store.add_edge(edge(f, t, EdgeKind::Calls));
    }
    let (predecessors, reachable) = store.reverse_call_paths(&EntityId::new("d"), 2);

    let mut edges: Vec<(String, String)> = Vec::new();
    for k in &reachable {
        if let Some(vs) = predecessors.get(k) {
            for v in vs {
                edges.push((k.as_str().to_owned(), v.as_str().to_owned()));
            }
        }
    }
    edges.sort();
    assert_eq!(
        edges,
        vec![
            ("a".to_owned(), "b".to_owned()),
            ("a".to_owned(), "c".to_owned()),
            ("b".to_owned(), "d".to_owned()),
            ("c".to_owned(), "d".to_owned()),
        ]
    );
}

#[test]
fn reconstruct_path_returns_singleton_for_target() {
    let mut store = Store::new();
    let target = EntityId::new("only");
    let (preds, _reachable) = store.reverse_call_paths(&target, 3);
    assert_eq!(reconstruct_path(&preds, &target), vec![target]);
}

#[test]
fn has_call_edge_checks_existence() {
    let mut store = Store::new();
    let a = EntityId::new("a");
    let b = EntityId::new("b");
    assert!(!store.has_call_edge(&a, &b));
    store.add_edge(edge("a", "b", EdgeKind::Calls));
    assert!(store.has_call_edge(&a, &b));
    assert!(!store.has_call_edge(&b, &a));
}

#[test]
fn rebuild_indices_recomputes_from_edges() {
    let mut store = Store::new();
    store.add_edge(edge("a", "b", EdgeKind::Calls));
    store.add_edge(edge("a", "c", EdgeKind::Contains));
    store.add_edge(edge("d", "b", EdgeKind::Calls));
    // Forcing a rebuild must not change observable behaviour.
    store.rebuild_indices();
    let from_a = store.edges_from(&EntityId::new("a"));
    assert_eq!(from_a.len(), 2);
    let to_b = store.edges_to(&EntityId::new("b"));
    assert_eq!(to_b.len(), 2);
    assert!(store.has_call_edge(&EntityId::new("a"), &EntityId::new("b")));
    assert!(!store.has_call_edge(&EntityId::new("a"), &EntityId::new("c")));
}

#[test]
fn listings_are_in_ascending_order_of_ids() {
    let mut store = Store::new();
    for id in ["code:c", "code:a", "code:b"] {
        store.add_atom(atom(id, "function", id, "src/a.rs"));
    }
    let ids: Vec<String> = store.all_atoms().iter().map(|a| a.id.to_string()).collect();
    assert_eq!(ids, vec!["code:a", "code:b", "code:c"]);
    let kinds = store.atoms_by_kinds(&["function", "module"]);
    assert_eq!(kinds.len(), 3);
    assert_eq!(store.all_edges().len(), 0);
}

#[test]
fn edges_are_seen_from_both_ends() {
    let mut store = Store::new();
    store.add_edge(edge("a", "b", EdgeKind::Uses));
    assert_eq!(store.edges_from(&EntityId::new("a"))[0].to.as_str(), "b");
    assert_eq!(store.edges_to(&EntityId::new("b"))[0].from.as_str(), "a");
    assert_eq!(store.edge_count(), 1);
}

#[test]
fn predecessors_keep_lists_in_order() {
    let mut p = Predecessors::new();
    assert!(p.is_empty());
    p.add(&EntityId::new("a"), &EntityId::new("x"));
    p.add(&EntityId::new("a"), &EntityId::new("y"));
    assert_eq!(p.len(), 1);
    assert!(p.contains_key(&EntityId::new("a")));
    let list = p.get(&EntityId::new("a")).expect("present");
    assert_eq!(list[0].as_str(), "x");
    assert_eq!(list[1].as_str(), "y");
    assert!(contains_id(list, &EntityId::new("y")));
    assert!(!contains_id(list, &EntityId::new("z")));
}

#[test]
fn predecessors_lead_closer_to_the_target() {
    // a and b both call t, and each other.
    let mut store = Store::new();
    for (f, t) in [("a", "t"), ("b", "t"), ("a", "b"), ("b", "a"), ("c", "b"), ("c", "a")] {
        store.add_edge(edge(f, t, EdgeKind::Calls));
    }
    let target = EntityId::new("t");
    let (preds, reached) = store.reverse_call_paths(&target, 2);
    let list = |id: &str| preds.get(&EntityId::new(id)).cloned().unwrap_or_default();
    assert_eq!(list("a"), vec![EntityId::new("t")]);
    assert_eq!(list("b"), vec![EntityId::new("t")]);
    assert_eq!(list("c"), vec![EntityId::new("a"), EntityId::new("b")]);
    assert!(list("t").is_empty());
    assert_eq!(reached.len(), 4);
    let path = reconstruct_path(&preds, &EntityId::new("c"));
    assert_eq!(path, vec![EntityId::new("c"), EntityId::new("a"), target.clone()]);

    // Fewer hops reach a part of it, in the same order.
    let (_, near) = store.reverse_call_paths(&target, 1);
    assert_eq!(near, reached[..3].to_vec());

    // The walk itself also records calls between nodes that are equally far.
    let (all, same) = store.reverse_call_walk(&target, 2);
    assert_eq!(same, reached);
    assert_eq!(
        all.get(&EntityId::new("a")).cloned().unwrap_or_default(),
        vec![EntityId::new("t"), EntityId::new("b")]
    );
}

#[test]
fn atoms_are_found_under_their_own_ids() {
    let mut store = Store::new();
    store.add_atom(atom("code:b", "function", "old", "src/a.rs"));
    store.add_atom(atom("code:a", "function", "a", "src/a.rs"));
    assert_eq!(store.atom_count(), 2);
    store.add_atom(atom("code:b", "function", "new", "src/a.rs"));
    assert_eq!(store.atom_count(), 2);
    let all = store.all_atoms();
    assert_eq!(all.len(), store.atom_count());
    for a in &all {
        let found = store.get_atom(&a.id).expect("found");
        assert_eq!(found.id, a.id);
        assert_eq!(found.name, a.name);
    }
    assert_eq!(store.get_atom(&EntityId::new("code:b")).expect("b").name, "new");
}
