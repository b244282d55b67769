//! From a syntax tree to the atoms and edges of its file.

use crate::chars::{contains, strip_prefix};
use crate::hash::hex_sha256;
use crate::model::{AtomView, CallSite, CodeAtom, Edge, EdgeKind, EdgeView, EntityId};
use crate::parser::calls::{extract_calls, ExtractedCalls};
use crate::parser::language::{holds_dart_members, Language};
use crate::parser::python::field_text;
use crate::parser::scope::{lookup_str, ScopeView};
use crate::parser::tree::{
    child_list, children, field_child, find_kind, ints, is_kind, node_text, node_text_or_empty,
    NodeView, SyntaxNode,
};
use crate::parser::unit::{
    atom_at, dart_name, declared_name, definition_of, distinct_names, doc_of, file_edges,
    impl_owner_type, inner_signature, item_at, item_id, item_name, items_in, lifted,
    lifted_edges, line_of, local_edges, method_at, method_edges, methods_edges, methods_in,
    methods_of, module_atom, module_id, module_name, named_ids, sibling_edges, sibling_name,
    signature, unit_of, File, FileView, ItemsView, ParseUnit, UnitView,
};
use crate::text::contains_string;
use vstd::prelude::*;
use vstd::string::*;

verus! {

// ── Atoms ────────────────────────────────────────────────────────────────────

fn line_number(row: usize) -> (r: u32)
    ensures
        r == line_of(row),
{
    if row < u32::MAX as usize {
        row as u32 + 1
    } else {
        u32::MAX
    }
}

/// The identifier of an item of the file.
fn make_item_id(path: &str, kind: &str, name: &str) -> (r: String)
    ensures
        r@ == item_id(path@, kind@, name@),
{
    "code:".to_owned().concat(path).concat("::").concat(kind).concat("::").concat(name)
}

/// The doc text of the definition at node `i`.
fn doc_for(f: &File, i: usize) -> (r: String)
    requires
        i < f.nodes.len(),
    ensures
        r@ == doc_of(f.deep_view(), i as int),
{
    assert(f.deep_view().t[i as int] == f.nodes[i as int].deep_view());
    match f.language {
        Language::Rust => crate::parser::rust::doc_comment(f.source, f.nodes[i].start_row),
        Language::Python => crate::parser::python::docstring(f.nodes, i, f.source),
        Language::Dart => crate::parser::rust::doc_comment(f.source, f.nodes[i].start_row),
    }
}

fn make_atom(
    f: &File,
    i: usize,
    id: String,
    kind: &str,
    name: String,
    calls: ExtractedCalls,
    parent: Option<String>,
) -> (r: CodeAtom)
    requires
        i < f.nodes.len(),
    ensures
        r.deep_view() == atom_at(
            f.deep_view(),
            i as int,
            id@,
            kind@,
            name@,
            calls.deep_view(),
            parent.deep_view(),
        ),
{
    assert(f.deep_view().t[i as int] == f.nodes[i as int].deep_view());
    let text = node_text_or_empty(f.nodes, i, f.source);
    let doc = doc_for(f, i);
    let hash = "sha256:".to_owned().concat(hex_sha256(text.as_bytes()).as_str());
    CodeAtom {
        id: EntityId::new(id.as_str()),
        kind: kind.to_owned(),
        name,
        file_path: f.path.to_owned(),
        line_start: line_number(f.nodes[i].start_row),
        line_end: line_number(f.nodes[i].end_row),
        doc,
        signature: signature(text),
        content_hash: hash,
        calls: calls.calls,
        method_calls: calls.method_calls,
        parent,
    }
}

fn field_str<'a>(f: &File<'a>, i: usize, name: &str) -> (r: Option<&'a str>)
    requires
        i < f.nodes.len(),
    ensures
        r.deep_view() == field_text(f.deep_view().t, f.deep_view().src, i as int, name@),
{
    match field_child(f.nodes, i, name) {
        Some(k) => node_text(f.nodes, k, f.source),
        None => None,
    }
}

/// The signature of a Dart function, getter or setter in the signature of a
/// method.
fn find_inner_signature(nodes: &Vec<SyntaxNode>, i: usize) -> (r: Option<usize>)
    requires
        i < nodes.len(),
    ensures
        match r {
            Some(k) => inner_signature(nodes.deep_view(), i as int) == Some(k as int) && k
                < nodes.len(),
            None => inner_signature(nodes.deep_view(), i as int) is None,
        },
{
    let cs = child_list(nodes, i);
    match find_kind(nodes, &cs, "function_signature") {
        Some(k) => Some(k),
        None => match find_kind(nodes, &cs, "getter_signature") {
            Some(k) => Some(k),
            None => find_kind(nodes, &cs, "setter_signature"),
        },
    }
}

/// The name of a Dart declaration that does not hold it itself.
fn find_dart_name(nodes: &Vec<SyntaxNode>, i: usize) -> (r: Option<usize>)
    requires
        i < nodes.len(),
    ensures
        match r {
            Some(k) => dart_name(nodes.deep_view(), i as int) == Some(k as int) && k < nodes.len(),
            None => dart_name(nodes.deep_view(), i as int) is None,
        },
{
    match field_child(nodes, i, "signature") {
        Some(s) => match field_child(nodes, s, "name") {
            Some(k) => Some(k),
            None => match find_inner_signature(nodes, s) {
                Some(q) => field_child(nodes, q, "name"),
                None => None,
            },
        },
        None => if is_kind(nodes, i, "type_alias") {
            let cs = child_list(nodes, i);
            find_kind(nodes, &cs, "type_identifier")
        } else {
            None
        },
    }
}

/// The name that the definition at node `i` declares.
fn declared<'a>(f: &File<'a>, i: usize) -> (r: Option<&'a str>)
    requires
        i < f.nodes.len(),
    ensures
        r.deep_view() == declared_name(f.deep_view(), i as int),
{
    match field_child(f.nodes, i, "name") {
        Some(k) => node_text(f.nodes, k, f.source),
        None => match f.language {
            Language::Dart => match find_dart_name(f.nodes, i) {
                Some(k) => node_text(f.nodes, k, f.source),
                None => None,
            },
            _ => None,
        },
    }
}

/// The name of the definition at node `i`.
fn extract_name(f: &File, i: usize) -> (r: Option<String>)
    requires
        i < f.nodes.len(),
    ensures
        r.deep_view() == item_name(f.deep_view(), i as int),
{
    if is_kind(f.nodes, i, "impl_item") {
        return match field_str(f, i, "type") {
            Some(ty) => match field_child(f.nodes, i, "trait") {
                Some(k) => match node_text(f.nodes, k, f.source) {
                    Some(tr) => Some(tr.to_owned().concat(" for ").concat(ty)),
                    None => None,
                },
                None => Some(ty.to_owned()),
            },
            None => None,
        };
    }
    match declared(f, i) {
        Some(s) => Some(s.to_owned()),
        None => None,
    }
}

/// The definition that a captured node stands for.
fn unwrap_definition(f: &File, i: usize) -> (r: Option<usize>)
    requires
        i < f.nodes.len(),
    ensures
        match r {
            Some(k) => definition_of(f.deep_view(), i as int) == Some(k as int) && k
                < f.nodes.len(),
            None => definition_of(f.deep_view(), i as int) is None,
        },
{
    let ghost v = f.deep_view();
    let mut k: usize = i;
    loop
        invariant
            k < f.nodes.len(),
            v == f.deep_view(),
            definition_of(v, i as int) == definition_of(v, k as int),
        decreases f.nodes.len() - k,
    {
        assert(v.t[k as int].kind == f.nodes[k as int].kind@);
        if !f.language.is_item(f.nodes[k].kind.as_str()) {
            return None;
        }
        if !is_kind(f.nodes, k, "decorated_definition") {
            return Some(k);
        }
        match field_child(f.nodes, k, "definition") {
            Some(d) => {
                k = d;
            },
            None => {
                return None;
            },
        }
    }
}

/// The atom of the captured top-level node `i`.
pub fn extract_item(f: &File, i: usize) -> (r: Option<CodeAtom>)
    requires
        i < f.nodes.len(),
    ensures
        r.deep_view() == item_at(f.deep_view(), i as int),
{
    let ghost v = f.deep_view();
    match unwrap_definition(f, i) {
        None => None,
        Some(d) => {
            assert(v.t[d as int].kind == f.nodes[d as int].kind@);
            match (f.language.map_node_kind(f.nodes[d].kind.as_str()), extract_name(f, d)) {
                (Some(kind), Some(name)) => {
                    let calls = if is_kind(f.nodes, d, "function_item") || is_kind(
                        f.nodes,
                        d,
                        "function_definition",
                    ) || is_kind(f.nodes, d, "function_declaration") {
                        extract_calls(
                            f.language.grammar(),
                            f.nodes,
                            d,
                            f.source,
                            f.imports,
                            f.limit,
                        )
                    } else {
                        ExtractedCalls::new()
                    };
                    let id = make_item_id(f.path, kind, name.as_str());
                    Some(make_atom(f, d, id, kind, name, calls, None))
                },
                _ => None,
            }
        },
    }
}

/// The names of a list of call sites, each once, in order of first appearance.
pub fn distinct(sites: &Vec<CallSite>) -> (r: Vec<String>)
    ensures
        r.deep_view() == distinct_names(sites.deep_view()),
{
    let ghost v = sites.deep_view();
    let mut out: Vec<String> = Vec::new();
    let mut i: usize = 0;
    assert(v.take(0) =~= Seq::empty());
    assert(out.deep_view() =~= Seq::<Seq<char>>::empty());
    while i < sites.len()
        invariant
            i <= sites.len(),
            v == sites.deep_view(),
            out.deep_view() == distinct_names(v.take(i as int)),
        decreases sites.len() - i,
    {
        let ghost had = out.deep_view();
        proof {
            assert(v.take(i + 1).drop_last() =~= v.take(i as int));
            assert(v.take(i + 1).last() == sites[i as int].deep_view());
        }
        if !contains_string(&out, sites[i].name.as_str()) {
            out.push(sites[i].name.clone());
            assert(out.deep_view() =~= had.push(sites[i as int].name@));
        }
        i += 1;
    }
    assert(v.take(sites.len() as int) =~= v);
    out
}

// ── Methods ──────────────────────────────────────────────────────────────────

/// The atom of the method at node `i` of a container.
fn extract_method(f: &File, i: usize, container: &str, owner: &str) -> (r: Option<CodeAtom>)
    requires
        i < f.nodes.len(),
    ensures
        r.deep_view() == method_at(f.deep_view(), i as int, container@, owner@),
{
    let ghost v = f.deep_view();
    let wanted = match f.language {
        Language::Rust => is_kind(f.nodes, i, "function_item"),
        Language::Python => is_kind(f.nodes, i, "function_definition") || is_kind(
            f.nodes,
            i,
            "decorated_definition",
        ),
        Language::Dart => is_kind(f.nodes, i, "class_member"),
    };
    if !wanted {
        return None;
    }
    let inner = if is_kind(f.nodes, i, "decorated_definition") {
        field_child(f.nodes, i, "definition")
    } else if is_kind(f.nodes, i, "class_member") {
        let cs = child_list(f.nodes, i);
        find_kind(f.nodes, &cs, "method_declaration")
    } else {
        Some(i)
    };
    match inner {
        None => None,
        Some(d) => match declared(f, d) {
            None => None,
            Some(name) => {
                let calls = extract_calls(
                    f.language.grammar(),
                    f.nodes,
                    d,
                    f.source,
                    f.imports,
                    f.limit,
                );
                let path = container.to_owned().concat("::").concat(name);
                let id = make_item_id(f.path, "function", path.as_str());
                let atom = make_atom(
                    f,
                    d,
                    id,
                    "function",
                    name.to_owned(),
                    calls,
                    Some(owner.to_owned()),
                );
                Some(atom)
            },
        },
    }
}

/// Names and identifiers of a list of atoms.
fn ids_of(atoms: &Vec<CodeAtom>) -> (r: Vec<(String, String)>)
    ensures
        r.deep_view() == named_ids(atoms.deep_view()),
{
    let ghost v = atoms.deep_view();
    let mut out: Vec<(String, String)> = Vec::new();
    let mut i: usize = 0;
    assert(out.deep_view() =~= named_ids(v).take(0));
    while i < atoms.len()
        invariant
            i <= atoms.len(),
            v == atoms.deep_view(),
            out.deep_view() == named_ids(v).take(i as int),
        decreases atoms.len() - i,
    {
        let ghost had = out.deep_view();
        out.push((atoms[i].name.clone(), atoms[i].id.to_string()));
        assert(v[i as int] == atoms[i as int].deep_view());
        assert(out.deep_view() =~= had.push(named_ids(v)[i as int]));
        assert(out.deep_view() =~= named_ids(v).take(i + 1));
        i += 1;
    }
    assert(named_ids(v).take(atoms.len() as int) =~= named_ids(v));
    out
}

/// The sibling method that a call inside a container can mean.
fn sibling(call: &str, container: &str, owner: &str) -> (r: Option<String>)
    ensures
        r.deep_view() == sibling_name(call@, container@, owner@),
{
    match strip_prefix(call, "Self::") {
        Some(rest) => Some(rest),
        None => {
            if !contains(call, "::") {
                return Some(call.to_owned());
            }
            let owner_prefix = container.to_owned().concat("::");
            match strip_prefix(call, owner_prefix.as_str()) {
                Some(rest) => Some(rest),
                None => {
                    let parent_prefix = owner.to_owned().concat("::");
                    strip_prefix(call, parent_prefix.as_str())
                },
            }
        },
    }
}

fn push_edge(out: &mut Vec<Edge>, from: &str, to: &str, kind: EdgeKind)
    ensures
        final(out).deep_view() == old(out).deep_view().push(EdgeView::plain(from@, to@, kind)),
{
    let ghost had = out.deep_view();
    out.push(Edge::new(EntityId::new(from), EntityId::new(to), kind));
    assert(out.deep_view() =~= had.push(EdgeView::plain(from@, to@, kind)));
}

/// Appends the call edges from `from` to the siblings that `names` mean.
fn link_siblings(
    ids: &Vec<(String, String)>,
    from: &str,
    names: &Vec<String>,
    container: &str,
    owner: &str,
    out: &mut Vec<Edge>,
)
    ensures
        final(out).deep_view() == old(out).deep_view() + sibling_edges(
            ids.deep_view(),
            from@,
            names.deep_view(),
            container@,
            owner@,
        ),
{
    let ghost v = names.deep_view();
    let ghost had = out.deep_view();
    let mut i: usize = 0;
    assert(v.take(0) =~= Seq::<Seq<char>>::empty());
    assert(had =~= had + Seq::<EdgeView>::empty());
    while i < names.len()
        invariant
            i <= names.len(),
            v == names.deep_view(),
            out.deep_view() == had + sibling_edges(
                ids.deep_view(),
                from@,
                v.take(i as int),
                container@,
                owner@,
            ),
        decreases names.len() - i,
    {
        proof {
            assert(v.take(i + 1).drop_last() =~= v.take(i as int));
            assert(v.take(i + 1).last() == names[i as int]@);
        }
        match sibling(names[i].as_str(), container, owner) {
            Some(name) => match lookup_str(ids, name.as_str()) {
                Some(to) => {
                    if !crate::text::str_eq(to, from) {
                        push_edge(out, from, to, EdgeKind::Calls);
                        assert(out.deep_view() =~= had + sibling_edges(
                            ids.deep_view(),
                            from@,
                            v.take(i + 1),
                            container@,
                            owner@,
                        ));
                    }
                },
                None => {},
            },
            None => {},
        }
        i += 1;
    }
    assert(v.take(names.len() as int) =~= v);
}

proof fn lemma_sibling_edges_concat(
    ids: Seq<(Seq<char>, Seq<char>)>,
    from: Seq<char>,
    a: Seq<Seq<char>>,
    b: Seq<Seq<char>>,
    container: Seq<char>,
    owner: Seq<char>,
)
    ensures
        sibling_edges(ids, from, a + b, container, owner) == sibling_edges(
            ids,
            from,
            a,
            container,
            owner,
        ) + sibling_edges(ids, from, b, container, owner),
    decreases b.len(),
{
    if b.len() == 0 {
        assert(a + b =~= a);
        assert(sibling_edges(ids, from, a, container, owner) + Seq::<EdgeView>::empty()
            =~= sibling_edges(ids, from, a, container, owner));
    } else {
        assert((a + b).drop_last() =~= a + b.drop_last());
        assert((a + b).last() == b.last());
        lemma_sibling_edges_concat(ids, from, a, b.drop_last(), container, owner);
        assert(sibling_edges(ids, from, a + b, container, owner) =~= sibling_edges(
            ids,
            from,
            a,
            container,
            owner,
        ) + sibling_edges(ids, from, b, container, owner));
    }
}

/// Lifts the methods of the container at node `i` to atoms of their own, and
/// appends them with their edges.
pub fn extract_methods(
    f: &File,
    i: usize,
    container: &str,
    owner: &str,
    container_id: &str,
    out_atoms: &mut Vec<CodeAtom>,
    out_edges: &mut Vec<Edge>,
)
    requires
        i < f.nodes.len(),
    ensures
        final(out_atoms).deep_view() == old(out_atoms).deep_view() + methods_of(
            f.deep_view(),
            i as int,
            container@,
            owner@,
        ),
        final(out_edges).deep_view() == old(out_edges).deep_view() + ({
            let ms = methods_of(f.deep_view(), i as int, container@, owner@);
            methods_edges(named_ids(ms), container_id@, container@, owner@, ms, ms.len() as int)
        }),
{
    let ghost v = f.deep_view();
    let ghost had_atoms = out_atoms.deep_view();
    let ghost had_edges = out_edges.deep_view();
    let ghost ms = methods_of(v, i as int, container@, owner@);
    let mut methods: Vec<CodeAtom> = Vec::new();
    assert(methods.deep_view() =~= Seq::<AtomView>::empty());
    match field_child(f.nodes, i, "body") {
        Some(b) => {
            let cs = child_list(f.nodes, b);
            let ghost w = ints(cs@);
            let mut j: usize = 0;
            assert(w.take(0) =~= Seq::<int>::empty());
            while j < cs.len()
                invariant
                    j <= cs.len(),
                    v == f.deep_view(),
                    w == ints(cs@),
                    forall|k: int| 0 <= k < cs.len() ==> #[trigger] cs@[k] < f.nodes.len(),
                    methods.deep_view() == methods_in(v, w.take(j as int), container@, owner@),
                decreases cs.len() - j,
            {
                let ghost had = methods.deep_view();
                proof {
                    assert(w.take(j + 1).drop_last() =~= w.take(j as int));
                    assert(w.take(j + 1).last() == cs@[j as int] as int);
                }
                match extract_method(f, cs[j], container, owner) {
                    Some(a) => {
                        let ghost view = a.deep_view();
                        methods.push(a);
                        assert(methods.deep_view() =~= had.push(view));
                    },
                    None => {},
                }
                j += 1;
            }
            assert(w.take(cs.len() as int) =~= w);
        },
        None => {},
    }
    assert(methods.deep_view() == ms);
    let ids = ids_of(&methods);
    let mut k: usize = 0;
    assert(had_atoms =~= had_atoms + ms.take(0));
    assert(had_edges =~= had_edges + Seq::<EdgeView>::empty());
    while k < methods.len()
        invariant
            k <= methods.len(),
            methods.deep_view() == ms,
            ids.deep_view() == named_ids(ms),
            out_atoms.deep_view() == had_atoms + ms.take(k as int),
            out_edges.deep_view() == had_edges + methods_edges(
                named_ids(ms),
                container_id@,
                container@,
                owner@,
                ms,
                k as int,
            ),
        decreases methods.len() - k,
    {
        let ghost m = ms[k as int];
        let ghost before = out_edges.deep_view();
        assert(m == methods[k as int].deep_view());
        let id = methods[k].id.to_string();
        push_edge(out_edges, container_id, id.as_str(), EdgeKind::Contains);
        let calls = distinct(&methods[k].calls);
        let method_calls = distinct(&methods[k].method_calls);
        link_siblings(&ids, id.as_str(), &calls, container, owner, out_edges);
        link_siblings(&ids, id.as_str(), &method_calls, container, owner, out_edges);
        proof {
            lemma_sibling_edges_concat(
                named_ids(ms),
                m.id,
                distinct_names(m.calls),
                distinct_names(m.method_calls),
                container@,
                owner@,
            );
            assert(out_edges.deep_view() =~= before + method_edges(
                named_ids(ms),
                container_id@,
                container@,
                owner@,
                m,
            ));
            assert(out_edges.deep_view() =~= had_edges + methods_edges(
                named_ids(ms),
                container_id@,
                container@,
                owner@,
                ms,
                k + 1,
            ));
        }
        let ghost atoms_before = out_atoms.deep_view();
        out_atoms.push(methods[k].clone());
        assert(out_atoms.deep_view() =~= atoms_before.push(m));
        assert(out_atoms.deep_view() =~= had_atoms + ms.take(k + 1));
        k += 1;
    }
    assert(ms.take(ms.len() as int) =~= ms);
}

// ── Units ────────────────────────────────────────────────────────────────────

/// Appends the call edges from `from` to the top-level items that `names` mean.
fn link_items(
    ids: &Vec<(String, String)>,
    from: &str,
    names: &Vec<String>,
    out: &mut Vec<Edge>,
)
    ensures
        final(out).deep_view() == old(out).deep_view() + local_edges(
            ids.deep_view(),
            from@,
            names.deep_view(),
        ),
{
    let ghost v = names.deep_view();
    let ghost had = out.deep_view();
    let mut i: usize = 0;
    assert(v.take(0) =~= Seq::<Seq<char>>::empty());
    assert(had =~= had + Seq::<EdgeView>::empty());
    while i < names.len()
        invariant
            i <= names.len(),
            v == names.deep_view(),
            out.deep_view() == had + local_edges(ids.deep_view(), from@, v.take(i as int)),
        decreases names.len() - i,
    {
        proof {
            assert(v.take(i + 1).drop_last() =~= v.take(i as int));
            assert(v.take(i + 1).last() == names[i as int]@);
        }
        if !contains(names[i].as_str(), "::") {
            match lookup_str(ids, names[i].as_str()) {
                Some(to) => {
                    if !crate::text::str_eq(to, from) {
                        push_edge(out, from, to, EdgeKind::Calls);
                        assert(out.deep_view() =~= had + local_edges(
                            ids.deep_view(),
                            from@,
                            v.take(i + 1),
                        ));
                    }
                },
                None => {},
            }
        }
        i += 1;
    }
    assert(v.take(names.len() as int) =~= v);
}

/// Appends the call edges of `atoms` to top-level items.
fn link_file(ids: &Vec<(String, String)>, atoms: &Vec<CodeAtom>, out: &mut Vec<Edge>)
    ensures
        final(out).deep_view() == old(out).deep_view() + file_edges(
            ids.deep_view(),
            atoms.deep_view(),
            atoms.len() as int,
        ),
{
    let ghost v = atoms.deep_view();
    let ghost had = out.deep_view();
    let mut i: usize = 0;
    assert(had =~= had + Seq::<EdgeView>::empty());
    while i < atoms.len()
        invariant
            i <= atoms.len(),
            v == atoms.deep_view(),
            out.deep_view() == had + file_edges(ids.deep_view(), v, i as int),
        decreases atoms.len() - i,
    {
        assert(v[i as int] == atoms[i as int].deep_view());
        let names = distinct(&atoms[i].calls);
        let id = atoms[i].id.to_string();
        let ghost before = out.deep_view();
        link_items(ids, id.as_str(), &names, out);
        assert(out.deep_view() =~= had + file_edges(ids.deep_view(), v, i + 1));
        i += 1;
    }
}

/// What is found of a file's items.
struct Items {
    tops: Vec<CodeAtom>,
    atoms: Vec<CodeAtom>,
    edges: Vec<Edge>,
}

impl Items {
    spec fn contents(&self) -> ItemsView {
        ItemsView {
            tops: self.tops.deep_view(),
            atoms: self.atoms.deep_view(),
            edges: self.edges.deep_view(),
        }
    }
}

/// Appends what the captured top-level node `c` brings.
fn add_item(f: &File, c: usize, items: &mut Items)
    requires
        c < f.nodes.len(),
    ensures
        final(items).contents() == ({
            let v = f.deep_view();
            let rest = old(items).contents();
            match item_at(v, c as int) {
                None => rest,
                Some(a) => ItemsView {
                    tops: rest.tops.push(a),
                    atoms: rest.atoms.push(a) + lifted(v, c as int, a.name),
                    edges: rest.edges.push(
                        EdgeView::plain(module_id(v.path), a.id, EdgeKind::Contains),
                    ) + lifted_edges(v, c as int, a),
                },
            }
        }),
{
    let ghost v = f.deep_view();
    let ghost rest = items.contents();
    match extract_item(f, c) {
        None => {},
        Some(atom) => {
            let ghost a = atom.deep_view();
            let id = atom.id.to_string();
            let name = atom.name.clone();
            let mid = "code:".to_owned().concat(f.path);
            push_edge(&mut items.edges, mid.as_str(), id.as_str(), EdgeKind::Contains);
            items.tops.push(atom.clone());
            assert(items.tops.deep_view() =~= rest.tops.push(a));
            items.atoms.push(atom);
            assert(items.atoms.deep_view() =~= rest.atoms.push(a));
            let ghost atoms_mid = items.atoms.deep_view();
            let ghost edges_mid = items.edges.deep_view();
            assert(atoms_mid =~= atoms_mid + Seq::<AtomView>::empty());
            assert(edges_mid =~= edges_mid + Seq::<EdgeView>::empty());
            match f.language {
                Language::Rust => {
                    if is_kind(f.nodes, c, "impl_item") {
                        let owner = impl_owner_type(name.as_str());
                        extract_methods(
                            f,
                            c,
                            name.as_str(),
                            owner.as_str(),
                            id.as_str(),
                            &mut items.atoms,
                            &mut items.edges,
                        );
                    }
                },
                Language::Dart => {
                    assert(v.t[c as int].kind == f.nodes[c as int].kind@);
                    if holds_dart_members(f.nodes[c].kind.as_str()) {
                        extract_methods(
                            f,
                            c,
                            name.as_str(),
                            name.as_str(),
                            id.as_str(),
                            &mut items.atoms,
                            &mut items.edges,
                        );
                    }
                },
                Language::Python => {
                    if is_kind(f.nodes, c, "class_definition") {
                        extract_methods(
                            f,
                            c,
                            name.as_str(),
                            name.as_str(),
                            id.as_str(),
                            &mut items.atoms,
                            &mut items.edges,
                        );
                    }
                },
            }
        },
    }
}

/// The atoms and edges of a file.
pub fn build_unit(f: &File) -> (r: ParseUnit)
    requires
        f.nodes.len() > 0,
    ensures
        r.deep_view() == unit_of(f.deep_view()),
{
    let ghost v = f.deep_view();
    let cs = child_list(f.nodes, 0);
    let ghost w = ints(cs@);
    let mut items = Items { tops: Vec::new(), atoms: Vec::new(), edges: Vec::new() };
    let mut j: usize = 0;
    proof {
        assert(w.take(0) =~= Seq::<int>::empty());
        assert(items.contents() =~= items_in(v, w.take(0)));
    }
    while j < cs.len()
        invariant
            j <= cs.len(),
            v == f.deep_view(),
            w == ints(cs@),
            forall|k: int| 0 <= k < cs.len() ==> #[trigger] cs@[k] < f.nodes.len(),
            items.contents() == items_in(v, w.take(j as int)),
        decreases cs.len() - j,
    {
        proof {
            assert(w.take(j + 1).drop_last() =~= w.take(j as int));
            assert(w.take(j + 1).last() == cs@[j as int] as int);
        }
        add_item(f, cs[j], &mut items);
        j += 1;
    }
    assert(w.take(cs.len() as int) =~= w);
    let ghost found = items.contents();
    assert(found == items_in(v, children(v.t, 0)));
    let ids = ids_of(&items.tops);
    let mut edges = items.edges;
    link_file(&ids, &items.atoms, &mut edges);
    let mid = "code:".to_owned().concat(f.path);
    assert(v.t[0] == f.nodes[0].deep_view());
    let module = CodeAtom {
        id: EntityId::new(mid.as_str()),
        kind: "module".to_owned(),
        name: module_name(f.path),
        file_path: f.path.to_owned(),
        line_start: 1,
        line_end: line_number(f.nodes[0].end_row),
        doc: String::new(),
        signature: String::new(),
        content_hash: hex_sha256(f.source.as_bytes()),
        calls: Vec::new(),
        method_calls: Vec::new(),
        parent: None,
    };
    proof {
        assert(module.calls.deep_view() =~= Seq::empty());
        assert(module.method_calls.deep_view() =~= Seq::empty());
        assert(module.deep_view() =~= module_atom(v));
    }
    let mut atoms: Vec<CodeAtom> = Vec::new();
    atoms.push(module);
    assert(atoms.deep_view() =~= seq![module_atom(v)]);
    let mut rest = items.atoms;
    let ghost tail = rest.deep_view();
    atoms.append(&mut rest);
    assert(atoms.deep_view() =~= seq![module_atom(v)] + tail);
    ParseUnit { atoms, edges }
}

/// The names that a file of the given language binds.
pub open spec fn file_scope(
    language: Language,
    t: Seq<NodeView>,
    src: Seq<char>,
    limit: nat,
) -> ScopeView {
    match language {
        Language::Rust => ScopeView {
            symbols: crate::parser::rust::import_pairs(
                crate::parser::rust::uses_below(t, src, limit, t.len() as int),
            ),
            ..ScopeView::empty()
        },
        Language::Python => crate::parser::python::imports_below(t, src, t.len() as int),
        Language::Dart => crate::parser::dart::directives_below(t, src, t.len() as int),
    }
}

/// The atoms and edges of a file of the given language, path, text and tree.
pub open spec fn tree_unit(
    language: Language,
    t: Seq<NodeView>,
    src: Seq<char>,
    path: Seq<char>,
    limit: nat,
) -> UnitView {
    unit_of(
        FileView { t, src, path, language, scope: file_scope(language, t, src, limit), limit },
    )
}

/// The atoms and edges of a file, from its syntax tree.
pub fn unit_from_tree(
    language: Language,
    nodes: &Vec<SyntaxNode>,
    source: &str,
    file_path: &str,
    limit: usize,
) -> (r: ParseUnit)
    requires
        nodes.len() > 0,
    ensures
        r.deep_view() == tree_unit(
            language,
            nodes.deep_view(),
            source@,
            file_path@,
            limit as nat,
        ),
{
    let imports = match language {
        Language::Rust => {
            let decls = crate::parser::rust::extract_use_decls(nodes, source, limit);
            crate::parser::rust::use_decls_to_imports(&decls)
        },
        Language::Python => crate::parser::python::extract_imports(nodes, source),
        Language::Dart => crate::parser::dart::extract_imports(nodes, source),
    };
    let f = File { nodes, source, path: file_path, language, imports: &imports, limit };
    build_unit(&f)
}

} // verus!
