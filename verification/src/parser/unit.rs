//! One parsed file: its atoms and the edges between them.
//!
//! Identity: a module atom is `code:{file}`, an item `code:{file}::{kind}::{name}`,
//! a method `code:{file}::function::{container}::{name}`. Edges: module
//! contains item, container contains method, and calls within the file.

use crate::chars::{
    after_prefix, contains, find, find_first, occurs, split_first, split_once, trim, trim_end_char,
    trimmed, without_trailing,
};
use crate::graph::memory::{Store, StoreView};
use crate::hash::{hex, sha256_of};
use crate::model::{
    clone_atoms, clone_edges, AtomView, CallSiteView, CodeAtom, Edge, EdgeKind, EdgeView,
};
use crate::parser::calls::{sites_in, CallsView};
use crate::parser::language::{atom_kind, is_dart_container, is_item_kind, Language};
use crate::parser::python::field_text;
use crate::parser::scope::{lookup, Imports, ScopeView};
use crate::parser::tree::{
    children, field_of, first_of_kind, text_of, text_or_empty, NodeView, SyntaxNode,
};
use crate::text::{chars_of, string_of};
use vstd::prelude::*;
use vstd::string::*;
use vstd::utf8::encode_utf8;

verus! {

// ── Parse output ─────────────────────────────────────────────────────────────

/// A file that could not be parsed, and why.
#[derive(Debug, PartialEq, Eq)]
pub struct ParseFailure {
    /// Path of the file, relative to the analyzed root.
    pub path: String,
    /// Human-readable reason.
    pub reason: String,
}

/// Output of parsing one file: its atoms and the edges between them.
#[derive(Debug)]
pub struct ParseUnit {
    /// Module atom, item atoms, and the methods lifted out of containers.
    pub atoms: Vec<CodeAtom>,
    /// Containment edges and the calls within the file.
    pub edges: Vec<Edge>,
}

/// What a [`ParseUnit`] holds.
#[verifier::ext_equal]
pub struct UnitView {
    pub atoms: Seq<AtomView>,
    pub edges: Seq<EdgeView>,
}

impl DeepView for ParseUnit {
    type V = UnitView;

    open spec fn deep_view(&self) -> UnitView {
        UnitView { atoms: self.atoms.deep_view(), edges: self.edges.deep_view() }
    }
}

impl Default for ParseUnit {
    fn default() -> (r: Self)
        ensures
            r.deep_view() == (UnitView { atoms: Seq::empty(), edges: Seq::empty() }),
    {
        let r = ParseUnit { atoms: Vec::new(), edges: Vec::new() };
        assert(r.deep_view() =~= (UnitView { atoms: Seq::empty(), edges: Seq::empty() }));
        r
    }
}

impl Clone for ParseUnit {
    fn clone(&self) -> (r: Self)
        ensures
            r.deep_view() == self.deep_view(),
    {
        ParseUnit { atoms: clone_atoms(&self.atoms), edges: clone_edges(&self.edges) }
    }
}

/// A store's atoms after a list of atoms was added in order.
pub open spec fn with_atoms(m: Map<Seq<char>, AtomView>, atoms: Seq<AtomView>) -> Map<
    Seq<char>,
    AtomView,
>
    decreases atoms.len(),
{
    if atoms.len() == 0 {
        m
    } else {
        with_atoms(m, atoms.drop_last()).insert(atoms.last().id, atoms.last())
    }
}

impl ParseUnit {
    /// Adds the atoms and the edges to `store`, in their recorded order.
    pub fn apply_to(self, store: &mut Store)
        ensures
            final(store)@ == (StoreView {
                atoms: with_atoms(old(store)@.atoms, self.deep_view().atoms),
                edges: old(store)@.edges + self.deep_view().edges,
            }),
    {
        let ghost had = store@;
        let ghost av = self.atoms.deep_view();
        let ghost ev = self.edges.deep_view();
        let mut i: usize = 0;
        assert(av.take(0) =~= Seq::<AtomView>::empty());
        while i < self.atoms.len()
            invariant
                i <= self.atoms.len(),
                av == self.atoms.deep_view(),
                store@ == (StoreView {
                    atoms: with_atoms(had.atoms, av.take(i as int)),
                    edges: had.edges,
                }),
            decreases self.atoms.len() - i,
        {
            store.add_atom(self.atoms[i].clone());
            proof {
                assert(av.take(i + 1).drop_last() =~= av.take(i as int));
                assert(av.take(i + 1).last() == av[i as int]);
            }
            i += 1;
        }
        assert(av.take(self.atoms.len() as int) =~= av);
        let mut i: usize = 0;
        assert(had.edges =~= had.edges + ev.take(0));
        while i < self.edges.len()
            invariant
                i <= self.edges.len(),
                ev == self.edges.deep_view(),
                store@ == (StoreView {
                    atoms: with_atoms(had.atoms, av),
                    edges: had.edges + ev.take(i as int),
                }),
            decreases self.edges.len() - i,
        {
            store.add_edge(self.edges[i].clone());
            assert((had.edges + ev.take(i as int)).push(ev[i as int]) =~= had.edges + ev.take(
                i + 1,
            ));
            i += 1;
        }
        assert(ev.take(self.edges.len() as int) =~= ev);
    }

    /// Number of atoms.
    pub fn atom_count(&self) -> (r: usize)
        ensures
            r == self.deep_view().atoms.len(),
    {
        self.atoms.len()
    }
}

// ── Names ────────────────────────────────────────────────────────────────────

/// The module name of a path: its last component, without the extension.
pub open spec fn stem(path: Seq<char>) -> Seq<char> {
    let base = crate::chars::after_last(path, "/"@);
    match crate::chars::split_last(base, "."@) {
        Some((s, _)) => s,
        None => base,
    }
}

/// The module name of a path: its last component, without the extension.
pub fn module_name(path: &str) -> (r: String)
    ensures
        r@ == stem(path@),
{
    let base = crate::chars::last_part(path, "/");
    match crate::chars::rsplit_once(base.as_str(), ".") {
        Some((s, _)) => s,
        None => base,
    }
}

/// The type that an `impl` block belongs to: what follows ` for `, if anything
/// does.
pub open spec fn owner_type(owner: Seq<char>) -> Seq<char> {
    match split_first(owner, " for "@) {
        Some((_, t)) => trimmed(t),
        None => trimmed(owner),
    }
}

/// The type that an `impl` block belongs to.
pub fn impl_owner_type(owner: &str) -> (r: String)
    ensures
        r@ == owner_type(owner@),
{
    match split_once(owner, " for ") {
        Some((_, t)) => trim(t.as_str()),
        None => trim(owner),
    }
}

/// The first line of a text, without its line ending.
pub open spec fn first_line(s: Seq<char>) -> Seq<char> {
    match find_first(s, "\n"@) {
        Some(i) => {
            let line = s.take(i);
            if line.len() > 0 && line.last() == '\r' {
                line.drop_last()
            } else {
                line
            }
        },
        None => s,
    }
}

/// The signature of an item: its first line, without an opening brace.
pub open spec fn signature_of(text: Seq<char>) -> Seq<char> {
    trimmed(without_trailing(first_line(text), '{'))
}

/// The signature of an item.
pub fn signature(text: &str) -> (r: String)
    ensures
        r@ == signature_of(text@),
{
    let s = chars_of(text);
    let nl = chars_of("\n");
    let line = match find(s.as_slice(), nl.as_slice()) {
        Some(i) => {
            assert(text@.take(i as int) =~= text@.subrange(0, i as int));
            if i > 0 && s[i - 1] == '\r' {
                let line = string_of(s.as_slice(), 0, i - 1);
                assert(line@ =~= text@.take(i as int).drop_last());
                line
            } else {
                string_of(s.as_slice(), 0, i)
            }
        },
        None => text.to_owned(),
    };
    trim(trim_end_char(line.as_str(), '{').as_str())
}

/// The one-based line of a zero-based row, as far as lines go.
pub open spec fn line_of(row: usize) -> u32 {
    if row < u32::MAX {
        (row + 1) as u32
    } else {
        u32::MAX
    }
}

// ── Files ────────────────────────────────────────────────────────────────────

/// A file under extraction: its syntax tree, its text, its path, its language,
/// the names it binds, and the depth limit.
pub struct FileView {
    pub t: Seq<NodeView>,
    pub src: Seq<char>,
    pub path: Seq<char>,
    pub language: Language,
    pub scope: ScopeView,
    pub limit: nat,
}

/// A file under extraction.
pub struct File<'a> {
    pub nodes: &'a Vec<SyntaxNode>,
    pub source: &'a str,
    pub path: &'a str,
    pub language: Language,
    pub imports: &'a Imports,
    pub limit: usize,
}

impl<'a> DeepView for File<'a> {
    type V = FileView;

    open spec fn deep_view(&self) -> FileView {
        FileView {
            t: self.nodes.deep_view(),
            src: self.source@,
            path: self.path@,
            language: self.language,
            scope: self.imports.deep_view(),
            limit: self.limit as nat,
        }
    }
}

/// The identifier of the file's module atom.
pub open spec fn module_id(path: Seq<char>) -> Seq<char> {
    "code:"@ + path
}

/// The identifier of an item of the file.
pub open spec fn item_id(path: Seq<char>, kind: Seq<char>, name: Seq<char>) -> Seq<char> {
    "code:"@ + path + "::"@ + kind + "::"@ + name
}

/// The hash of an item's text.
pub open spec fn text_hash(text: Seq<char>) -> Seq<char> {
    "sha256:"@ + hex(sha256_of(encode_utf8(text)))
}

/// The signature of a Dart function, getter or setter in the signature of a
/// method.
pub open spec fn inner_signature(t: Seq<NodeView>, i: int) -> Option<int> {
    match first_of_kind(t, children(t, i), "function_signature"@) {
        Some(k) => Some(k),
        None => match first_of_kind(t, children(t, i), "getter_signature"@) {
            Some(k) => Some(k),
            None => first_of_kind(t, children(t, i), "setter_signature"@),
        },
    }
}

/// The name of a Dart declaration that does not hold it itself: that of its
/// signature, and for a `typedef` the type that it names.
pub open spec fn dart_name(t: Seq<NodeView>, i: int) -> Option<int> {
    match field_of(t, i, "signature"@) {
        Some(s) => match field_of(t, s, "name"@) {
            Some(k) => Some(k),
            None => match inner_signature(t, s) {
                Some(q) => field_of(t, q, "name"@),
                None => None,
            },
        },
        None => if t[i].kind == "type_alias"@ {
            first_of_kind(t, children(t, i), "type_identifier"@)
        } else {
            None
        },
    }
}

/// The name that a definition declares.
pub open spec fn declared_name(f: FileView, i: int) -> Option<Seq<char>> {
    match field_of(f.t, i, "name"@) {
        Some(k) => text_of(f.src, f.t[k]),
        None => match f.language {
            Language::Dart => match dart_name(f.t, i) {
                Some(k) => text_of(f.src, f.t[k]),
                None => None,
            },
            _ => None,
        },
    }
}

/// The name of an item: for an `impl` block its type, after the trait it
/// implements.
pub open spec fn item_name(f: FileView, i: int) -> Option<Seq<char>> {
    if f.t[i].kind == "impl_item"@ {
        match field_text(f.t, f.src, i, "type"@) {
            Some(ty) => match field_of(f.t, i, "trait"@) {
                Some(k) => match text_of(f.src, f.t[k]) {
                    Some(tr) => Some(tr + " for "@ + ty),
                    None => None,
                },
                None => Some(ty),
            },
            None => None,
        }
    } else {
        declared_name(f, i)
    }
}

/// The doc text of an item.
pub open spec fn doc_of(f: FileView, i: int) -> Seq<char> {
    match f.language {
        Language::Rust => crate::parser::rust::doc_above(f.src, f.t[i].start_row as int),
        Language::Python => crate::parser::python::docstring_of(f.t, f.src, i),
        Language::Dart => crate::parser::rust::doc_above(f.src, f.t[i].start_row as int),
    }
}

/// The definition that a captured node stands for: decorated definitions are
/// unwrapped.
pub open spec fn definition_of(f: FileView, i: int) -> Option<int>
    decreases f.t.len() - i,
    when 0 <= i < f.t.len()
{
    if !is_item_kind(f.language, f.t[i].kind) {
        None
    } else if f.t[i].kind == "decorated_definition"@ {
        match field_of(f.t, i, "definition"@) {
            Some(k) => if i < k < f.t.len() {
                definition_of(f, k)
            } else {
                None
            },
            None => None,
        }
    } else {
        Some(i)
    }
}

/// The call sites of an item: only functions have any.
pub open spec fn item_calls(f: FileView, i: int) -> CallsView {
    if f.t[i].kind == "function_item"@ || f.t[i].kind == "function_definition"@ || f.t[i].kind
        == "function_declaration"@ {
        sites_in(f.language.spec_grammar(), f.t, f.src, f.scope, f.limit, i)
    } else {
        CallsView::empty()
    }
}

/// The atom of the definition at node `i`, of the given kind and name.
pub open spec fn atom_at(
    f: FileView,
    i: int,
    id: Seq<char>,
    kind: Seq<char>,
    name: Seq<char>,
    calls: CallsView,
    parent: Option<Seq<char>>,
) -> AtomView {
    let text = text_or_empty(f.src, f.t[i]);
    AtomView {
        id,
        kind,
        name,
        file_path: f.path,
        line_start: line_of(f.t[i].start_row),
        line_end: line_of(f.t[i].end_row),
        doc: doc_of(f, i),
        signature: signature_of(text),
        content_hash: text_hash(text),
        calls: calls.calls,
        method_calls: calls.method_calls,
        parent,
    }
}

/// The atom of the captured top-level node `i`.
pub open spec fn item_at(f: FileView, i: int) -> Option<AtomView> {
    match definition_of(f, i) {
        None => None,
        Some(d) => match (atom_kind(f.language, f.t[d].kind), item_name(f, d)) {
            (Some(kind), Some(name)) => Some(
                atom_at(f, d, item_id(f.path, kind, name), kind, name, item_calls(f, d), None),
            ),
            _ => None,
        },
    }
}

/// The names of a list of call sites, each once, in order of first appearance.
pub open spec fn distinct_names(sites: Seq<CallSiteView>) -> Seq<Seq<char>>
    decreases sites.len(),
{
    if sites.len() == 0 {
        Seq::empty()
    } else {
        let rest = distinct_names(sites.drop_last());
        if rest.contains(sites.last().name) {
            rest
        } else {
            rest.push(sites.last().name)
        }
    }
}

// ── Methods ──────────────────────────────────────────────────────────────────

/// Whether nodes of a kind are methods in a container's body.
pub open spec fn is_method_kind(language: Language, kind: Seq<char>) -> bool {
    match language {
        Language::Rust => kind == "function_item"@,
        Language::Python => kind == "function_definition"@ || kind == "decorated_definition"@,
        Language::Dart => kind == "class_member"@,
    }
}

/// The definition of a method: decorated definitions and class members are
/// unwrapped once.
pub open spec fn method_definition(f: FileView, i: int) -> Option<int> {
    if f.t[i].kind == "decorated_definition"@ {
        field_of(f.t, i, "definition"@)
    } else if f.t[i].kind == "class_member"@ {
        first_of_kind(f.t, children(f.t, i), "method_declaration"@)
    } else {
        Some(i)
    }
}

/// The atom of the method at node `i` of a container.
pub open spec fn method_at(f: FileView, i: int, container: Seq<char>, owner: Seq<char>) -> Option<
    AtomView,
> {
    if !is_method_kind(f.language, f.t[i].kind) {
        None
    } else {
        match method_definition(f, i) {
            None => None,
            Some(d) => match declared_name(f, d) {
                None => None,
                Some(name) => Some(
                    atom_at(
                        f,
                        d,
                        item_id(f.path, "function"@, container + "::"@ + name),
                        "function"@,
                        name,
                        sites_in(f.language.spec_grammar(), f.t, f.src, f.scope, f.limit, d),
                        Some(owner),
                    ),
                ),
            },
        }
    }
}

/// The method atoms among the nodes `cs` of a container.
pub open spec fn methods_in(
    f: FileView,
    cs: Seq<int>,
    container: Seq<char>,
    owner: Seq<char>,
) -> Seq<AtomView>
    decreases cs.len(),
{
    if cs.len() == 0 {
        Seq::empty()
    } else {
        let rest = methods_in(f, cs.drop_last(), container, owner);
        match method_at(f, cs.last(), container, owner) {
            Some(a) => rest.push(a),
            None => rest,
        }
    }
}

/// The method atoms of the container at node `i`: those in its body.
pub open spec fn methods_of(f: FileView, i: int, container: Seq<char>, owner: Seq<char>) -> Seq<
    AtomView,
> {
    match field_of(f.t, i, "body"@) {
        Some(b) => methods_in(f, children(f.t, b), container, owner),
        None => Seq::empty(),
    }
}

/// Names and identifiers of a list of atoms.
pub open spec fn named_ids(atoms: Seq<AtomView>) -> Seq<(Seq<char>, Seq<char>)> {
    Seq::new(atoms.len(), |k: int| (atoms[k].name, atoms[k].id))
}

/// The sibling method that a call inside a container can mean: `foo`,
/// `Self::foo`, `<container>::foo` and `<owner>::foo` all mean `foo`.
pub open spec fn sibling_name(
    call: Seq<char>,
    container: Seq<char>,
    owner: Seq<char>,
) -> Option<Seq<char>> {
    match after_prefix(call, "Self::"@) {
        Some(rest) => Some(rest),
        None => if !occurs(call, "::"@) {
            Some(call)
        } else {
            match after_prefix(call, container + "::"@) {
                Some(rest) => Some(rest),
                None => after_prefix(call, owner + "::"@),
            }
        },
    }
}

/// The identifier that a call inside a container is linked to.
pub open spec fn sibling_target(
    ids: Seq<(Seq<char>, Seq<char>)>,
    call: Seq<char>,
    container: Seq<char>,
    owner: Seq<char>,
) -> Option<Seq<char>> {
    match sibling_name(call, container, owner) {
        Some(name) => lookup(ids, name),
        None => None,
    }
}

/// The call edges from `from` to the siblings that `names` mean.
pub open spec fn sibling_edges(
    ids: Seq<(Seq<char>, Seq<char>)>,
    from: Seq<char>,
    names: Seq<Seq<char>>,
    container: Seq<char>,
    owner: Seq<char>,
) -> Seq<EdgeView>
    decreases names.len(),
{
    if names.len() == 0 {
        Seq::empty()
    } else {
        let rest = sibling_edges(ids, from, names.drop_last(), container, owner);
        match sibling_target(ids, names.last(), container, owner) {
            Some(to) => if to != from {
                rest.push(EdgeView::plain(from, to, EdgeKind::Calls))
            } else {
                rest
            },
            None => rest,
        }
    }
}

/// The edges that one method brings: its container contains it, and it calls
/// its siblings.
pub open spec fn method_edges(
    ids: Seq<(Seq<char>, Seq<char>)>,
    container_id: Seq<char>,
    container: Seq<char>,
    owner: Seq<char>,
    m: AtomView,
) -> Seq<EdgeView> {
    seq![EdgeView::plain(container_id, m.id, EdgeKind::Contains)] + sibling_edges(
        ids,
        m.id,
        distinct_names(m.calls) + distinct_names(m.method_calls),
        container,
        owner,
    )
}

/// The edges that the first `n` methods bring.
pub open spec fn methods_edges(
    ids: Seq<(Seq<char>, Seq<char>)>,
    container_id: Seq<char>,
    container: Seq<char>,
    owner: Seq<char>,
    ms: Seq<AtomView>,
    n: int,
) -> Seq<EdgeView>
    decreases n,
{
    if n <= 0 {
        Seq::empty()
    } else {
        methods_edges(ids, container_id, container, owner, ms, n - 1) + method_edges(
            ids,
            container_id,
            container,
            owner,
            ms[n - 1],
        )
    }
}

// ── Units ────────────────────────────────────────────────────────────────────

/// The container that a captured top-level node is: its atom's name, and the
/// type that its methods belong to.
pub open spec fn container_of(f: FileView, i: int, name: Seq<char>) -> Option<
    (Seq<char>, Seq<char>),
> {
    match f.language {
        Language::Rust => if f.t[i].kind == "impl_item"@ {
            Some((name, owner_type(name)))
        } else {
            None
        },
        Language::Python => if f.t[i].kind == "class_definition"@ {
            Some((name, name))
        } else {
            None
        },
        Language::Dart => if is_dart_container(f.t[i].kind) {
            Some((name, name))
        } else {
            None
        },
    }
}

/// The methods of a captured top-level node.
pub open spec fn lifted(f: FileView, i: int, name: Seq<char>) -> Seq<AtomView> {
    match container_of(f, i, name) {
        Some((container, owner)) => methods_of(f, i, container, owner),
        None => Seq::empty(),
    }
}

/// The edges of the methods of a captured top-level node.
pub open spec fn lifted_edges(f: FileView, i: int, a: AtomView) -> Seq<EdgeView> {
    match container_of(f, i, a.name) {
        Some((container, owner)) => {
            let ms = methods_of(f, i, container, owner);
            methods_edges(named_ids(ms), a.id, container, owner, ms, ms.len() as int)
        },
        None => Seq::empty(),
    }
}

/// What the captured top-level nodes `cs` bring: the top-level atoms, all
/// atoms, and the edges but for the calls between top-level items.
#[verifier::ext_equal]
pub struct ItemsView {
    pub tops: Seq<AtomView>,
    pub atoms: Seq<AtomView>,
    pub edges: Seq<EdgeView>,
}

/// What the captured top-level nodes `cs` bring.
pub open spec fn items_in(f: FileView, cs: Seq<int>) -> ItemsView
    decreases cs.len(),
{
    if cs.len() == 0 {
        ItemsView { tops: Seq::empty(), atoms: Seq::empty(), edges: Seq::empty() }
    } else {
        let rest = items_in(f, cs.drop_last());
        let i = cs.last();
        match item_at(f, i) {
            None => rest,
            Some(a) => ItemsView {
                tops: rest.tops.push(a),
                atoms: rest.atoms.push(a) + lifted(f, i, a.name),
                edges: rest.edges.push(
                    EdgeView::plain(module_id(f.path), a.id, EdgeKind::Contains),
                ) + lifted_edges(f, i, a),
            },
        }
    }
}

/// The call edges from `from` to the top-level items that `names` mean: bare
/// names only.
pub open spec fn local_edges(
    ids: Seq<(Seq<char>, Seq<char>)>,
    from: Seq<char>,
    names: Seq<Seq<char>>,
) -> Seq<EdgeView>
    decreases names.len(),
{
    if names.len() == 0 {
        Seq::empty()
    } else {
        let rest = local_edges(ids, from, names.drop_last());
        if occurs(names.last(), "::"@) {
            rest
        } else {
            match lookup(ids, names.last()) {
                Some(to) => if to != from {
                    rest.push(EdgeView::plain(from, to, EdgeKind::Calls))
                } else {
                    rest
                },
                None => rest,
            }
        }
    }
}

/// The call edges from the first `n` atoms to top-level items.
pub open spec fn file_edges(
    ids: Seq<(Seq<char>, Seq<char>)>,
    atoms: Seq<AtomView>,
    n: int,
) -> Seq<EdgeView>
    decreases n,
{
    if n <= 0 {
        Seq::empty()
    } else {
        file_edges(ids, atoms, n - 1) + local_edges(
            ids,
            atoms[n - 1].id,
            distinct_names(atoms[n - 1].calls),
        )
    }
}

/// The module atom of a file.
pub open spec fn module_atom(f: FileView) -> AtomView {
    AtomView {
        id: module_id(f.path),
        kind: "module"@,
        name: stem(f.path),
        file_path: f.path,
        line_start: 1,
        line_end: line_of(f.t[0].end_row),
        doc: Seq::empty(),
        signature: Seq::empty(),
        content_hash: hex(sha256_of(encode_utf8(f.src))),
        calls: Seq::empty(),
        method_calls: Seq::empty(),
        parent: None,
    }
}

/// The atoms and edges of a file.
pub open spec fn unit_of(f: FileView) -> UnitView {
    let items = items_in(f, children(f.t, 0));
    UnitView {
        atoms: seq![module_atom(f)] + items.atoms,
        edges: items.edges + file_edges(
            named_ids(items.tops),
            items.atoms,
            items.atoms.len() as int,
        ),
    }
}

} // verus!
