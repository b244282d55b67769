//! What the unit of a file says of its source: which definitions become atoms,
//! and which calls become call sites.

use crate::chars::{lemma_find_from, occurs, occurs_at, trimmed};
use crate::hash::{hex, sha256_of};
use crate::model::{AtomView, CallSiteView};
use crate::parser::calls::{site_at, sites_below, sites_in};
use crate::parser::language::Language;
use crate::parser::links::{law_all_items, names_site};
use crate::parser::python::field_text;
use crate::parser::scope::{lookup, ScopeView};
use crate::parser::tree::{
    above, children, children_below, end_of, field_of, is_child, lemma_run_end, parent_of, text_of,
    text_or_empty, NodeView,
};
use crate::parser::treesitter::Grammar;
use crate::parser::unit::{
    definition_of, item_at, items_in, lifted, method_at, methods_in, owner_type, unit_of, FileView,
};
use vstd::prelude::*;
use vstd::utf8::encode_utf8;

verus! {

// ── Trees ────────────────────────────────────────────────────────────────────

/// A node is the parent of its children.
pub proof fn law_parent(t: Seq<NodeView>, i: int, j: int)
    requires
        0 <= i < t.len(),
        is_child(t, i, j),
    ensures
        parent_of(t, j) == Some(i),
        i < j < t.len(),
{
    lemma_run_end(t, t[i].depth, i + 1);
    lemma_above(t, i, j, j);
}

proof fn lemma_above(t: Seq<NodeView>, i: int, j: int, k: int)
    requires
        0 <= i < k <= j < t.len(),
        t[j].depth == t[i].depth + 1,
        forall|q: int| i < q < j ==> (#[trigger] t[q]).depth > t[i].depth,
    ensures
        above(t, t[j].depth, k) == Some(i),
    decreases k,
{
    if k - 1 > i {
        assert(t[k - 1].depth > t[i].depth);
        lemma_above(t, i, j, k - 1);
    }
}

proof fn lemma_children_below(t: Seq<NodeView>, i: int, hi: int, j: int)
    requires
        hi <= end_of(t, i),
    ensures
        children_below(t, i, hi).contains(j) <==> is_child(t, i, j) && j < hi,
    decreases hi - i,
{
    if hi > i + 1 {
        lemma_children_below(t, i, hi - 1, j);
        crate::keys::lemma_push_contains(children_below(t, i, hi - 1), hi - 1);
    }
}

/// The children of a node are the nodes of its subtree that are one level below
/// it.
pub proof fn law_children(t: Seq<NodeView>, i: int, j: int)
    ensures
        children(t, i).contains(j) <==> is_child(t, i, j),
{
    lemma_children_below(t, i, end_of(t, i), j);
}

// ── Call sites ───────────────────────────────────────────────────────────────

proof fn lemma_site_kept(sites: Seq<CallSiteView>, site: CallSiteView, name: Seq<char>)
    ensures
        names_site(sites, name) || site.name == name ==> names_site(sites.push(site), name),
{
    if names_site(sites, name) {
        let k = choose|k: int| 0 <= k < sites.len() && (#[trigger] sites[k]).name == name;
        assert(sites.push(site)[k].name == name);
    }
    if site.name == name {
        assert(sites.push(site)[sites.len() as int].name == name);
    }
}

proof fn lemma_sites_have(
    grammar: Grammar,
    t: Seq<NodeView>,
    src: Seq<char>,
    s: ScopeView,
    limit: nat,
    top: int,
    hi: int,
    j: int,
)
    requires
        top <= j < hi,
        site_at(grammar, t, src, s, j, limit) is Some,
    ensures
        ({
            let (method, name) = site_at(grammar, t, src, s, j, limit)->0;
            let c = sites_below(grammar, t, src, s, limit, top, hi);
            names_site(
                if method {
                    c.method_calls
                } else {
                    c.calls
                },
                name,
            )
        }),
    decreases hi - top,
{
    let rest = sites_below(grammar, t, src, s, limit, top, hi - 1);
    let now = sites_below(grammar, t, src, s, limit, top, hi);
    let (method, name) = site_at(grammar, t, src, s, j, limit)->0;
    if j < hi - 1 {
        lemma_sites_have(grammar, t, src, s, limit, top, hi - 1, j);
    }
    if let Some((m, n)) = site_at(grammar, t, src, s, hi - 1, limit) {
        if m {
            assert(now.calls == rest.calls);
            lemma_site_kept(rest.method_calls, now.method_calls.last(), name);
            assert(rest.method_calls.push(now.method_calls.last()) =~= now.method_calls);
        } else {
            assert(now.method_calls == rest.method_calls);
            lemma_site_kept(rest.calls, now.calls.last(), name);
            assert(rest.calls.push(now.calls.last()) =~= now.calls);
        }
    }
}

/// Whether a table gives a name a value: the last entry for the name counts.
pub open spec fn gives(m: Seq<(Seq<char>, Seq<char>)>, name: Seq<char>, value: Seq<char>) -> bool {
    exists|i: int| #[trigger] gives_at(m, name, value, i)
}

/// Whether an entry of a table is the last one for a name.
pub open spec fn gives_at(
    m: Seq<(Seq<char>, Seq<char>)>,
    name: Seq<char>,
    value: Seq<char>,
    i: int,
) -> bool {
    &&& 0 <= i < m.len()
    &&& m[i] == (name, value)
    &&& forall|k: int| i < k < m.len() ==> (#[trigger] m[k]).0 != name
}

/// Whether a table says nothing of a name.
pub open spec fn silent(m: Seq<(Seq<char>, Seq<char>)>, name: Seq<char>) -> bool {
    forall|k: int| 0 <= k < m.len() ==> (#[trigger] m[k]).0 != name
}

/// A lookup finds the last value that a table gives a name.
pub proof fn law_lookup(m: Seq<(Seq<char>, Seq<char>)>, name: Seq<char>, value: Seq<char>)
    ensures
        gives(m, name, value) ==> lookup(m, name) == Some(value),
        silent(m, name) ==> lookup(m, name) is None,
    decreases m.len(),
{
    if m.len() > 0 {
        let front = m.drop_last();
        law_lookup(front, name, value);
        if gives(m, name, value) {
            let i = choose|i: int| #[trigger] gives_at(m, name, value, i);
            if i < front.len() {
                assert(m[m.len() - 1].0 != name);
                assert(front[i] == m[i]);
                assert forall|k: int| i < k < front.len() implies (#[trigger] front[k]).0 != name by {
                    assert(m[k].0 != name);
                }
                assert(gives_at(front, name, value, i));
            }
        }
        if silent(m, name) {
            assert(m[m.len() - 1].0 != name);
            assert forall|k: int| 0 <= k < front.len() implies (#[trigger] front[k]).0 != name by {
                assert(m[k].0 != name);
            }
        }
    }
}

/// Whether a node is what a call node calls.
pub open spec fn is_called(t: Seq<NodeView>, call_kind: Seq<char>, c: int, j: int) -> bool {
    &&& 0 <= c < t.len()
    &&& t[c].kind == call_kind
    &&& is_child(t, c, j)
    &&& t[j].field == Some("function"@)
}

/// A call of a bare name in a body is a call site: under the path that an import
/// gives the name, or under the name itself where there is none. In Rust a call
/// of a qualified name is one under that name.
pub proof fn law_bare_calls(
    grammar: Grammar,
    t: Seq<NodeView>,
    src: Seq<char>,
    s: ScopeView,
    limit: nat,
    top: int,
    c: int,
    j: int,
    text: Seq<char>,
    path: Seq<char>,
)
    requires
        is_called(
            t,
            if grammar is Python {
                "call"@
            } else {
                "call_expression"@
            },
            c,
            j,
        ),
        top <= j < end_of(t, top),
        text_of(src, t[j]) == Some(text),
        text.len() > 0,
    ensures
        t[j].kind == "identifier"@ && gives(s.symbols, text, path) ==> names_site(
            sites_in(grammar, t, src, s, limit, top).calls,
            path,
        ),
        t[j].kind == "identifier"@ && silent(s.symbols, text) ==> names_site(
            sites_in(grammar, t, src, s, limit, top).calls,
            text,
        ),
        grammar is Rust && t[j].kind == "scoped_identifier"@ ==> names_site(
            sites_in(grammar, t, src, s, limit, top).calls,
            text,
        ),
{
    law_parent(t, c, j);
    law_lookup(s.symbols, text, path);
    reveal_strlit("identifier");
    reveal_strlit("scoped_identifier");
    assert("identifier"@.len() == 10 && "scoped_identifier"@.len() == 17);
    if site_at(grammar, t, src, s, j, limit) is Some {
        lemma_sites_have(grammar, t, src, s, limit, top, end_of(t, top), j);
    }
}

/// A call of a method in a Rust body is a call site whose receiver is unknown,
/// under the name of the method.
pub proof fn law_rust_method_calls(
    t: Seq<NodeView>,
    src: Seq<char>,
    s: ScopeView,
    limit: nat,
    top: int,
    c: int,
    p: int,
    j: int,
    text: Seq<char>,
)
    requires
        is_called(t, "call_expression"@, c, p),
        t[p].kind == "field_expression"@,
        is_child(t, p, j),
        t[j].field == Some("field"@),
        t[j].kind == "field_identifier"@,
        top <= j < end_of(t, top),
        text_of(src, t[j]) == Some(text),
        text.len() > 0,
    ensures
        names_site(sites_in(Grammar::Rust, t, src, s, limit, top).method_calls, text),
{
    law_parent(t, c, p);
    law_parent(t, p, j);
    reveal_strlit("identifier");
    reveal_strlit("scoped_identifier");
    reveal_strlit("field_identifier");
    assert("identifier"@.len() == 10 && "scoped_identifier"@.len() == 17
        && "field_identifier"@.len() == 16);
    assert(site_at(Grammar::Rust, t, src, s, j, limit) == Some((true, text)));
    lemma_sites_have(Grammar::Rust, t, src, s, limit, top, end_of(t, top), j);
}

/// A call through a name in a Python body is a call site: qualified by the module
/// that the name was imported for, or one whose receiver is unknown.
pub proof fn law_python_member_calls(
    t: Seq<NodeView>,
    src: Seq<char>,
    s: ScopeView,
    limit: nat,
    top: int,
    c: int,
    j: int,
    object: int,
    root: Seq<char>,
    method: Seq<char>,
    module: Seq<char>,
)
    requires
        is_called(t, "call"@, c, j),
        t[j].kind == "attribute"@,
        field_text(t, src, j, "attribute"@) == Some(method),
        field_of(t, j, "object"@) == Some(object),
        t[object].kind == "identifier"@,
        text_of(src, t[object]) == Some(root),
        limit > 0,
        top <= j < end_of(t, top),
    ensures
        gives(s.modules, root, module) ==> names_site(
            sites_in(Grammar::Python, t, src, s, limit, top).calls,
            module + "::"@ + method,
        ),
        silent(s.modules, root) ==> names_site(
            sites_in(Grammar::Python, t, src, s, limit, top).method_calls,
            method,
        ),
{
    law_parent(t, c, j);
    law_lookup(s.modules, root, module);
    reveal_strlit("identifier");
    reveal_strlit("attribute");
    assert("identifier"@.len() == 10 && "attribute"@.len() == 9);
    lemma_sites_have(Grammar::Python, t, src, s, limit, top, end_of(t, top), j);
}

/// Whether a site is that of a callee below a node.
pub open spec fn is_site_of(
    grammar: Grammar,
    t: Seq<NodeView>,
    src: Seq<char>,
    s: ScopeView,
    limit: nat,
    method: bool,
    site: CallSiteView,
    j: int,
) -> bool {
    site_at(grammar, t, src, s, j, limit) == Some((method, site.name))
}

/// Whether a site is that of one of the callees among some nodes.
pub open spec fn has_callee(
    grammar: Grammar,
    t: Seq<NodeView>,
    src: Seq<char>,
    s: ScopeView,
    limit: nat,
    method: bool,
    site: CallSiteView,
    top: int,
    hi: int,
) -> bool {
    exists|j: int|
        top <= j < hi && #[trigger] is_site_of(grammar, t, src, s, limit, method, site, j)
}

proof fn lemma_sites_only(
    grammar: Grammar,
    t: Seq<NodeView>,
    src: Seq<char>,
    s: ScopeView,
    limit: nat,
    top: int,
    hi: int,
    method: bool,
    k: int,
)
    requires
        0 <= k < (if method {
            sites_below(grammar, t, src, s, limit, top, hi).method_calls
        } else {
            sites_below(grammar, t, src, s, limit, top, hi).calls
        }).len(),
    ensures
        has_callee(
            grammar,
            t,
            src,
            s,
            limit,
            method,
            (if method {
                sites_below(grammar, t, src, s, limit, top, hi).method_calls
            } else {
                sites_below(grammar, t, src, s, limit, top, hi).calls
            })[k],
            top,
            hi,
        ),
    decreases hi - top,
{
    let rest = sites_below(grammar, t, src, s, limit, top, hi - 1);
    let now = sites_below(grammar, t, src, s, limit, top, hi);
    let a = if method {
        rest.method_calls
    } else {
        rest.calls
    };
    let b = if method {
        now.method_calls
    } else {
        now.calls
    };
    if k < a.len() {
        lemma_sites_only(grammar, t, src, s, limit, top, hi - 1, method, k);
        assert(a[k] == b[k]);
        let j = choose|j: int|
            top <= j < hi - 1 && #[trigger] is_site_of(grammar, t, src, s, limit, method, a[k], j);
        assert(is_site_of(grammar, t, src, s, limit, method, b[k], j));
    } else {
        assert(is_site_of(grammar, t, src, s, limit, method, b[k], hi - 1));
    }
}

/// Whether a node is what a call calls, or the member of what it calls.
pub open spec fn is_in_call(grammar: Grammar, t: Seq<NodeView>, j: int) -> bool {
    let call = if grammar is Python {
        "call"@
    } else {
        "call_expression"@
    };
    ||| t[j].field == Some("function"@) && parent_of(t, j) is Some && t[parent_of(t, j)->0].kind
        == call
    ||| grammar is Rust && t[j].field == Some("field"@) && parent_of(t, j) is Some && ({
        let p = parent_of(t, j)->0;
        t[p].kind == "field_expression"@ && t[p].field == Some("function"@) && parent_of(t, p)
            is Some && t[parent_of(t, p)->0].kind == call
    })
}

/// Whether there is a call below a node whose callee has a site.
pub open spec fn some_call(grammar: Grammar, t: Seq<NodeView>, top: int) -> bool {
    exists|j: int| top <= j < end_of(t, top) && #[trigger] is_in_call(grammar, t, j)
}

/// There are call sites only where there are calls: a body without calls has
/// none.
pub proof fn law_sites_are_calls(
    grammar: Grammar,
    t: Seq<NodeView>,
    src: Seq<char>,
    s: ScopeView,
    limit: nat,
    top: int,
)
    ensures
        sites_in(grammar, t, src, s, limit, top).calls.len() > 0 ==> some_call(grammar, t, top),
        sites_in(grammar, t, src, s, limit, top).method_calls.len() > 0 ==> some_call(
            grammar,
            t,
            top,
        ),
{
    let hi = end_of(t, top);
    let c = sites_in(grammar, t, src, s, limit, top);
    if c.calls.len() > 0 {
        lemma_sites_only(grammar, t, src, s, limit, top, hi, false, 0);
        let j = choose|j: int|
            top <= j < hi && #[trigger] is_site_of(
                grammar,
                t,
                src,
                s,
                limit,
                false,
                c.calls[0],
                j,
            );
        assert(is_in_call(grammar, t, j));
    }
    if c.method_calls.len() > 0 {
        lemma_sites_only(grammar, t, src, s, limit, top, hi, true, 0);
        let j = choose|j: int|
            top <= j < hi && #[trigger] is_site_of(
                grammar,
                t,
                src,
                s,
                limit,
                true,
                c.method_calls[0],
                j,
            );
        assert(is_in_call(grammar, t, j));
    }
}

// ── Definitions ──────────────────────────────────────────────────────────────

/// Whether a node of a kind that has a name defines an item of a kind.
pub open spec fn defines(language: Language, node: Seq<char>, kind: Seq<char>) -> bool {
    match language {
        Language::Rust => {
            ||| node == "function_item"@ && kind == "function"@
            ||| node == "struct_item"@ && kind == "struct"@
            ||| node == "trait_item"@ && kind == "trait"@
            ||| node == "enum_item"@ && kind == "enum"@
            ||| node == "type_item"@ && kind == "type_alias"@
            ||| node == "const_item"@ && kind == "const"@
            ||| node == "static_item"@ && kind == "static"@
            ||| node == "macro_definition"@ && kind == "macro"@
        },
        Language::Python => {
            ||| node == "function_definition"@ && kind == "function"@
            ||| node == "class_definition"@ && kind == "struct"@
        },
        Language::Dart => {
            ||| node == "class_declaration"@ && kind == "struct"@
            ||| node == "enum_declaration"@ && kind == "enum"@
        },
    }
}

/// Whether an atom is the item of a kind and a name that a node at the top level
/// defines.
pub open spec fn is_item_at(
    f: FileView,
    i: int,
    kind: Seq<char>,
    name: Seq<char>,
    a: AtomView,
) -> bool {
    &&& a.kind == kind
    &&& a.name == name
    &&& a.id == "code:"@ + f.path + "::"@ + kind + "::"@ + name
    &&& a.parent is None
    &&& is_source_of(f, i, a)
    &&& kind != "function"@ ==> a.calls.len() == 0 && a.method_calls.len() == 0
}

/// Whether an atom is the method of a name that a node in the body of a container
/// defines.
pub open spec fn is_method_at(
    f: FileView,
    i: int,
    container: Seq<char>,
    owner: Seq<char>,
    name: Seq<char>,
    a: AtomView,
) -> bool {
    &&& a.kind == "function"@
    &&& a.name == name
    &&& a.id == "code:"@ + f.path + "::function::"@ + container + "::"@ + name
    &&& a.parent == Some(owner)
    &&& is_source_of(f, i, a)
}

/// Whether an atom is taken from a node: its file, its lines, the digest of its
/// text, and the calls in it where it is a function.
pub open spec fn is_source_of(f: FileView, i: int, a: AtomView) -> bool {
    &&& a.file_path == f.path
    &&& a.kind == "function"@ ==> a.calls == sites_in(
        f.language.spec_grammar(),
        f.t,
        f.src,
        f.scope,
        f.limit,
        i,
    ).calls && a.method_calls == sites_in(
        f.language.spec_grammar(),
        f.t,
        f.src,
        f.scope,
        f.limit,
        i,
    ).method_calls
    &&& f.t[i].start_row < u32::MAX ==> a.line_start == f.t[i].start_row + 1
    &&& f.t[i].end_row < u32::MAX ==> a.line_end == f.t[i].end_row + 1
    &&& a.content_hash == "sha256:"@ + hex(
        sha256_of(encode_utf8(text_or_empty(f.src, f.t[i]))),
    )
}

proof fn lemma_kinds(language: Language, node: Seq<char>, kind: Seq<char>)
    requires
        defines(language, node, kind),
    ensures
        crate::parser::language::is_item_kind(language, node),
        crate::parser::language::atom_kind(language, node) == Some(kind),
        node != "decorated_definition"@,
        node != "impl_item"@,
{
    reveal_strlit("function_item");
    reveal_strlit("struct_item");
    reveal_strlit("trait_item");
    reveal_strlit("impl_item");
    reveal_strlit("enum_item");
    reveal_strlit("type_item");
    reveal_strlit("const_item");
    reveal_strlit("static_item");
    reveal_strlit("macro_definition");
    reveal_strlit("function_definition");
    reveal_strlit("class_definition");
    reveal_strlit("decorated_definition");
    reveal_strlit("function_declaration");
    reveal_strlit("class_declaration");
    reveal_strlit("mixin_declaration");
    reveal_strlit("extension_declaration");
    reveal_strlit("enum_declaration");
    assert("function_item"@[0] == 'f' && "struct_item"@[2] == 'r' && "trait_item"@[2] == 'a');
    assert("impl_item"@[0] == 'i' && "enum_item"@[0] == 'e' && "type_item"@[1] == 'y');
    assert("const_item"@[0] == 'c' && "static_item"@[2] == 'a' && "macro_definition"@[0] == 'm');
    assert("struct_item"@[0] == 's' && "static_item"@[0] == 's' && "trait_item"@[0] == 't'
        && "type_item"@[0] == 't' && "trait_item"@[1] == 'r');
    assert("function_definition"@[0] == 'f' && "class_definition"@[0] == 'c'
        && "decorated_definition"@[0] == 'd');
    assert("function_declaration"@[0] == 'f' && "class_declaration"@[0] == 'c'
        && "mixin_declaration"@[0] == 'm' && "extension_declaration"@[1] == 'x'
        && "enum_declaration"@[1] == 'n' && "enum_declaration"@[0] == 'e');
}

proof fn lemma_functions(language: Language, node: Seq<char>, kind: Seq<char>)
    requires
        defines(language, node, kind),
    ensures
        kind == "function"@ <==> node == "function_item"@ || node == "function_definition"@ || node
            == "function_declaration"@,
{
    reveal_strlit("function");
    reveal_strlit("struct");
    reveal_strlit("trait");
    reveal_strlit("enum");
    reveal_strlit("type_alias");
    reveal_strlit("const");
    reveal_strlit("static");
    reveal_strlit("macro");
    assert("function"@[0] == 'f' && "struct"@[0] == 's' && "trait"@[0] == 't' && "enum"@[0] == 'e'
        && "type_alias"@[0] == 't' && "const"@[0] == 'c' && "static"@[0] == 's' && "macro"@[0]
        == 'm');
    reveal_strlit("function_item");
    reveal_strlit("struct_item");
    reveal_strlit("trait_item");
    reveal_strlit("enum_item");
    reveal_strlit("type_item");
    reveal_strlit("const_item");
    reveal_strlit("static_item");
    reveal_strlit("macro_definition");
    reveal_strlit("function_definition");
    reveal_strlit("class_definition");
    reveal_strlit("function_declaration");
    reveal_strlit("class_declaration");
    reveal_strlit("enum_declaration");
    assert("function_item"@[0] == 'f' && "function_definition"@[0] == 'f'
        && "function_declaration"@[0] == 'f');
    assert("struct_item"@[0] == 's' && "trait_item"@[0] == 't' && "enum_item"@[0] == 'e'
        && "type_item"@[0] == 't' && "const_item"@[0] == 'c' && "static_item"@[0] == 's'
        && "macro_definition"@[0] == 'm' && "class_definition"@[0] == 'c' && "class_declaration"@[0]
        == 'c' && "enum_declaration"@[0] == 'e');
}

/// A definition at the top level of a file becomes an atom of its kind, under its
/// name, with its lines and the digest of its text.
pub proof fn law_definitions(f: FileView, i: int, k: int, kind: Seq<char>, name: Seq<char>)
    requires
        f.t.len() > 0,
        is_child(f.t, 0, i),
        defines(f.language, f.t[i].kind, kind),
        field_of(f.t, i, "name"@) == Some(k),
        text_of(f.src, f.t[k]) == Some(name),
    ensures
        exists|q: int|
            0 < q < unit_of(f).atoms.len() && is_item_at(
                f,
                i,
                kind,
                name,
                #[trigger] unit_of(f).atoms[q],
            ),
{
    let cs = children(f.t, 0);
    law_children(f.t, 0, i);
    lemma_run_end(f.t, f.t[0].depth, 1);
    lemma_kinds(f.language, f.t[i].kind, kind);
    lemma_functions(f.language, f.t[i].kind, kind);
    let p = choose|p: int| 0 <= p < cs.len() && cs[p] == i;
    assert(definition_of(f, i) == Some(i));
    let a = item_at(f, i)->0;
    law_all_items(f, p);
    let u = unit_of(f);
    let q = choose|q: int| 0 <= q < u.atoms.len() && u.atoms[q] == a;
    assert(is_item_at(f, i, kind, name, u.atoms[q]));
    crate::parser::laws::law_well_built(f);
    lemma_not_module(f.language, f.t[i].kind, kind);
    assert(q != 0);
}

proof fn lemma_not_module(language: Language, node: Seq<char>, kind: Seq<char>)
    requires
        defines(language, node, kind),
    ensures
        kind != "module"@,
{
    reveal_strlit("module");
    reveal_strlit("function");
    reveal_strlit("struct");
    reveal_strlit("trait");
    reveal_strlit("enum");
    reveal_strlit("type_alias");
    reveal_strlit("const");
    reveal_strlit("static");
    reveal_strlit("macro");
    assert("module"@[0] == 'm' && "module"@[1] == 'o' && "macro"@[1] == 'a');
    assert("function"@[0] == 'f' && "struct"@[0] == 's' && "trait"@[0] == 't' && "enum"@[0] == 'e'
        && "type_alias"@[0] == 't' && "const"@[0] == 'c' && "static"@[0] == 's');
}

/// A Python definition with decorators becomes the atom that it would be without
/// them.
pub proof fn law_decorated(f: FileView, i: int, d: int, k: int, kind: Seq<char>, name: Seq<char>)
    requires
        f.t.len() > 0,
        f.language is Python,
        is_child(f.t, 0, i),
        f.t[i].kind == "decorated_definition"@,
        field_of(f.t, i, "definition"@) == Some(d),
        i < d < f.t.len(),
        defines(f.language, f.t[d].kind, kind),
        field_of(f.t, d, "name"@) == Some(k),
        text_of(f.src, f.t[k]) == Some(name),
    ensures
        exists|q: int|
            0 < q < unit_of(f).atoms.len() && is_item_at(
                f,
                d,
                kind,
                name,
                #[trigger] unit_of(f).atoms[q],
            ),
{
    let cs = children(f.t, 0);
    law_children(f.t, 0, i);
    lemma_run_end(f.t, f.t[0].depth, 1);
    lemma_kinds(f.language, f.t[d].kind, kind);
    lemma_functions(f.language, f.t[d].kind, kind);
    lemma_not_module(f.language, f.t[d].kind, kind);
    let p = choose|p: int| 0 <= p < cs.len() && cs[p] == i;
    assert(definition_of(f, d) == Some(d));
    assert(definition_of(f, i) == Some(d));
    let a = item_at(f, i)->0;
    law_all_items(f, p);
    let u = unit_of(f);
    let q = choose|q: int| 0 <= q < u.atoms.len() && u.atoms[q] == a;
    crate::parser::laws::law_well_built(f);
    assert(is_item_at(f, d, kind, name, u.atoms[q]));
    assert(q != 0);
}

/// A Rust `impl` block becomes an atom that is named after its type, behind the
/// trait that it implements.
pub proof fn law_impl_blocks(f: FileView, i: int, ty: Seq<char>, tr: Seq<char>)
    requires
        f.t.len() > 0,
        f.language is Rust,
        is_child(f.t, 0, i),
        f.t[i].kind == "impl_item"@,
        field_text(f.t, f.src, i, "type"@) == Some(ty),
    ensures
        field_of(f.t, i, "trait"@) is None ==> exists|q: int|
            0 <= q < unit_of(f).atoms.len() && is_item_at(
                f,
                i,
                "impl"@,
                ty,
                #[trigger] unit_of(f).atoms[q],
            ),
        field_text(f.t, f.src, i, "trait"@) == Some(tr) ==> exists|q: int|
            0 <= q < unit_of(f).atoms.len() && is_item_at(
                f,
                i,
                "impl"@,
                tr + " for "@ + ty,
                #[trigger] unit_of(f).atoms[q],
            ),
{
    let cs = children(f.t, 0);
    law_children(f.t, 0, i);
    lemma_run_end(f.t, f.t[0].depth, 1);
    reveal_strlit("impl_item");
    reveal_strlit("decorated_definition");
    reveal_strlit("function_item");
    reveal_strlit("struct_item");
    reveal_strlit("trait_item");
    assert("impl_item"@[0] == 'i' && "decorated_definition"@[0] == 'd' && "function_item"@[0] == 'f'
        && "struct_item"@[0] == 's' && "trait_item"@[0] == 't');
    reveal_strlit("function_definition");
    reveal_strlit("function_declaration");
    reveal_strlit("impl");
    reveal_strlit("function");
    assert("function_definition"@[0] == 'f' && "function_declaration"@[0] == 'f' && "impl"@[0] == 'i'
        && "function"@[0] == 'f');
    let p = choose|p: int| 0 <= p < cs.len() && cs[p] == i;
    assert(definition_of(f, i) == Some(i));
    let u = unit_of(f);
    if field_of(f.t, i, "trait"@) is None {
        law_all_items(f, p);
        let a = item_at(f, i)->0;
        let q = choose|q: int| 0 <= q < u.atoms.len() && u.atoms[q] == a;
        assert(is_item_at(f, i, "impl"@, ty, u.atoms[q]));
    }
    if field_text(f.t, f.src, i, "trait"@) == Some(tr) {
        law_all_items(f, p);
        let a = item_at(f, i)->0;
        let q = choose|q: int| 0 <= q < u.atoms.len() && u.atoms[q] == a;
        assert(is_item_at(f, i, "impl"@, tr + " for "@ + ty, u.atoms[q]));
    }
}

proof fn lemma_methods_in(
    f: FileView,
    cs: Seq<int>,
    container: Seq<char>,
    owner: Seq<char>,
    k: int,
)
    requires
        0 <= k < cs.len(),
        method_at(f, cs[k], container, owner) is Some,
    ensures
        methods_in(f, cs, container, owner).contains(method_at(f, cs[k], container, owner)->0),
    decreases cs.len(),
{
    let front = cs.drop_last();
    let a = method_at(f, cs[k], container, owner)->0;
    let rest = methods_in(f, front, container, owner);
    let all = methods_in(f, cs, container, owner);
    if k < front.len() {
        assert(front[k] == cs[k]);
        lemma_methods_in(f, front, container, owner, k);
        let m = choose|m: int| 0 <= m < rest.len() && rest[m] == a;
        assert(all[m] == a);
    } else {
        assert(all[rest.len() as int] == a);
    }
}

/// A function in the body of a Rust `impl` block becomes an atom under the name of
/// the block, of the type that the block is for, and so does one in the body of a
/// Python class, under the name of the class.
pub proof fn law_methods(
    f: FileView,
    i: int,
    body: int,
    m: int,
    k: int,
    container: Seq<char>,
    name: Seq<char>,
)
    requires
        f.t.len() > 0,
        is_child(f.t, 0, i),
        (f.language is Rust && f.t[i].kind == "impl_item"@ && field_of(f.t, i, "trait"@) is None
            && field_text(f.t, f.src, i, "type"@) == Some(container) && f.t[m].kind
            == "function_item"@) || (f.language is Python && f.t[i].kind == "class_definition"@
            && field_text(f.t, f.src, i, "name"@) == Some(container) && f.t[m].kind
            == "function_definition"@),
        field_of(f.t, i, "body"@) == Some(body),
        is_child(f.t, body, m),
        field_of(f.t, m, "name"@) == Some(k),
        text_of(f.src, f.t[k]) == Some(name),
    ensures
        exists|q: int|
            0 <= q < unit_of(f).atoms.len() && is_method_at(
                f,
                m,
                container,
                if f.language is Rust {
                    owner_type(container)
                } else {
                    container
                },
                name,
                #[trigger] unit_of(f).atoms[q],
            ),
{
    let cs = children(f.t, 0);
    let ms = children(f.t, body);
    let owner = if f.language is Rust {
        owner_type(container)
    } else {
        container
    };
    law_children(f.t, 0, i);
    law_children(f.t, body, m);
    lemma_run_end(f.t, f.t[0].depth, 1);
    lemma_containers();
    let p = choose|p: int| 0 <= p < cs.len() && cs[p] == i;
    let x = choose|x: int| 0 <= x < ms.len() && ms[x] == m;
    assert(definition_of(f, i) == Some(i));
    assert(item_at(f, i) is Some);
    assert((item_at(f, i)->0).name == container);
    law_all_items(f, p);
    let a = method_at(f, m, container, owner)->0;
    lemma_methods_in(f, ms, container, owner, x);
    let list = lifted(f, i, container);
    let y = choose|y: int| 0 <= y < list.len() && list[y] == a;
    assert(unit_of(f).atoms.contains(list[y]));
    let q = choose|q: int| 0 <= q < unit_of(f).atoms.len() && unit_of(f).atoms[q] == a;
    lemma_method_id(f.path, container, name);
    assert(is_method_at(f, m, container, owner, name, unit_of(f).atoms[q]));
}

proof fn lemma_method_id(path: Seq<char>, container: Seq<char>, name: Seq<char>)
    ensures
        "code:"@ + path + "::"@ + "function"@ + "::"@ + (container + "::"@ + name) == "code:"@ + path
            + "::function::"@ + container + "::"@ + name,
{
    reveal_strlit("::");
    reveal_strlit("function");
    reveal_strlit("::function::");
    assert("::function::"@ =~= "::"@ + "function"@ + "::"@);
    lemma_regroup("code:"@ + path, "::"@, "function"@, container, name);
}

proof fn lemma_regroup(
    front: Seq<char>,
    sep: Seq<char>,
    kind: Seq<char>,
    container: Seq<char>,
    name: Seq<char>,
)
    ensures
        front + sep + kind + sep + (container + sep + name) == front + (sep + kind + sep) + container
            + sep + name,
{
    assert(front + sep + kind + sep + (container + sep + name) =~= front + (sep + kind + sep)
        + container + sep + name);
}

proof fn lemma_containers()
    ensures
        "impl_item"@ != "decorated_definition"@,
        "class_definition"@ != "decorated_definition"@,
        "class_definition"@ != "impl_item"@,
        "class_definition"@ != "function_definition"@,
        "function_item"@ != "decorated_definition"@,
        "function_item"@ != "class_member"@,
        "function_definition"@ != "decorated_definition"@,
        "function_definition"@ != "class_member"@,
        "impl_item"@ != "function_item"@,
        "impl_item"@ != "struct_item"@,
        "impl_item"@ != "trait_item"@,
{
    reveal_strlit("impl_item");
    reveal_strlit("decorated_definition");
    reveal_strlit("class_definition");
    reveal_strlit("function_item");
    reveal_strlit("function_definition");
    reveal_strlit("class_member");
    reveal_strlit("struct_item");
    reveal_strlit("trait_item");
    assert("impl_item"@[0] == 'i' && "decorated_definition"@[0] == 'd' && "class_definition"@[0]
        == 'c' && "function_item"@[0] == 'f' && "function_definition"@[0] == 'f'
        && "class_member"@[0] == 'c' && "struct_item"@[0] == 's' && "trait_item"@[0] == 't');
}

/// The type that an `impl` block is for is what follows ` for ` in its name, and
/// the whole name where nothing does.
pub proof fn law_owner(tr: Seq<char>, ty: Seq<char>)
    requires
        trimmed(ty) == ty,
        !occurs(tr, " for "@),
        !occurs(ty, " for "@),
        tr.len() > 0,
        !tr.contains(' '),
    ensures
        owner_type(ty) == ty,
        owner_type(tr + " for "@ + ty) == ty,
{
    reveal_strlit(" for ");
    let s = tr + " for "@ + ty;
    let n = tr.len() as int;
    assert(s.subrange(n, n + 5) =~= " for "@);
    assert forall|j: int| 0 <= j < n implies !#[trigger] occurs_at(s, " for "@, j) by {
        if occurs_at(s, " for "@, j) {
            assert(s.subrange(j, j + 5)[0] == tr[j]);
        }
    }
    lemma_find_from(s, " for "@, 0);
    assert(occurs_at(s, " for "@, n));
    assert(s.skip(n + 5) =~= ty);
}

proof fn lemma_items_only(f: FileView, cs: Seq<int>)
    ensures
        forall|k: int|
            0 <= k < items_in(f, cs).atoms.len() ==> exists|p: int|
                0 <= p < cs.len() && is_from(f, #[trigger] cs[p], #[trigger] items_in(
                    f,
                    cs,
                ).atoms[k]),
    decreases cs.len(),
{
    if cs.len() > 0 {
        let before = cs.drop_last();
        let front = items_in(f, before).atoms;
        let all = items_in(f, cs).atoms;
        lemma_items_only(f, before);
        assert forall|k: int| 0 <= k < all.len() implies exists|p: int|
            0 <= p < cs.len() && is_from(f, #[trigger] cs[p], #[trigger] all[k]) by {
            if k < front.len() {
                assert(all[k] == front[k]);
                let p = choose|p: int|
                    0 <= p < before.len() && is_from(f, #[trigger] before[p], front[k]);
                assert(cs[p] == before[p]);
                assert(is_from(f, cs[p], all[k]));
            } else {
                let i = cs.last();
                let a = item_at(f, i)->0;
                let ms = lifted(f, i, a.name);
                assert(cs[cs.len() - 1] == i);
                if k > front.len() {
                    assert(all[k] == ms[k - front.len() - 1]);
                    assert(ms.contains(all[k]));
                }
                assert(is_from(f, i, all[k]));
            }
        }
    }
}

/// Whether an atom is that of a node at the top level, or of a method in it.
pub open spec fn is_from(f: FileView, i: int, a: AtomView) -> bool {
    &&& item_at(f, i) is Some
    &&& item_at(f, i) == Some(a) || lifted(f, i, (item_at(f, i)->0).name).contains(a)
}

/// Every atom of a file but that of its module is defined in it: by a node at the
/// top level, or by one in the body of such a node.
pub proof fn law_definitions_only(f: FileView, q: int)
    requires
        0 < q < unit_of(f).atoms.len(),
    ensures
        exists|i: int| is_child(f.t, 0, i) && #[trigger] is_from(f, i, unit_of(f).atoms[q]),
{
    let cs = children(f.t, 0);
    lemma_items_only(f, cs);
    let it = items_in(f, cs).atoms;
    assert(unit_of(f).atoms[q] == it[q - 1]);
    let p = choose|p: int| 0 <= p < cs.len() && is_from(f, #[trigger] cs[p], it[q - 1]);
    law_children(f.t, 0, cs[p]);
    assert(cs.contains(cs[p]));
    assert(is_from(f, cs[p], unit_of(f).atoms[q]));
}

} // verus!
