//! Python extractors: imports and docstrings.

use crate::chars::{trim, trim_quotes, trimmed, unquoted};
use crate::parser::scope::{Imports, ScopeView};
use crate::parser::tree::{
    child_list, children, field_child, field_of, find_kind, first_of_kind, ints, is_kind, node_text,
    text_of, NodeView, SyntaxNode,
};
use vstd::prelude::*;
use vstd::string::*;

verus! {

// ── Dotted names ─────────────────────────────────────────────────────────────

/// The texts of the identifiers among the nodes `cs`.
pub open spec fn segments(t: Seq<NodeView>, src: Seq<char>, cs: Seq<int>) -> Seq<Seq<char>>
    decreases cs.len(),
{
    if cs.len() == 0 {
        Seq::empty()
    } else {
        let rest = segments(t, src, cs.drop_last());
        match text_of(src, t[cs.last()]) {
            Some(s) => if t[cs.last()].kind == "identifier"@ {
                rest.push(s)
            } else {
                rest
            },
            None => rest,
        }
    }
}

/// The last segment of a dotted name.
pub open spec fn last_segment(t: Seq<NodeView>, src: Seq<char>, i: int) -> Option<Seq<char>> {
    let segs = segments(t, src, children(t, i));
    if segs.len() == 0 {
        None
    } else {
        Some(segs.last())
    }
}

/// All identifier segments of a dotted name, in order.
pub fn dotted_segments(nodes: &Vec<SyntaxNode>, i: usize, source: &str) -> (r: Vec<String>)
    requires
        i < nodes.len(),
    ensures
        r.deep_view() == segments(
            nodes.deep_view(),
            source@,
            children(nodes.deep_view(), i as int),
        ),
{
    let ghost t = nodes.deep_view();
    let cs = child_list(nodes, i);
    let ghost v = ints(cs@);
    let mut out: Vec<String> = Vec::new();
    let mut j: usize = 0;
    assert(v.take(0) =~= Seq::<int>::empty());
    assert(out.deep_view() =~= Seq::<Seq<char>>::empty());
    while j < cs.len()
        invariant
            j <= cs.len(),
            t == nodes.deep_view(),
            v == ints(cs@),
            forall|k: int| 0 <= k < cs.len() ==> i < #[trigger] cs@[k] < nodes.len(),
            out.deep_view() == segments(t, source@, v.take(j as int)),
        decreases cs.len() - j,
    {
        let ghost had = out.deep_view();
        proof {
            assert(v.take(j + 1).drop_last() =~= v.take(j as int));
            assert(v.take(j + 1).last() == cs@[j as int] as int);
        }
        if is_kind(nodes, cs[j], "identifier") {
            match node_text(nodes, cs[j], source) {
                Some(s) => {
                    out.push(s.to_owned());
                    assert(out.deep_view() =~= had.push(s@));
                },
                None => {},
            }
        }
        j += 1;
    }
    assert(v.take(cs.len() as int) =~= v);
    out
}

/// The last segment of a dotted name: `c` of `a.b.c`.
pub fn dotted_last(nodes: &Vec<SyntaxNode>, i: usize, source: &str) -> (r: Option<String>)
    requires
        i < nodes.len(),
    ensures
        r.deep_view() == last_segment(nodes.deep_view(), source@, i as int),
{
    let segs = dotted_segments(nodes, i, source);
    if segs.len() == 0 {
        None
    } else {
        assert(segs.deep_view().last() == segs[segs.len() - 1]@);
        Some(segs[segs.len() - 1].clone())
    }
}

// ── Imports ──────────────────────────────────────────────────────────────────

/// The text of the child held under a field.
pub open spec fn field_text(
    t: Seq<NodeView>,
    src: Seq<char>,
    i: int,
    name: Seq<char>,
) -> Option<Seq<char>> {
    match field_of(t, i, name) {
        Some(k) => text_of(src, t[k]),
        None => None,
    }
}

/// What an aliased import binds: its alias, and the last segment of its name.
pub open spec fn aliased(t: Seq<NodeView>, src: Seq<char>, i: int) -> Option<
    (Seq<char>, Seq<char>),
> {
    match (field_text(t, src, i, "alias"@), field_of(t, i, "name"@)) {
        (Some(alias), Some(name)) => match last_segment(t, src, name) {
            Some(last) => Some((alias, last)),
            None => None,
        },
        _ => None,
    }
}

/// What one child of `import …` binds: `import a.b as x` binds `x` to `b`, and
/// `import os` binds `os`. A plain `import a.b` binds nothing that can be told
/// apart.
pub open spec fn import_binding(t: Seq<NodeView>, src: Seq<char>, i: int) -> Option<
    (Seq<char>, Seq<char>),
> {
    if t[i].kind == "aliased_import"@ {
        aliased(t, src, i)
    } else if t[i].kind == "dotted_name"@ {
        let segs = segments(t, src, children(t, i));
        if segs.len() == 1 {
            Some((segs[0], segs[0]))
        } else {
            None
        }
    } else {
        None
    }
}

/// What one child of `from … import …` binds: a local name to a symbol.
pub open spec fn from_binding(t: Seq<NodeView>, src: Seq<char>, i: int) -> Option<
    (Seq<char>, Seq<char>),
> {
    if t[i].kind == "dotted_name"@ {
        match last_segment(t, src, i) {
            Some(s) => Some((s, s)),
            None => None,
        }
    } else if t[i].kind == "aliased_import"@ {
        aliased(t, src, i)
    } else {
        None
    }
}

/// What `import …` binds: the modules of its children, in order.
pub open spec fn import_bindings(t: Seq<NodeView>, src: Seq<char>, cs: Seq<int>) -> Seq<
    (Seq<char>, Seq<char>),
>
    decreases cs.len(),
{
    if cs.len() == 0 {
        Seq::empty()
    } else {
        let rest = import_bindings(t, src, cs.drop_last());
        match import_binding(t, src, cs.last()) {
            Some(p) => rest.push(p),
            None => rest,
        }
    }
}

/// Whether the keyword `import` is among the nodes `cs`.
pub open spec fn has_keyword(t: Seq<NodeView>, cs: Seq<int>) -> bool
    decreases cs.len(),
{
    cs.len() > 0 && (t[cs.last()].kind == "import"@ || has_keyword(t, cs.drop_last()))
}

/// What `from … import …` binds: the names after the keyword `import`.
pub open spec fn from_bindings(t: Seq<NodeView>, src: Seq<char>, cs: Seq<int>) -> Seq<
    (Seq<char>, Seq<char>),
>
    decreases cs.len(),
{
    if cs.len() == 0 {
        Seq::empty()
    } else {
        let rest = from_bindings(t, src, cs.drop_last());
        if t[cs.last()].kind == "import"@ || !has_keyword(t, cs.drop_last()) {
            rest
        } else {
            match from_binding(t, src, cs.last()) {
                Some(p) => rest.push(p),
                None => rest,
            }
        }
    }
}

/// The last segment of the module that `from … import …` names: none for a
/// bare `.`.
pub open spec fn module_last(t: Seq<NodeView>, src: Seq<char>, i: int) -> Option<Seq<char>> {
    if t[i].kind == "dotted_name"@ {
        last_segment(t, src, i)
    } else if t[i].kind == "relative_import"@ {
        match first_of_kind(t, children(t, i), "dotted_name"@) {
            Some(d) => last_segment(t, src, d),
            None => None,
        }
    } else {
        None
    }
}

/// The module that a `from … import …` statement at node `i` names.
pub open spec fn from_module(t: Seq<NodeView>, src: Seq<char>, i: int) -> Option<Seq<char>> {
    match field_of(t, i, "module_name"@) {
        Some(m) => module_last(t, src, m),
        None => None,
    }
}

/// The symbols of module `m`, each qualified by it.
pub open spec fn qualified(
    m: Seq<char>,
    pairs: Seq<(Seq<char>, Seq<char>)>,
) -> Seq<(Seq<char>, Seq<char>)> {
    Seq::new(pairs.len(), |k: int| (pairs[k].0, m + "::"@ + pairs[k].1))
}

/// What the import statement at node `i` adds to a scope.
pub open spec fn with_import(t: Seq<NodeView>, src: Seq<char>, i: int, s: ScopeView) -> ScopeView {
    if t[i].kind == "import_statement"@ {
        ScopeView { modules: s.modules + import_bindings(t, src, children(t, i)), ..s }
    } else if t[i].kind == "import_from_statement"@ {
        let pairs = from_bindings(t, src, children(t, i));
        match from_module(t, src, i) {
            Some(m) => ScopeView { symbols: s.symbols + qualified(m, pairs), ..s },
            None => ScopeView { modules: s.modules + pairs, ..s },
        }
    } else {
        s
    }
}

/// The scope that the import statements before position `hi` make.
pub open spec fn imports_below(t: Seq<NodeView>, src: Seq<char>, hi: int) -> ScopeView
    decreases hi,
{
    if hi <= 0 {
        ScopeView::empty()
    } else {
        with_import(t, src, hi - 1, imports_below(t, src, hi - 1))
    }
}

fn aliased_pair(nodes: &Vec<SyntaxNode>, i: usize, source: &str) -> (r: Option<(String, String)>)
    requires
        i < nodes.len(),
    ensures
        crate::chars::pair_view(r) == aliased(nodes.deep_view(), source@, i as int),
{
    let alias = match field_child(nodes, i, "alias") {
        Some(k) => node_text(nodes, k, source),
        None => None,
    };
    match (alias, field_child(nodes, i, "name")) {
        (Some(alias), Some(name)) => match dotted_last(nodes, name, source) {
            Some(last) => Some((alias.to_owned(), last)),
            None => None,
        },
        _ => None,
    }
}

/// Adds what the statement `import …` at node `i` binds.
pub fn handle_import(nodes: &Vec<SyntaxNode>, i: usize, source: &str, out: &mut Imports)
    requires
        i < nodes.len(),
    ensures
        final(out).deep_view() == (ScopeView {
            modules: old(out).deep_view().modules + import_bindings(
                nodes.deep_view(),
                source@,
                children(nodes.deep_view(), i as int),
            ),
            ..old(out).deep_view()
        }),
{
    let ghost t = nodes.deep_view();
    let ghost had = out.deep_view();
    let cs = child_list(nodes, i);
    let ghost v = ints(cs@);
    let mut j: usize = 0;
    assert(v.take(0) =~= Seq::<int>::empty());
    assert(had.modules =~= had.modules + Seq::<(Seq<char>, Seq<char>)>::empty());
    while j < cs.len()
        invariant
            j <= cs.len(),
            t == nodes.deep_view(),
            v == ints(cs@),
            forall|k: int| 0 <= k < cs.len() ==> i < #[trigger] cs@[k] < nodes.len(),
            out.deep_view() == (ScopeView {
                modules: had.modules + import_bindings(t, source@, v.take(j as int)),
                ..had
            }),
        decreases cs.len() - j,
    {
        let ghost so_far = out.deep_view();
        proof {
            assert(v.take(j + 1).drop_last() =~= v.take(j as int));
            assert(v.take(j + 1).last() == cs@[j as int] as int);
        }
        let c: usize = cs[j];
        if is_kind(nodes, c, "aliased_import") {
            match aliased_pair(nodes, c, source) {
                Some((alias, last)) => {
                    out.add_module(alias.as_str(), last.as_str());
                    assert(out.deep_view().modules =~= had.modules + import_bindings(
                        t,
                        source@,
                        v.take(j + 1),
                    ));
                },
                None => {},
            }
        } else if is_kind(nodes, c, "dotted_name") {
            let segs = dotted_segments(nodes, c, source);
            if segs.len() == 1 {
                assert(segs.deep_view()[0] == segs[0]@);
                out.add_module(segs[0].as_str(), segs[0].as_str());
                assert(out.deep_view().modules =~= had.modules + import_bindings(
                    t,
                    source@,
                    v.take(j + 1),
                ));
            }
        }
        j += 1;
    }
    assert(v.take(cs.len() as int) =~= v);
}

fn module_name_last(nodes: &Vec<SyntaxNode>, i: usize, source: &str) -> (r: Option<String>)
    requires
        i < nodes.len(),
    ensures
        r.deep_view() == module_last(nodes.deep_view(), source@, i as int),
{
    if is_kind(nodes, i, "dotted_name") {
        dotted_last(nodes, i, source)
    } else if is_kind(nodes, i, "relative_import") {
        let cs = child_list(nodes, i);
        match find_kind(nodes, &cs, "dotted_name") {
            Some(d) => dotted_last(nodes, d, source),
            None => None,
        }
    } else {
        None
    }
}

fn from_pair(nodes: &Vec<SyntaxNode>, i: usize, source: &str) -> (r: Option<(String, String)>)
    requires
        i < nodes.len(),
    ensures
        crate::chars::pair_view(r) == from_binding(nodes.deep_view(), source@, i as int),
{
    if is_kind(nodes, i, "dotted_name") {
        match dotted_last(nodes, i, source) {
            Some(s) => Some((s.clone(), s)),
            None => None,
        }
    } else if is_kind(nodes, i, "aliased_import") {
        aliased_pair(nodes, i, source)
    } else {
        None
    }
}

/// Adds what the statement `from … import …` at node `i` binds: symbols of the
/// module it names, or submodules where it names none.
pub fn handle_from_import(nodes: &Vec<SyntaxNode>, i: usize, source: &str, out: &mut Imports)
    requires
        i < nodes.len(),
    ensures
        final(out).deep_view() == ({
            let t = nodes.deep_view();
            let pairs = from_bindings(t, source@, children(t, i as int));
            let s = old(out).deep_view();
            match from_module(t, source@, i as int) {
                Some(m) => ScopeView { symbols: s.symbols + qualified(m, pairs), ..s },
                None => ScopeView { modules: s.modules + pairs, ..s },
            }
        }),
{
    let ghost t = nodes.deep_view();
    let ghost had = out.deep_view();
    let module = match field_child(nodes, i, "module_name") {
        Some(m) => module_name_last(nodes, m, source),
        None => None,
    };
    let ghost m = from_module(t, source@, i as int);
    let cs = child_list(nodes, i);
    let ghost v = ints(cs@);
    let mut j: usize = 0;
    let mut seen_import_kw = false;
    proof {
        assert(v.take(0) =~= Seq::<int>::empty());
        assert(had.modules =~= had.modules + Seq::<(Seq<char>, Seq<char>)>::empty());
        if m is Some {
            assert(had.symbols =~= had.symbols + qualified(m->0, Seq::empty()));
        }
    }
    while j < cs.len()
        invariant
            j <= cs.len(),
            t == nodes.deep_view(),
            v == ints(cs@),
            module.deep_view() == m,
            forall|k: int| 0 <= k < cs.len() ==> i < #[trigger] cs@[k] < nodes.len(),
            seen_import_kw == has_keyword(t, v.take(j as int)),
            out.deep_view() == ({
                let pairs = from_bindings(t, source@, v.take(j as int));
                match m {
                    Some(m) => ScopeView { symbols: had.symbols + qualified(m, pairs), ..had },
                    None => ScopeView { modules: had.modules + pairs, ..had },
                }
            }),
        decreases cs.len() - j,
    {
        let ghost pairs = from_bindings(t, source@, v.take(j as int));
        proof {
            assert(v.take(j + 1).drop_last() =~= v.take(j as int));
            assert(v.take(j + 1).last() == cs@[j as int] as int);
        }
        let c: usize = cs[j];
        if is_kind(nodes, c, "import") {
            seen_import_kw = true;
        } else if seen_import_kw {
            match from_pair(nodes, c, source) {
                Some((local, sym)) => {
                    match &module {
                        Some(name) => {
                            let path = name.clone().concat("::").concat(sym.as_str());
                            out.add_symbol(local.as_str(), path.as_str());
                            proof {
                                let more = pairs.push((local@, sym@));
                                assert(qualified(m->0, more) =~= qualified(m->0, pairs).push(
                                    (local@, path@),
                                ));
                                assert(out.deep_view().symbols =~= had.symbols + qualified(
                                    m->0,
                                    more,
                                ));
                            }
                        },
                        None => {
                            out.add_module(local.as_str(), sym.as_str());
                            assert(out.deep_view().modules =~= had.modules + pairs.push(
                                (local@, sym@),
                            ));
                        },
                    }
                },
                None => {},
            }
        }
        j += 1;
    }
    assert(v.take(cs.len() as int) =~= v);
}

/// The names that the import statements anywhere in the tree bind.
pub fn extract_imports(nodes: &Vec<SyntaxNode>, source: &str) -> (r: Imports)
    ensures
        r.deep_view() == imports_below(nodes.deep_view(), source@, nodes.len() as int),
{
    let ghost t = nodes.deep_view();
    let mut out = Imports::new();
    let mut i: usize = 0;
    while i < nodes.len()
        invariant
            i <= nodes.len(),
            t == nodes.deep_view(),
            out.deep_view() == imports_below(t, source@, i as int),
        decreases nodes.len() - i,
    {
        if is_kind(nodes, i, "import_statement") {
            handle_import(nodes, i, source, &mut out);
        } else if is_kind(nodes, i, "import_from_statement") {
            handle_from_import(nodes, i, source, &mut out);
        }
        i += 1;
    }
    out
}

// ── Docstrings ───────────────────────────────────────────────────────────────

/// The text of the first string among the nodes `cs`.
pub open spec fn first_string(t: Seq<NodeView>, src: Seq<char>, cs: Seq<int>) -> Option<Seq<char>>
    decreases cs.len(),
{
    if cs.len() == 0 {
        None
    } else if t[cs[0]].kind == "string"@ && text_of(src, t[cs[0]]) is Some {
        text_of(src, t[cs[0]])
    } else {
        first_string(t, src, cs.drop_first())
    }
}

/// The docstring of a definition: the string that is the first statement of
/// its block, without quotes and surrounding white space.
pub open spec fn docstring_of(t: Seq<NodeView>, src: Seq<char>, i: int) -> Seq<char> {
    match first_of_kind(t, children(t, i), "block"@) {
        None => Seq::empty(),
        Some(b) => {
            let stmts = children(t, b);
            if stmts.len() == 0 || t[stmts[0]].kind != "expression_statement"@ {
                Seq::empty()
            } else {
                match first_string(t, src, children(t, stmts[0])) {
                    Some(s) => trimmed(unquoted(s)),
                    None => Seq::empty(),
                }
            }
        },
    }
}

/// The docstring of the definition at node `i`.
pub fn docstring(nodes: &Vec<SyntaxNode>, i: usize, source: &str) -> (r: String)
    requires
        i < nodes.len(),
    ensures
        r@ == docstring_of(nodes.deep_view(), source@, i as int),
{
    let ghost t = nodes.deep_view();
    let cs = child_list(nodes, i);
    match find_kind(nodes, &cs, "block") {
        None => String::new(),
        Some(b) => {
            let stmts = child_list(nodes, b);
            proof {
                assert(ints(stmts@).len() == stmts.len());
                assert(stmts.len() > 0 ==> ints(stmts@)[0] == stmts@[0] as int);
            }
            if stmts.len() == 0 || !is_kind(nodes, stmts[0], "expression_statement") {
                return String::new();
            }
            let es = child_list(nodes, stmts[0]);
            let ghost v = ints(es@);
            let mut j: usize = 0;
            assert(v.skip(0) =~= v);
            while j < es.len()
                invariant
                    j <= es.len(),
                    t == nodes.deep_view(),
                    v == ints(es@),
                    forall|k: int| 0 <= k < es.len() ==> #[trigger] es@[k] < nodes.len(),
                    first_string(t, source@, v) == first_string(t, source@, v.skip(j as int)),
                    docstring_of(t, source@, i as int) == (match first_string(t, source@, v) {
                        Some(s) => trimmed(unquoted(s)),
                        None => Seq::empty(),
                    }),
                decreases es.len() - j,
            {
                assert(v.skip(j as int)[0] == v[j as int]);
                assert(v.skip(j as int).drop_first() =~= v.skip(j + 1));
                if is_kind(nodes, es[j], "string") {
                    match node_text(nodes, es[j], source) {
                        Some(s) => {
                            return trim(trim_quotes(s).as_str());
                        },
                        None => {},
                    }
                }
                j += 1;
            }
            String::new()
        },
    }
}

} // verus!
