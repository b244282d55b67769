//! Dart extractors: import directives and declared receiver types.

use crate::chars::{
    after_last, before_suffix, last_part, starts, starts_with, strip_suffix, trim_quotes,
    trim_start, trim_start_char, trimmed_start, unquoted, without_leading,
};
use crate::parser::python::field_text;
use crate::parser::scope::{Imports, ReceiverTypes, ScopeView};
use crate::parser::tree::{
    child_list, children, end_of, field_child, field_of, find_kind, first_of_kind, ints, is_kind,
    node_text, parent_node, parent_of, subtree_end, text_of, NodeView, SyntaxNode,
};
use crate::text::chars_of;
use vstd::prelude::*;
use vstd::string::*;

verus! {

// ── Trusted boundary ─────────────────────────────────────────────────────────

/// Whether a character has the Unicode property `Uppercase`.
pub uninterp spec fn char_is_uppercase(c: char) -> bool;

/// `char::is_uppercase`: whether the character has the Unicode property
/// `Uppercase`.
#[verifier::external_body]
fn is_uppercase(c: char) -> (r: bool)
    ensures
        r == char_is_uppercase(c),
{
    c.is_uppercase()
}

// ── Type names ───────────────────────────────────────────────────────────────

/// The character that decides whether a name is a type's: the first that is
/// not an underscore.
pub open spec fn initial(name: Seq<char>) -> Option<char> {
    let s = without_leading(name, '_');
    if s.len() == 0 {
        None
    } else {
        Some(s[0])
    }
}

/// Whether a name reads as a type: its first character, underscores aside, is
/// upper-case.
pub open spec fn names_type(name: Seq<char>) -> bool {
    match initial(name) {
        Some(c) => char_is_uppercase(c),
        None => false,
    }
}

/// The character that decides whether a name is a type's.
pub fn type_initial(name: &str) -> (r: Option<char>)
    ensures
        r == initial(name@),
{
    let s = trim_start_char(name, '_');
    let cs = chars_of(s.as_str());
    if cs.len() == 0 {
        None
    } else {
        Some(cs[0])
    }
}

/// Whether a name reads as a type.
pub fn is_type_name(name: &str) -> (r: bool)
    ensures
        r == names_type(name@),
{
    match type_initial(name) {
        Some(c) => is_uppercase(c),
        None => false,
    }
}

// ── Directives ───────────────────────────────────────────────────────────────

/// Whether node `j` lies under a `uri` node that is itself at or below `i`.
pub open spec fn under_uri(t: Seq<NodeView>, i: int, j: int) -> bool
    decreases j,
{
    match parent_of(t, j) {
        Some(p) => 0 <= p && i <= p < j && (t[p].kind == "uri"@ || under_uri(t, i, p)),
        None => false,
    }
}

/// The last `uri` node among `i..hi` that lies in no other.
pub open spec fn last_uri(t: Seq<NodeView>, i: int, hi: int) -> Option<int>
    decreases hi,
{
    if hi <= i || hi <= 0 {
        None
    } else if t[hi - 1].kind == "uri"@ && !under_uri(t, i, hi - 1) {
        Some(hi - 1)
    } else {
        last_uri(t, i, hi - 1)
    }
}

/// The file stem of a URI: `user` of `'package:a/models/user.dart'`. URIs of
/// the SDK have none.
pub open spec fn stem_of(raw: Seq<char>) -> Option<Seq<char>> {
    let uri = unquoted(raw);
    if starts(uri, "dart:"@) {
        None
    } else {
        let file = after_last(uri, "/"@);
        match before_suffix(file, ".dart"@) {
            Some(s) => Some(s),
            None => Some(file),
        }
    }
}

/// The file stem of a directive's URI.
pub open spec fn directive_stem(t: Seq<NodeView>, src: Seq<char>, i: int) -> Option<Seq<char>> {
    match last_uri(t, i, end_of(t, i)) {
        Some(u) => match text_of(src, t[u]) {
            Some(raw) => stem_of(raw),
            None => None,
        },
        None => None,
    }
}

fn is_under_uri(nodes: &Vec<SyntaxNode>, i: usize, j: usize) -> (r: bool)
    requires
        i <= j < nodes.len(),
    ensures
        r == under_uri(nodes.deep_view(), i as int, j as int),
{
    let ghost t = nodes.deep_view();
    let mut k: usize = j;
    loop
        invariant
            k <= j < nodes.len(),
            t == nodes.deep_view(),
            under_uri(t, i as int, j as int) == under_uri(t, i as int, k as int),
        decreases k,
    {
        match parent_node(nodes, k) {
            Some(p) => {
                if p < i {
                    return false;
                }
                if is_kind(nodes, p, "uri") {
                    return true;
                }
                k = p;
            },
            None => {
                return false;
            },
        }
    }
}

/// The file stem of a URI.
pub fn uri_file_stem(raw: &str) -> (r: Option<String>)
    ensures
        r.deep_view() == stem_of(raw@),
{
    let uri = trim_quotes(raw);
    if starts_with(uri.as_str(), "dart:") {
        return None;
    }
    let file = last_part(uri.as_str(), "/");
    match strip_suffix(file.as_str(), ".dart") {
        Some(s) => Some(s),
        None => Some(file),
    }
}

/// The file stem of the URI of the directive at node `i`.
pub fn uri_stem(nodes: &Vec<SyntaxNode>, i: usize, source: &str) -> (r: Option<String>)
    requires
        i < nodes.len(),
    ensures
        r.deep_view() == directive_stem(nodes.deep_view(), source@, i as int),
{
    let ghost t = nodes.deep_view();
    let end = subtree_end(nodes, i);
    let mut hi: usize = end;
    while hi > i
        invariant
            i <= hi <= end <= nodes.len(),
            t == nodes.deep_view(),
            end == end_of(t, i as int),
            last_uri(t, i as int, end as int) == last_uri(t, i as int, hi as int),
        decreases hi,
    {
        if is_kind(nodes, hi - 1, "uri") && !is_under_uri(nodes, i, hi - 1) {
            return match node_text(nodes, hi - 1, source) {
                Some(raw) => uri_file_stem(raw),
                None => None,
            };
        }
        hi -= 1;
    }
    None
}

/// Whether node `c` is the identifier that its parent holds as an alias.
pub open spec fn is_alias(t: Seq<NodeView>, c: int) -> bool {
    t[c].kind == "identifier"@ && match parent_of(t, c) {
        Some(p) => field_of(t, p, "alias"@) == Some(c),
        None => false,
    }
}

/// Whether node `c` is a `show` combinator.
pub open spec fn is_show(t: Seq<NodeView>, src: Seq<char>, c: int) -> bool {
    t[c].kind == "combinator"@ && match text_of(src, t[c]) {
        Some(s) => starts(trimmed_start(s), "show"@),
        None => false,
    }
}

/// The nodes `cs`, each followed by its children.
pub open spec fn two_levels(t: Seq<NodeView>, cs: Seq<int>) -> Seq<int>
    decreases cs.len(),
{
    if cs.len() == 0 {
        Seq::empty()
    } else {
        two_levels(t, cs.drop_last()).push(cs.last()) + children(t, cs.last())
    }
}

/// The alias that the nodes `ds` give: the text of the last alias node.
pub open spec fn alias_in(t: Seq<NodeView>, src: Seq<char>, ds: Seq<int>) -> Option<Seq<char>>
    decreases ds.len(),
{
    if ds.len() == 0 {
        None
    } else if is_alias(t, ds.last()) && text_of(src, t[ds.last()]) is Some {
        text_of(src, t[ds.last()])
    } else {
        alias_in(t, src, ds.drop_last())
    }
}

/// The names that the `show` combinators among the nodes `ds` list.
pub open spec fn shown_in(t: Seq<NodeView>, src: Seq<char>, ds: Seq<int>) -> Seq<Seq<char>>
    decreases ds.len(),
{
    if ds.len() == 0 {
        Seq::empty()
    } else {
        let rest = shown_in(t, src, ds.drop_last());
        if is_show(t, src, ds.last()) {
            rest + crate::parser::python::segments(t, src, children(t, ds.last()))
        } else {
            rest
        }
    }
}

/// The symbols `names` of the module `stem`, each qualified by it.
pub open spec fn qualified_names(stem: Seq<char>, names: Seq<Seq<char>>) -> Seq<
    (Seq<char>, Seq<char>),
> {
    Seq::new(names.len(), |k: int| (names[k], stem + "::"@ + names[k]))
}

/// What the import or export directive at node `i` adds to a scope: its alias
/// names the module, and the names it shows are symbols of it.
pub open spec fn with_directive(
    t: Seq<NodeView>,
    src: Seq<char>,
    i: int,
    s: ScopeView,
) -> ScopeView {
    match directive_stem(t, src, i) {
        None => s,
        Some(stem) => {
            let ds = two_levels(t, children(t, i));
            ScopeView {
                modules: match alias_in(t, src, ds) {
                    Some(a) => s.modules.push((a, stem)),
                    None => s.modules,
                },
                symbols: s.symbols + qualified_names(stem, shown_in(t, src, ds)),
                ..s
            }
        },
    }
}

fn combinator_is_show(nodes: &Vec<SyntaxNode>, i: usize, source: &str) -> (r: bool)
    requires
        i < nodes.len(),
    ensures
        r == is_show(nodes.deep_view(), source@, i as int),
{
    is_kind(nodes, i, "combinator") && match node_text(nodes, i, source) {
        Some(s) => starts_with(trim_start(s).as_str(), "show"),
        None => false,
    }
}

fn is_alias_node(nodes: &Vec<SyntaxNode>, c: usize) -> (r: bool)
    requires
        c < nodes.len(),
    ensures
        r == is_alias(nodes.deep_view(), c as int),
{
    is_kind(nodes, c, "identifier") && match parent_node(nodes, c) {
        Some(p) => match field_child(nodes, p, "alias") {
            Some(k) => k == c,
            None => false,
        },
        None => false,
    }
}

/// The children of node `i`, each followed by its own children.
pub fn descendants(nodes: &Vec<SyntaxNode>, i: usize) -> (r: Vec<usize>)
    requires
        i < nodes.len(),
    ensures
        ints(r@) == two_levels(nodes.deep_view(), children(nodes.deep_view(), i as int)),
        forall|k: int| 0 <= k < r.len() ==> i < #[trigger] r@[k] < nodes.len(),
{
    let ghost t = nodes.deep_view();
    let cs = child_list(nodes, i);
    let ghost v = ints(cs@);
    let mut out: Vec<usize> = Vec::new();
    let mut j: usize = 0;
    assert(v.take(0) =~= Seq::<int>::empty());
    assert(ints(out@) =~= Seq::<int>::empty());
    while j < cs.len()
        invariant
            j <= cs.len(),
            t == nodes.deep_view(),
            v == ints(cs@),
            forall|k: int| 0 <= k < cs.len() ==> i < #[trigger] cs@[k] < nodes.len(),
            forall|k: int| 0 <= k < out.len() ==> i < #[trigger] out@[k] < nodes.len(),
            ints(out@) == two_levels(t, v.take(j as int)),
        decreases cs.len() - j,
    {
        proof {
            assert(v.take(j + 1).drop_last() =~= v.take(j as int));
            assert(v.take(j + 1).last() == cs@[j as int] as int);
        }
        let c: usize = cs[j];
        let ghost had = ints(out@);
        out.push(c);
        let inner = child_list(nodes, c);
        let ghost w = ints(inner@);
        let mut k: usize = 0;
        assert(ints(out@) =~= had.push(c as int) + w.take(0));
        while k < inner.len()
            invariant
                k <= inner.len(),
                i < c,
                w == ints(inner@),
                forall|x: int| 0 <= x < inner.len() ==> c < #[trigger] inner@[x] < nodes.len(),
                forall|x: int| 0 <= x < out.len() ==> i < #[trigger] out@[x] < nodes.len(),
                ints(out@) == had.push(c as int) + w.take(k as int),
            decreases inner.len() - k,
        {
            let ghost before = ints(out@);
            out.push(inner[k]);
            assert(ints(out@) =~= before.push(w[k as int]));
            assert(w.take(k as int).push(w[k as int]) =~= w.take(k + 1));
            assert(ints(out@) =~= had.push(c as int) + w.take(k + 1));
            k += 1;
        }
        assert(w.take(inner.len() as int) =~= w);
        j += 1;
    }
    assert(v.take(cs.len() as int) =~= v);
    out
}

/// Adds what the import or export directive at node `i` binds.
pub fn handle_directive(nodes: &Vec<SyntaxNode>, i: usize, source: &str, out: &mut Imports)
    requires
        i < nodes.len(),
    ensures
        final(out).deep_view() == with_directive(
            nodes.deep_view(),
            source@,
            i as int,
            old(out).deep_view(),
        ),
{
    let ghost t = nodes.deep_view();
    let ghost had = out.deep_view();
    let stem = match uri_stem(nodes, i, source) {
        Some(stem) => stem,
        None => {
            return;
        },
    };
    let ds = descendants(nodes, i);
    let ghost v = ints(ds@);
    let mut alias: Option<String> = None;
    let mut shown: Vec<String> = Vec::new();
    let mut j: usize = 0;
    assert(v.take(0) =~= Seq::<int>::empty());
    assert(shown.deep_view() =~= Seq::<Seq<char>>::empty());
    while j < ds.len()
        invariant
            j <= ds.len(),
            t == nodes.deep_view(),
            v == ints(ds@),
            forall|k: int| 0 <= k < ds.len() ==> i < #[trigger] ds@[k] < nodes.len(),
            alias.deep_view() == alias_in(t, source@, v.take(j as int)),
            shown.deep_view() == shown_in(t, source@, v.take(j as int)),
        decreases ds.len() - j,
    {
        let ghost so_far = shown.deep_view();
        proof {
            assert(v.take(j + 1).drop_last() =~= v.take(j as int));
            assert(v.take(j + 1).last() == ds@[j as int] as int);
        }
        let c: usize = ds[j];
        if is_alias_node(nodes, c) {
            match node_text(nodes, c, source) {
                Some(s) => {
                    alias = Some(s.to_owned());
                },
                None => {},
            }
            proof {
                reveal_strlit("identifier");
                reveal_strlit("combinator");
                assert("identifier"@[0] != "combinator"@[0]);
            }
        } else if combinator_is_show(nodes, c, source) {
            let names = crate::parser::python::dotted_segments(nodes, c, source);
            let mut k: usize = 0;
            assert(names.deep_view().take(0) =~= Seq::<Seq<char>>::empty());
            assert(shown.deep_view() =~= so_far + names.deep_view().take(0));
            while k < names.len()
                invariant
                    k <= names.len(),
                    shown.deep_view() == so_far + names.deep_view().take(k as int),
                decreases names.len() - k,
            {
                let ghost before = shown.deep_view();
                shown.push(names[k].clone());
                assert(shown.deep_view() =~= before.push(names.deep_view()[k as int]));
                assert(shown.deep_view() =~= so_far + names.deep_view().take(k + 1));
                k += 1;
            }
            assert(names.deep_view().take(names.len() as int) =~= names.deep_view());
        }
        j += 1;
    }
    assert(v.take(ds.len() as int) =~= v);
    match &alias {
        Some(a) => {
            out.add_module(a.as_str(), stem.as_str());
        },
        None => {},
    }
    let ghost mid = out.deep_view();
    let ghost names = shown.deep_view();
    let mut k: usize = 0;
    assert(mid.symbols =~= mid.symbols + qualified_names(stem@, names.take(0)));
    while k < shown.len()
        invariant
            k <= shown.len(),
            names == shown.deep_view(),
            out.deep_view() == (ScopeView {
                symbols: mid.symbols + qualified_names(stem@, names.take(k as int)),
                ..mid
            }),
        decreases shown.len() - k,
    {
        let path = stem.clone().concat("::").concat(shown[k].as_str());
        out.add_symbol(shown[k].as_str(), path.as_str());
        assert(names[k as int] == shown[k as int]@);
        assert(out.deep_view().symbols =~= mid.symbols + qualified_names(stem@, names.take(k + 1)));
        k += 1;
    }
    assert(names.take(shown.len() as int) =~= names);
}

// ── Receiver types ───────────────────────────────────────────────────────────

/// The shallowest node of the given kind among `i..hi`, the first of several.
pub open spec fn shallowest(t: Seq<NodeView>, kind: Seq<char>, i: int, hi: int) -> Option<int>
    decreases hi - i,
{
    if hi <= i {
        None
    } else {
        let best = shallowest(t, kind, i, hi - 1);
        if t[hi - 1].kind == kind && (best is None || t[hi - 1].depth < t[best->0].depth) {
            Some(hi - 1)
        } else {
            best
        }
    }
}

/// The type that node `i` states: the outermost type name under its `type`
/// child, `List` of `List<Note>`.
pub open spec fn stated_type(t: Seq<NodeView>, src: Seq<char>, i: int) -> Option<Seq<char>> {
    match first_of_kind(t, children(t, i), "type"@) {
        Some(ty) => match shallowest(t, "type_identifier"@, ty, end_of(t, ty)) {
            Some(n) => text_of(src, t[n]),
            None => None,
        },
        None => None,
    }
}

/// The type that the initialiser of node `i` constructs: the callee of a
/// constructor call.
pub open spec fn constructed(t: Seq<NodeView>, src: Seq<char>, i: int) -> Option<Seq<char>> {
    match field_of(t, i, "value"@) {
        Some(v) => if t[v].kind != "call_expression"@ {
            None
        } else {
            match field_of(t, v, "function"@) {
                Some(f) => if t[f].kind != "identifier"@ {
                    None
                } else {
                    match text_of(src, t[f]) {
                        Some(name) => if names_type(name) {
                            Some(name)
                        } else {
                            None
                        },
                        None => None,
                    }
                },
                None => None,
            }
        },
        None => None,
    }
}

/// The names of the initialised identifiers among the nodes `cs`.
pub open spec fn initialized_names(t: Seq<NodeView>, src: Seq<char>, cs: Seq<int>) -> Seq<Seq<char>>
    decreases cs.len(),
{
    if cs.len() == 0 {
        Seq::empty()
    } else {
        let rest = initialized_names(t, src, cs.drop_last());
        if t[cs.last()].kind != "initialized_identifier"@ {
            rest
        } else {
            match field_text(t, src, cs.last(), "name"@) {
                Some(n) => rest.push(n),
                None => rest,
            }
        }
    }
}

/// The names that the identifier lists among the nodes `cs` declare.
pub open spec fn listed_names(t: Seq<NodeView>, src: Seq<char>, cs: Seq<int>) -> Seq<Seq<char>>
    decreases cs.len(),
{
    if cs.len() == 0 {
        Seq::empty()
    } else {
        let rest = listed_names(t, src, cs.drop_last());
        if t[cs.last()].kind == "initialized_identifier_list"@ {
            rest + initialized_names(t, src, children(t, cs.last()))
        } else {
            rest
        }
    }
}

/// Each of `names` with the type `ty`.
pub open spec fn all_of_type(names: Seq<Seq<char>>, ty: Seq<char>) -> Seq<(Seq<char>, Seq<char>)> {
    Seq::new(names.len(), |k: int| (names[k], ty))
}

/// The names and types that node `i` itself declares.
pub open spec fn declared_at(t: Seq<NodeView>, src: Seq<char>, i: int) -> Seq<
    (Seq<char>, Seq<char>),
> {
    let kind = t[i].kind;
    if kind == "declaration"@ {
        match stated_type(t, src, i) {
            Some(ty) => all_of_type(listed_names(t, src, children(t, i)), ty),
            None => Seq::empty(),
        }
    } else if kind == "formal_parameter"@ {
        match (stated_type(t, src, i), field_text(t, src, i, "name"@)) {
            (Some(ty), Some(name)) => seq![(name, ty)],
            _ => Seq::empty(),
        }
    } else if kind == "initialized_variable_definition"@ {
        match field_text(t, src, i, "name"@) {
            Some(name) => match stated_type(t, src, i) {
                Some(ty) => seq![(name, ty)],
                None => match constructed(t, src, i) {
                    Some(ty) => seq![(name, ty)],
                    None => Seq::empty(),
                },
            },
            None => Seq::empty(),
        }
    } else {
        Seq::empty()
    }
}

/// Whether nothing below node `i` is looked at: a variable definition without
/// a name.
pub open spec fn is_nameless(t: Seq<NodeView>, src: Seq<char>, i: int) -> bool {
    t[i].kind == "initialized_variable_definition"@ && field_text(t, src, i, "name"@) is None
}

/// The names and types that the nodes from position `i` on declare.
pub open spec fn declared_from(t: Seq<NodeView>, src: Seq<char>, i: int) -> Seq<
    (Seq<char>, Seq<char>),
>
    decreases t.len() - i,
    when 0 <= i
{
    if i >= t.len() {
        Seq::empty()
    } else {
        let next = if is_nameless(t, src, i) {
            end_of(t, i)
        } else {
            i + 1
        };
        declared_at(t, src, i) + (if i < next <= t.len() {
            declared_from(t, src, next)
        } else {
            Seq::empty()
        })
    }
}

/// The type that node `i` states.
pub fn first_type_name<'a>(nodes: &Vec<SyntaxNode>, i: usize, source: &'a str) -> (r: Option<
    &'a str,
>)
    requires
        i < nodes.len(),
    ensures
        r.deep_view() == stated_type(nodes.deep_view(), source@, i as int),
{
    let ghost t = nodes.deep_view();
    let cs = child_list(nodes, i);
    match find_kind(nodes, &cs, "type") {
        None => None,
        Some(ty) => {
            let end = subtree_end(nodes, ty);
            let mut best: Option<usize> = None;
            let mut j: usize = ty;
            while j < end
                invariant
                    ty <= j <= end <= nodes.len(),
                    t == nodes.deep_view(),
                    match best {
                        Some(b) => shallowest(t, "type_identifier"@, ty as int, j as int) == Some(
                            b as int,
                        ) && b < nodes.len(),
                        None => shallowest(t, "type_identifier"@, ty as int, j as int) is None,
                    },
                decreases end - j,
            {
                assert(t[j as int].depth == nodes[j as int].depth);
                if is_kind(nodes, j, "type_identifier") {
                    match best {
                        Some(b) => {
                            assert(t[b as int].depth == nodes[b as int].depth);
                            if nodes[j].depth < nodes[b].depth {
                                best = Some(j);
                            }
                        },
                        None => {
                            best = Some(j);
                        },
                    }
                }
                j += 1;
            }
            match best {
                Some(b) => node_text(nodes, b, source),
                None => None,
            }
        },
    }
}

/// The type that the initialiser of node `i` constructs.
pub fn constructed_type<'a>(nodes: &Vec<SyntaxNode>, i: usize, source: &'a str) -> (r: Option<
    &'a str,
>)
    requires
        i < nodes.len(),
    ensures
        r.deep_view() == constructed(nodes.deep_view(), source@, i as int),
{
    match field_child(nodes, i, "value") {
        None => None,
        Some(v) => {
            if !is_kind(nodes, v, "call_expression") {
                return None;
            }
            match field_child(nodes, v, "function") {
                None => None,
                Some(f) => {
                    if !is_kind(nodes, f, "identifier") {
                        return None;
                    }
                    match node_text(nodes, f, source) {
                        Some(name) => if is_type_name(name) {
                            Some(name)
                        } else {
                            None
                        },
                        None => None,
                    }
                },
            }
        },
    }
}

fn name_of<'a>(nodes: &Vec<SyntaxNode>, i: usize, source: &'a str) -> (r: Option<&'a str>)
    requires
        i < nodes.len(),
    ensures
        r.deep_view() == field_text(nodes.deep_view(), source@, i as int, "name"@),
{
    match field_child(nodes, i, "name") {
        Some(k) => node_text(nodes, k, source),
        None => None,
    }
}

fn collect_initialized(
    nodes: &Vec<SyntaxNode>,
    i: usize,
    source: &str,
    ty: &str,
    out: &mut ReceiverTypes,
)
    requires
        i < nodes.len(),
    ensures
        final(out).declared.deep_view() == old(out).declared.deep_view() + all_of_type(
            initialized_names(nodes.deep_view(), source@, children(nodes.deep_view(), i as int)),
            ty@,
        ),
{
    let ghost t = nodes.deep_view();
    let ghost had = out.declared.deep_view();
    let cs = child_list(nodes, i);
    let ghost v = ints(cs@);
    let mut j: usize = 0;
    assert(v.take(0) =~= Seq::<int>::empty());
    assert(had =~= had + all_of_type(Seq::empty(), ty@));
    while j < cs.len()
        invariant
            j <= cs.len(),
            t == nodes.deep_view(),
            v == ints(cs@),
            forall|k: int| 0 <= k < cs.len() ==> i < #[trigger] cs@[k] < nodes.len(),
            out.declared.deep_view() == had + all_of_type(
                initialized_names(t, source@, v.take(j as int)),
                ty@,
            ),
        decreases cs.len() - j,
    {
        proof {
            assert(v.take(j + 1).drop_last() =~= v.take(j as int));
            assert(v.take(j + 1).last() == cs@[j as int] as int);
        }
        if is_kind(nodes, cs[j], "initialized_identifier") {
            match name_of(nodes, cs[j], source) {
                Some(name) => {
                    out.insert(name, ty);
                    assert(out.declared.deep_view() =~= had + all_of_type(
                        initialized_names(t, source@, v.take(j + 1)),
                        ty@,
                    ));
                },
                None => {},
            }
        }
        j += 1;
    }
    assert(v.take(cs.len() as int) =~= v);
}

/// Records the fields that the declaration at node `i` declares.
pub fn collect_field_types(
    nodes: &Vec<SyntaxNode>,
    i: usize,
    source: &str,
    out: &mut ReceiverTypes,
)
    requires
        i < nodes.len(),
    ensures
        final(out).declared.deep_view() == old(out).declared.deep_view() + (match stated_type(
            nodes.deep_view(),
            source@,
            i as int,
        ) {
            Some(ty) => all_of_type(
                listed_names(nodes.deep_view(), source@, children(nodes.deep_view(), i as int)),
                ty,
            ),
            None => Seq::empty(),
        }),
{
    let ghost t = nodes.deep_view();
    let ghost had = out.declared.deep_view();
    assert(had =~= had + Seq::<(Seq<char>, Seq<char>)>::empty());
    let ty = match first_type_name(nodes, i, source) {
        Some(ty) => ty,
        None => {
            return;
        },
    };
    let cs = child_list(nodes, i);
    let ghost v = ints(cs@);
    let mut j: usize = 0;
    assert(v.take(0) =~= Seq::<int>::empty());
    assert(had =~= had + all_of_type(Seq::empty(), ty@));
    while j < cs.len()
        invariant
            j <= cs.len(),
            t == nodes.deep_view(),
            v == ints(cs@),
            forall|k: int| 0 <= k < cs.len() ==> i < #[trigger] cs@[k] < nodes.len(),
            out.declared.deep_view() == had + all_of_type(
                listed_names(t, source@, v.take(j as int)),
                ty@,
            ),
        decreases cs.len() - j,
    {
        proof {
            assert(v.take(j + 1).drop_last() =~= v.take(j as int));
            assert(v.take(j + 1).last() == cs@[j as int] as int);
        }
        if is_kind(nodes, cs[j], "initialized_identifier_list") {
            collect_initialized(nodes, cs[j], source, ty, out);
            assert(out.declared.deep_view() =~= had + all_of_type(
                listed_names(t, source@, v.take(j + 1)),
                ty@,
            ));
        }
        j += 1;
    }
    assert(v.take(cs.len() as int) =~= v);
}

fn collect_at(nodes: &Vec<SyntaxNode>, i: usize, source: &str, out: &mut ReceiverTypes)
    requires
        i < nodes.len(),
    ensures
        final(out).declared.deep_view() == old(out).declared.deep_view() + declared_at(
            nodes.deep_view(),
            source@,
            i as int,
        ),
{
    let ghost had = out.declared.deep_view();
    let ghost t = nodes.deep_view();
    assert(had =~= had + Seq::<(Seq<char>, Seq<char>)>::empty());
    if is_kind(nodes, i, "declaration") {
        collect_field_types(nodes, i, source, out);
    } else if is_kind(nodes, i, "formal_parameter") {
        match (first_type_name(nodes, i, source), name_of(nodes, i, source)) {
            (Some(ty), Some(name)) => {
                out.insert(name, ty);
                assert(out.declared.deep_view() =~= had + declared_at(t, source@, i as int));
            },
            _ => {},
        }
    } else if is_kind(nodes, i, "initialized_variable_definition") {
        match name_of(nodes, i, source) {
            Some(name) => match first_type_name(nodes, i, source) {
                Some(ty) => {
                    out.insert(name, ty);
                    assert(out.declared.deep_view() =~= had + declared_at(t, source@, i as int));
                },
                None => match constructed_type(nodes, i, source) {
                    Some(ty) => {
                        out.insert(name, ty);
                        assert(out.declared.deep_view() =~= had + declared_at(
                            t,
                            source@,
                            i as int,
                        ));
                    },
                    None => {},
                },
            },
            None => {},
        }
    }
}

/// Every identifier whose type the syntax states: fields, parameters,
/// annotated variables, and variables initialised by a constructor call.
pub fn collect_receiver_types(nodes: &Vec<SyntaxNode>, source: &str) -> (r: ReceiverTypes)
    ensures
        r.declared.deep_view() == declared_from(nodes.deep_view(), source@, 0),
{
    let ghost t = nodes.deep_view();
    let mut out = ReceiverTypes::new();
    let mut i: usize = 0;
    assert(out.declared.deep_view() + declared_from(t, source@, 0) =~= declared_from(
        t,
        source@,
        0,
    ));
    while i < nodes.len()
        invariant
            i <= nodes.len(),
            t == nodes.deep_view(),
            out.declared.deep_view() + declared_from(t, source@, i as int) == declared_from(
                t,
                source@,
                0,
            ),
        decreases nodes.len() - i,
    {
        let ghost had = out.declared.deep_view();
        collect_at(nodes, i, source, &mut out);
        let nameless = is_kind(nodes, i, "initialized_variable_definition") && name_of(
            nodes,
            i,
            source,
        ).is_none();
        let next: usize = if nameless {
            subtree_end(nodes, i)
        } else {
            i + 1
        };
        assert(out.declared.deep_view() + declared_from(t, source@, next as int) =~= had
            + declared_from(t, source@, i as int));
        i = next;
    }
    assert(declared_from(t, source@, i as int) =~= Seq::<(Seq<char>, Seq<char>)>::empty());
    assert(out.declared.deep_view() =~= out.declared.deep_view() + declared_from(
        t,
        source@,
        i as int,
    ));
    out
}

// ── Scope ────────────────────────────────────────────────────────────────────

/// The scope that the directives before position `hi` make, over the declared
/// receiver types.
pub open spec fn directives_below(t: Seq<NodeView>, src: Seq<char>, hi: int) -> ScopeView
    decreases hi,
{
    if hi <= 0 {
        ScopeView { receivers: declared_from(t, src, 0), ..ScopeView::empty() }
    } else {
        let s = directives_below(t, src, hi - 1);
        if t[hi - 1].kind == "library_import"@ || t[hi - 1].kind == "library_export"@ {
            with_directive(t, src, hi - 1, s)
        } else {
            s
        }
    }
}

/// The names that the import and export directives anywhere in the tree bind,
/// and the declared types of the file's identifiers.
pub fn extract_imports(nodes: &Vec<SyntaxNode>, source: &str) -> (r: Imports)
    ensures
        r.deep_view() == directives_below(nodes.deep_view(), source@, nodes.len() as int),
{
    let ghost t = nodes.deep_view();
    let mut out = Imports::new();
    out.receivers = collect_receiver_types(nodes, source);
    let mut i: usize = 0;
    while i < nodes.len()
        invariant
            i <= nodes.len(),
            t == nodes.deep_view(),
            out.deep_view() == directives_below(t, source@, i as int),
        decreases nodes.len() - i,
    {
        if is_kind(nodes, i, "library_import") || is_kind(nodes, i, "library_export") {
            handle_directive(nodes, i, source, &mut out);
        }
        i += 1;
    }
    out
}

} // verus!
