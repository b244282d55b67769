//! Rust extractors: `use` declarations and doc comments.

use crate::chars::{
    after_last, last_part, starts, starts_with, trim, trim_start_text, trimmed, without_prefixes,
};
use crate::parser::scope::{Imports, ScopeView};
use crate::parser::tree::{
    child_list, children, field_child, field_of, ints, is_kind, node_text_or_empty, text_or_empty,
    NodeView, SyntaxNode,
};
use crate::text::{chars_of, join_strings, joined_by, string_of};
use vstd::prelude::*;
use vstd::string::*;

verus! {

// ── Use declarations ─────────────────────────────────────────────────────────

/// One name that a `use` declaration brings in.
#[derive(Debug, PartialEq, Eq)]
pub struct UseDecl {
    /// Local name: the last path segment, or the alias; `*` for a wildcard.
    pub local: String,
    /// Full path of the imported symbol.
    pub path: String,
    /// Whether the import is a wildcard.
    pub glob: bool,
}

/// What a [`UseDecl`] holds.
#[verifier::ext_equal]
pub struct UseView {
    pub local: Seq<char>,
    pub path: Seq<char>,
    pub glob: bool,
}

impl DeepView for UseDecl {
    type V = UseView;

    open spec fn deep_view(&self) -> UseView {
        UseView { local: self.local@, path: self.path@, glob: self.glob }
    }
}

/// A path and a tail joined by `::`; either may be empty.
pub open spec fn joined(prefix: Seq<char>, tail: Seq<char>) -> Seq<char> {
    if prefix.len() == 0 {
        tail
    } else if tail.len() == 0 {
        prefix
    } else {
        prefix + "::"@ + tail
    }
}

/// A path and a tail joined by `::`; either may be empty.
pub fn join_path(prefix: &str, tail: &str) -> (r: String)
    ensures
        r@ == joined(prefix@, tail@),
{
    if prefix.is_empty() {
        tail.to_owned()
    } else if tail.is_empty() {
        prefix.to_owned()
    } else {
        prefix.to_owned().concat("::").concat(tail)
    }
}

/// Whether a node kind is punctuation inside a `use` tree.
pub open spec fn is_punctuation(kind: Seq<char>) -> bool {
    kind == ","@ || kind == "{"@ || kind == "}"@ || kind == "::"@ || kind == "*"@
}

fn is_use_punctuation(nodes: &Vec<SyntaxNode>, i: usize) -> (r: bool)
    requires
        i < nodes.len(),
    ensures
        r == is_punctuation(nodes.deep_view()[i as int].kind),
{
    is_kind(nodes, i, ",") || is_kind(nodes, i, "{") || is_kind(nodes, i, "}") || is_kind(
        nodes,
        i,
        "::",
    ) || is_kind(nodes, i, "*")
}

/// The text of an optional node, empty where there is none.
pub open spec fn opt_text(t: Seq<NodeView>, src: Seq<char>, i: Option<int>) -> Seq<char> {
    match i {
        Some(k) => text_or_empty(src, t[k]),
        None => Seq::empty(),
    }
}

/// The first of `cs` whose kind is not `*`.
pub open spec fn first_path(t: Seq<NodeView>, cs: Seq<int>) -> Option<int>
    decreases cs.len(),
{
    if cs.len() == 0 {
        None
    } else if t[cs[0]].kind != "*"@ {
        Some(cs[0])
    } else {
        first_path(t, cs.drop_first())
    }
}

/// The names that the `use` tree at node `i` brings in under `prefix`, down
/// to `fuel` levels of nesting.
pub open spec fn flat_use(
    t: Seq<NodeView>,
    src: Seq<char>,
    i: int,
    prefix: Seq<char>,
    fuel: nat,
) -> Seq<UseView>
    decreases fuel, 0int,
{
    let kind = t[i].kind;
    if fuel == 0 {
        Seq::empty()
    } else if kind == "identifier"@ || kind == "self"@ || kind == "super"@ || kind == "crate"@
        || kind == "metavariable"@ {
        let name = text_or_empty(src, t[i]);
        if name.len() == 0 {
            Seq::empty()
        } else {
            seq![UseView { local: name, path: joined(prefix, name), glob: false }]
        }
    } else if kind == "scoped_identifier"@ {
        let text = text_or_empty(src, t[i]);
        if text.len() == 0 {
            Seq::empty()
        } else {
            seq![UseView {
                local: after_last(text, "::"@),
                path: joined(prefix, text),
                glob: false,
            }]
        }
    } else if kind == "use_as_clause"@ {
        match (field_of(t, i, "path"@), field_of(t, i, "alias"@)) {
            (Some(p), Some(a)) => {
                let path = text_or_empty(src, t[p]);
                let alias = text_or_empty(src, t[a]);
                if path.len() == 0 || alias.len() == 0 {
                    Seq::empty()
                } else {
                    seq![UseView { local: alias, path: joined(prefix, path), glob: false }]
                }
            },
            _ => Seq::empty(),
        }
    } else if kind == "scoped_use_list"@ {
        match field_of(t, i, "list"@) {
            Some(list) => flat_all(
                t,
                src,
                children(t, list),
                joined(prefix, opt_text(t, src, field_of(t, i, "path"@))),
                (fuel - 1) as nat,
            ),
            None => Seq::empty(),
        }
    } else if kind == "use_list"@ {
        flat_all(t, src, children(t, i), prefix, (fuel - 1) as nat)
    } else if kind == "use_wildcard"@ {
        seq![UseView {
            local: "*"@,
            path: joined(prefix, opt_text(t, src, first_path(t, children(t, i)))),
            glob: true,
        }]
    } else {
        Seq::empty()
    }
}

/// The names that the nodes `cs` of a `use` list bring in, punctuation aside.
pub open spec fn flat_all(
    t: Seq<NodeView>,
    src: Seq<char>,
    cs: Seq<int>,
    prefix: Seq<char>,
    fuel: nat,
) -> Seq<UseView>
    decreases fuel, cs.len() as int,
{
    if cs.len() == 0 {
        Seq::empty()
    } else {
        let rest = flat_all(t, src, cs.drop_last(), prefix, fuel);
        if is_punctuation(t[cs.last()].kind) {
            rest
        } else {
            rest + flat_use(t, src, cs.last(), prefix, fuel)
        }
    }
}

fn push_use(out: &mut Vec<UseDecl>, local: &str, path: String, glob: bool)
    ensures
        final(out).deep_view() == old(out).deep_view().push(
            UseView { local: local@, path: path@, glob },
        ),
{
    let ghost had = out.deep_view();
    let ghost path_view = path@;
    out.push(UseDecl { local: local.to_owned(), path, glob });
    assert(out.deep_view() =~= had.push(UseView { local: local@, path: path_view, glob }));
}

/// Unfolds a `use` tree into one [`UseDecl`] per imported name, down to `fuel`
/// levels of nesting.
pub fn flatten_use(
    nodes: &Vec<SyntaxNode>,
    i: usize,
    prefix: &str,
    source: &str,
    out: &mut Vec<UseDecl>,
    fuel: usize,
)
    requires
        i < nodes.len(),
    ensures
        final(out).deep_view() == old(out).deep_view() + flat_use(
            nodes.deep_view(),
            source@,
            i as int,
            prefix@,
            fuel as nat,
        ),
    decreases fuel, 0int,
{
    let ghost t = nodes.deep_view();
    let ghost had = out.deep_view();
    assert(had + Seq::<UseView>::empty() =~= had);
    if fuel == 0 {
        return;
    }
    if is_kind(nodes, i, "identifier") || is_kind(nodes, i, "self") || is_kind(nodes, i, "super")
        || is_kind(nodes, i, "crate") || is_kind(nodes, i, "metavariable") {
        let name = node_text_or_empty(nodes, i, source);
        if name.is_empty() {
            return;
        }
        push_use(out, name, join_path(prefix, name), false);
        assert(out.deep_view() =~= had + flat_use(t, source@, i as int, prefix@, fuel as nat));
    } else if is_kind(nodes, i, "scoped_identifier") {
        let text = node_text_or_empty(nodes, i, source);
        if text.is_empty() {
            return;
        }
        let local = last_part(text, "::");
        push_use(out, local.as_str(), join_path(prefix, text), false);
        assert(out.deep_view() =~= had + flat_use(t, source@, i as int, prefix@, fuel as nat));
    } else if is_kind(nodes, i, "use_as_clause") {
        match (field_child(nodes, i, "path"), field_child(nodes, i, "alias")) {
            (Some(p), Some(a)) => {
                let path = node_text_or_empty(nodes, p, source);
                let alias = node_text_or_empty(nodes, a, source);
                if path.is_empty() || alias.is_empty() {
                    return;
                }
                push_use(out, alias, join_path(prefix, path), false);
                assert(out.deep_view() =~= had + flat_use(
                    t,
                    source@,
                    i as int,
                    prefix@,
                    fuel as nat,
                ));
            },
            _ => {},
        }
    } else if is_kind(nodes, i, "scoped_use_list") {
        let path = match field_child(nodes, i, "path") {
            Some(p) => node_text_or_empty(nodes, p, source).to_owned(),
            None => String::new(),
        };
        let combined = join_path(prefix, path.as_str());
        match field_child(nodes, i, "list") {
            Some(list) => {
                let cs = child_list(nodes, list);
                flatten_all(nodes, &cs, combined.as_str(), source, out, fuel - 1);
            },
            None => {},
        }
    } else if is_kind(nodes, i, "use_list") {
        let cs = child_list(nodes, i);
        flatten_all(nodes, &cs, prefix, source, out, fuel - 1);
    } else if is_kind(nodes, i, "use_wildcard") {
        let cs = child_list(nodes, i);
        let path = match first_not_star(nodes, &cs) {
            Some(p) => node_text_or_empty(nodes, p, source).to_owned(),
            None => String::new(),
        };
        push_use(out, "*", join_path(prefix, path.as_str()), true);
        assert(out.deep_view() =~= had + flat_use(t, source@, i as int, prefix@, fuel as nat));
    }
}

fn first_not_star(nodes: &Vec<SyntaxNode>, cs: &Vec<usize>) -> (r: Option<usize>)
    requires
        forall|k: int| 0 <= k < cs.len() ==> #[trigger] cs@[k] < nodes.len(),
    ensures
        match r {
            Some(k) => first_path(nodes.deep_view(), ints(cs@)) == Some(k as int) && k
                < nodes.len(),
            None => first_path(nodes.deep_view(), ints(cs@)) is None,
        },
{
    let ghost t = nodes.deep_view();
    let ghost v = ints(cs@);
    let mut j: usize = 0;
    assert(v.skip(0) =~= v);
    while j < cs.len()
        invariant
            j <= cs.len(),
            t == nodes.deep_view(),
            v == ints(cs@),
            forall|k: int| 0 <= k < cs.len() ==> #[trigger] cs@[k] < nodes.len(),
            first_path(t, v) == first_path(t, v.skip(j as int)),
        decreases cs.len() - j,
    {
        assert(v.skip(j as int)[0] == v[j as int]);
        assert(v.skip(j as int).drop_first() =~= v.skip(j + 1));
        if !is_kind(nodes, cs[j], "*") {
            return Some(cs[j]);
        }
        j += 1;
    }
    None
}

fn flatten_all(
    nodes: &Vec<SyntaxNode>,
    cs: &Vec<usize>,
    prefix: &str,
    source: &str,
    out: &mut Vec<UseDecl>,
    fuel: usize,
)
    requires
        forall|k: int| 0 <= k < cs.len() ==> #[trigger] cs@[k] < nodes.len(),
    ensures
        final(out).deep_view() == old(out).deep_view() + flat_all(
            nodes.deep_view(),
            source@,
            ints(cs@),
            prefix@,
            fuel as nat,
        ),
    decreases fuel, 1int,
{
    let ghost t = nodes.deep_view();
    let ghost had = out.deep_view();
    let ghost v = ints(cs@);
    let mut j: usize = 0;
    assert(v.take(0) =~= Seq::<int>::empty());
    assert(out.deep_view() =~= had + Seq::<UseView>::empty());
    while j < cs.len()
        invariant
            j <= cs.len(),
            t == nodes.deep_view(),
            v == ints(cs@),
            forall|k: int| 0 <= k < cs.len() ==> #[trigger] cs@[k] < nodes.len(),
            out.deep_view() == had + flat_all(
                t,
                source@,
                v.take(j as int),
                prefix@,
                fuel as nat,
            ),
        decreases cs.len() - j,
    {
        let ghost so_far = out.deep_view();
        proof {
            assert(v.take(j + 1).drop_last() =~= v.take(j as int));
            assert(v.take(j + 1).last() == cs@[j as int] as int);
        }
        if !is_use_punctuation(nodes, cs[j]) {
            flatten_use(nodes, cs[j], prefix, source, out, fuel);
            assert(out.deep_view() =~= had + flat_all(
                t,
                source@,
                v.take(j + 1),
                prefix@,
                fuel as nat,
            ));
        }
        j += 1;
    }
    assert(v.take(cs.len() as int) =~= v);
}

/// Whether one of the nodes `cs` is a visibility modifier.
pub open spec fn any_visibility(t: Seq<NodeView>, cs: Seq<int>) -> bool {
    exists|k: int| 0 <= k < cs.len() && t[#[trigger] cs[k]].kind == "visibility_modifier"@
}

/// Whether a node kind may stand in a `use` declaration beside its argument.
pub open spec fn beside_argument(kind: Seq<char>) -> bool {
    kind == "use"@ || kind == ";"@ || kind == "visibility_modifier"@ || kind == "line_comment"@
        || kind == "block_comment"@
}

/// The first of `cs` that can be the argument of a `use` declaration.
pub open spec fn argument_of(t: Seq<NodeView>, cs: Seq<int>) -> Option<int>
    decreases cs.len(),
{
    if cs.len() == 0 {
        None
    } else if !beside_argument(t[cs[0]].kind) {
        Some(cs[0])
    } else {
        argument_of(t, cs.drop_first())
    }
}

/// The names that a `use` declaration at node `i` brings into the file's
/// scope: none where it is re-exported.
pub open spec fn use_names(t: Seq<NodeView>, src: Seq<char>, i: int, limit: nat) -> Seq<UseView> {
    let cs = children(t, i);
    if any_visibility(t, cs) {
        Seq::empty()
    } else {
        match argument_of(t, cs) {
            Some(arg) => flat_use(t, src, arg, Seq::empty(), limit),
            None => Seq::empty(),
        }
    }
}

/// The names that the `use` declarations before position `hi` bring in.
pub open spec fn uses_below(t: Seq<NodeView>, src: Seq<char>, limit: nat, hi: int) -> Seq<UseView>
    decreases hi,
{
    if hi <= 0 {
        Seq::empty()
    } else {
        let rest = uses_below(t, src, limit, hi - 1);
        if t[hi - 1].kind == "use_declaration"@ {
            rest + use_names(t, src, hi - 1, limit)
        } else {
            rest
        }
    }
}

fn has_visibility_modifier(nodes: &Vec<SyntaxNode>, cs: &Vec<usize>) -> (r: bool)
    requires
        forall|k: int| 0 <= k < cs.len() ==> #[trigger] cs@[k] < nodes.len(),
    ensures
        r == any_visibility(nodes.deep_view(), ints(cs@)),
{
    let ghost v = ints(cs@);
    let mut j: usize = 0;
    while j < cs.len()
        invariant
            j <= cs.len(),
            v == ints(cs@),
            forall|k: int| 0 <= k < cs.len() ==> #[trigger] cs@[k] < nodes.len(),
            forall|k: int|
                0 <= k < j ==> nodes.deep_view()[#[trigger] v[k]].kind != "visibility_modifier"@,
        decreases cs.len() - j,
    {
        assert(v[j as int] == cs@[j as int] as int);
        if is_kind(nodes, cs[j], "visibility_modifier") {
            return true;
        }
        j += 1;
    }
    false
}

fn use_argument(nodes: &Vec<SyntaxNode>, cs: &Vec<usize>) -> (r: Option<usize>)
    requires
        forall|k: int| 0 <= k < cs.len() ==> #[trigger] cs@[k] < nodes.len(),
    ensures
        match r {
            Some(k) => argument_of(nodes.deep_view(), ints(cs@)) == Some(k as int) && k
                < nodes.len(),
            None => argument_of(nodes.deep_view(), ints(cs@)) is None,
        },
{
    let ghost t = nodes.deep_view();
    let ghost v = ints(cs@);
    let mut j: usize = 0;
    assert(v.skip(0) =~= v);
    while j < cs.len()
        invariant
            j <= cs.len(),
            t == nodes.deep_view(),
            v == ints(cs@),
            forall|k: int| 0 <= k < cs.len() ==> #[trigger] cs@[k] < nodes.len(),
            argument_of(t, v) == argument_of(t, v.skip(j as int)),
        decreases cs.len() - j,
    {
        assert(v.skip(j as int)[0] == v[j as int]);
        assert(v.skip(j as int).drop_first() =~= v.skip(j + 1));
        let k: usize = cs[j];
        if !(is_kind(nodes, k, "use") || is_kind(nodes, k, ";") || is_kind(
            nodes,
            k,
            "visibility_modifier",
        ) || is_kind(nodes, k, "line_comment") || is_kind(nodes, k, "block_comment")) {
            return Some(k);
        }
        j += 1;
    }
    None
}

/// Every name that a `use` declaration anywhere in the tree brings in.
/// Re-exports are left out; groups are unfolded down to `limit` levels.
pub fn extract_use_decls(nodes: &Vec<SyntaxNode>, source: &str, limit: usize) -> (r: Vec<UseDecl>)
    ensures
        r.deep_view() == uses_below(
            nodes.deep_view(),
            source@,
            limit as nat,
            nodes.len() as int,
        ),
{
    let ghost t = nodes.deep_view();
    let mut out: Vec<UseDecl> = Vec::new();
    let mut i: usize = 0;
    assert(out.deep_view() =~= Seq::<UseView>::empty());
    while i < nodes.len()
        invariant
            i <= nodes.len(),
            t == nodes.deep_view(),
            out.deep_view() == uses_below(t, source@, limit as nat, i as int),
        decreases nodes.len() - i,
    {
        let ghost had = out.deep_view();
        if is_kind(nodes, i, "use_declaration") {
            assert(had + Seq::<UseView>::empty() =~= had);
            let cs = child_list(nodes, i);
            if !has_visibility_modifier(nodes, &cs) {
                match use_argument(nodes, &cs) {
                    Some(arg) => {
                        let empty = String::new();
                        flatten_use(nodes, arg, empty.as_str(), source, &mut out, limit);
                    },
                    None => {},
                }
            }
        }
        i += 1;
    }
    out
}

/// The local name and path of every import that is not a wildcard.
pub open spec fn import_pairs(decls: Seq<UseView>) -> Seq<(Seq<char>, Seq<char>)>
    decreases decls.len(),
{
    if decls.len() == 0 {
        Seq::empty()
    } else {
        let rest = import_pairs(decls.drop_last());
        if decls.last().glob {
            rest
        } else {
            rest.push((decls.last().local, decls.last().path))
        }
    }
}

/// The table that expands bare names: local name to full path. Wildcards are
/// left out; of two imports under one name the later counts.
pub fn use_decls_to_imports(decls: &Vec<UseDecl>) -> (r: Imports)
    ensures
        r.deep_view() == (ScopeView {
            symbols: import_pairs(decls.deep_view()),
            ..ScopeView::empty()
        }),
{
    let ghost v = decls.deep_view();
    let mut out = Imports::new();
    let mut i: usize = 0;
    assert(v.take(0) =~= Seq::<UseView>::empty());
    while i < decls.len()
        invariant
            i <= decls.len(),
            v == decls.deep_view(),
            out.deep_view() == (ScopeView {
                symbols: import_pairs(v.take(i as int)),
                ..ScopeView::empty()
            }),
        decreases decls.len() - i,
    {
        proof {
            assert(v.take(i + 1).drop_last() =~= v.take(i as int));
            assert(v.take(i + 1).last() == decls[i as int].deep_view());
        }
        if !decls[i].glob {
            out.add_symbol(decls[i].local.as_str(), decls[i].path.as_str());
        }
        i += 1;
    }
    assert(v.take(decls.len() as int) =~= v);
    out
}

// ── Doc comments ─────────────────────────────────────────────────────────────

/// Whether `c` ends a line.
pub open spec fn is_eol(c: char) -> bool {
    c == '\n' || c == '\r'
}

/// The first position from `i` on that ends a line, or the end of the text.
pub open spec fn eol_from(s: Seq<char>, i: int) -> int
    decreases s.len() - i,
{
    if i >= s.len() || is_eol(s[i]) {
        i
    } else {
        eol_from(s, i + 1)
    }
}

/// The position after the line ending at `i`: `\r\n` counts as one.
pub open spec fn past_eol(s: Seq<char>, i: int) -> int {
    if s[i] == '\r' && i + 1 < s.len() && s[i + 1] == '\n' {
        i + 2
    } else {
        i + 1
    }
}

/// The lines of the text from position `i` on, split at `\n`, `\r\n` and `\r`.
pub open spec fn lines_from(s: Seq<char>, i: int) -> Seq<Seq<char>>
    decreases s.len() - i,
    when 0 <= i
{
    if i >= s.len() {
        Seq::empty()
    } else {
        let e = eol_from(s, i);
        if i <= e < s.len() {
            seq![s.subrange(i, e)] + lines_from(s, past_eol(s, e))
        } else {
            seq![s.subrange(i, s.len() as int)]
        }
    }
}

/// Whether a trimmed line is a doc comment.
pub open spec fn is_doc(line: Seq<char>) -> bool {
    starts(line, "///"@) || starts(line, "//!"@)
}

/// The trimmed line `row`; empty past the end.
pub open spec fn line_at(lines: Seq<Seq<char>>, row: int) -> Seq<char> {
    if row < lines.len() {
        trimmed(lines[row])
    } else {
        Seq::empty()
    }
}

/// The text of a doc comment line, without its marks.
pub open spec fn doc_text(line: Seq<char>) -> Seq<char> {
    trimmed(without_prefixes(without_prefixes(line, "///"@), "//!"@))
}

/// The texts of the doc comment lines directly above `row`, top to bottom.
pub open spec fn doc_block(lines: Seq<Seq<char>>, row: int) -> Seq<Seq<char>>
    decreases row,
{
    if row <= 0 || !is_doc(line_at(lines, row - 1)) {
        Seq::empty()
    } else {
        doc_block(lines, row - 1).push(doc_text(line_at(lines, row - 1)))
    }
}

/// The doc comment above `row`: the lines directly above it that start with
/// `///` or `//!`, without their marks.
pub open spec fn doc_above(source: Seq<char>, row: int) -> Seq<char> {
    joined_by(doc_block(lines_from(source, 0), row), "\n"@)
}

proof fn lemma_eol_from(s: Seq<char>, i: int)
    requires
        0 <= i <= s.len(),
    ensures
        i <= eol_from(s, i) <= s.len(),
    decreases s.len() - i,
{
    if i < s.len() && !is_eol(s[i]) {
        lemma_eol_from(s, i + 1);
    }
}

/// The lines of a text, split at `\n`, `\r\n` and `\r`.
pub fn split_doc_lines(source: &str) -> (r: Vec<String>)
    ensures
        r.deep_view() == lines_from(source@, 0),
{
    let s = chars_of(source);
    let mut out: Vec<String> = Vec::new();
    let mut start: usize = 0;
    assert(out.deep_view() + lines_from(source@, 0) =~= lines_from(source@, 0));
    while start < s.len()
        invariant
            start <= s.len(),
            s@ == source@,
            out.deep_view() + lines_from(source@, start as int) == lines_from(source@, 0),
        decreases s.len() - start,
    {
        let ghost had = out.deep_view();
        proof {
            lemma_eol_from(source@, start as int);
        }
        let mut e: usize = start;
        while e < s.len() && s[e] != '\n' && s[e] != '\r'
            invariant
                start <= e <= s.len(),
                s@ == source@,
                eol_from(source@, start as int) == eol_from(source@, e as int),
            decreases s.len() - e,
        {
            e += 1;
        }
        let line = string_of(s.as_slice(), start, e);
        out.push(line);
        assert(out.deep_view() =~= had.push(source@.subrange(start as int, e as int)));
        if e < s.len() {
            let next: usize = if s[e] == '\r' && e + 1 < s.len() && s[e + 1] == '\n' {
                e + 2
            } else {
                e + 1
            };
            assert(out.deep_view() + lines_from(source@, next as int) =~= had + lines_from(
                source@,
                start as int,
            ));
            start = next;
        } else {
            assert(lines_from(source@, s.len() as int) =~= Seq::<Seq<char>>::empty());
            assert(out.deep_view() + lines_from(source@, s.len() as int) =~= had + lines_from(
                source@,
                start as int,
            ));
            start = s.len();
        }
    }
    assert(lines_from(source@, start as int) =~= Seq::<Seq<char>>::empty());
    assert(out.deep_view() =~= out.deep_view() + lines_from(source@, start as int));
    out
}

/// The doc comment above `item_row`.
pub fn doc_comment(source: &str, item_row: usize) -> (r: String)
    ensures
        r@ == doc_above(source@, item_row as int),
{
    let lines = split_doc_lines(source);
    let ghost ls = lines.deep_view();
    let mut upward: Vec<String> = Vec::new();
    let mut row: usize = item_row;
    let ghost block = doc_block(ls, item_row as int);
    assert(block =~= doc_block(ls, row as int) + upward.deep_view().reverse());
    while row > 0
        invariant
            row <= item_row,
            ls == lines.deep_view(),
            block == doc_block(ls, row as int) + upward.deep_view().reverse(),
        ensures
            block == upward.deep_view().reverse(),
        decreases row,
    {
        let line = if row - 1 < lines.len() {
            trim(lines[row - 1].as_str())
        } else {
            String::new()
        };
        assert(line@ == line_at(ls, row - 1));
        if !(starts_with(line.as_str(), "///") || starts_with(line.as_str(), "//!")) {
            assert(block =~= upward.deep_view().reverse());
            break;
        }
        let text = trim(
            trim_start_text(trim_start_text(line.as_str(), "///").as_str(), "//!").as_str(),
        );
        let ghost had = upward.deep_view();
        upward.push(text);
        proof {
            assert(upward.deep_view() =~= had.push(doc_text(line@)));
            assert(upward.deep_view().reverse() =~= seq![doc_text(line@)] + had.reverse());
            assert(block =~= doc_block(ls, row - 1) + upward.deep_view().reverse());
        }
        row -= 1;
    }
    let mut down: Vec<String> = Vec::new();
    let mut i: usize = upward.len();
    while i > 0
        invariant
            i <= upward.len(),
            down.deep_view() == upward.deep_view().reverse().take(upward.len() - i),
        decreases i,
    {
        let ghost had = down.deep_view();
        down.push(upward[i - 1].clone());
        proof {
            let n = upward.len() - i;
            assert(down.deep_view() =~= had.push(upward.deep_view()[i - 1]));
            assert(upward.deep_view().reverse()[n] == upward.deep_view()[i - 1]);
            assert(down.deep_view() =~= upward.deep_view().reverse().take(n + 1));
        }
        i -= 1;
    }
    assert(down.deep_view() =~= upward.deep_view().reverse());
    join_strings(&down, "\n")
}

} // verus!
