//! What the directives and declarations of a Dart file mean for its calls.

use crate::chars::{after_last, before_suffix, is_quote, starts, unquoted, unquoted_end, unquoted_start};
use crate::parser::dart::{
    alias_in, declared_at, declared_from, directive_stem, directives_below, is_nameless, names_type,
    qualified_names, shown_in, stated_type, stem_of, two_levels, with_directive,
};
use crate::parser::calls::{receiver_of, site_at, sites_in};
use crate::parser::extract::file_scope;
use crate::parser::flow_laws::{law_site_of_node, sites_of};
use crate::parser::language::Language;
use crate::parser::links::names_site;
use crate::parser::python::field_text;
use crate::parser::scope::{has_type, law_type_of, ScopeView};
use crate::parser::source_laws::{gives, is_called, law_lookup, law_parent, silent};
use crate::parser::tree::{children, end_of, field_of, text_of, NodeView};
use crate::parser::treesitter::Grammar;
use vstd::prelude::*;

verus! {

// ── Directives ───────────────────────────────────────────────────────────────

proof fn lemma_directives_grow(
    t: Seq<NodeView>,
    src: Seq<char>,
    lo: int,
    hi: int,
    p: (Seq<char>, Seq<char>),
)
    requires
        0 <= lo <= hi,
    ensures
        directives_below(t, src, lo).symbols.contains(p) ==> directives_below(
            t,
            src,
            hi,
        ).symbols.contains(p),
        directives_below(t, src, lo).modules.contains(p) ==> directives_below(
            t,
            src,
            hi,
        ).modules.contains(p),
    decreases hi - lo,
{
    if lo < hi {
        lemma_directives_grow(t, src, lo, hi - 1, p);
        let s = directives_below(t, src, hi - 1);
        let r = directives_below(t, src, hi);
        if s.symbols.contains(p) {
            let m = choose|m: int| 0 <= m < s.symbols.len() && s.symbols[m] == p;
            assert(r.symbols[m] == p);
        }
        if s.modules.contains(p) {
            let m = choose|m: int| 0 <= m < s.modules.len() && s.modules[m] == p;
            assert(r.modules[m] == p);
        }
    }
}

/// The names that an import shows are bound to the names behind that of its file,
/// and its alias is bound to the file.
pub proof fn law_directives(
    t: Seq<NodeView>,
    src: Seq<char>,
    limit: nat,
    i: int,
    stem: Seq<char>,
    name: Seq<char>,
)
    requires
        0 <= i < t.len(),
        t[i].kind == "library_import"@ || t[i].kind == "library_export"@,
        directive_stem(t, src, i) == Some(stem),
    ensures
        shown_in(t, src, two_levels(t, children(t, i))).contains(name) ==> file_scope(
            Language::Dart,
            t,
            src,
            limit,
        ).symbols.contains((name, stem + "::"@ + name)),
        alias_in(t, src, two_levels(t, children(t, i))) == Some(name) ==> file_scope(
            Language::Dart,
            t,
            src,
            limit,
        ).modules.contains((name, stem)),
{
    let ds = two_levels(t, children(t, i));
    let names = shown_in(t, src, ds);
    let s = directives_below(t, src, i);
    let r = directives_below(t, src, i + 1);
    assert(r == with_directive(t, src, i, s));
    if names.contains(name) {
        let p = (name, stem + "::"@ + name);
        let x = choose|x: int| 0 <= x < names.len() && names[x] == name;
        assert(qualified_names(stem, names)[x] == p);
        assert(r.symbols[s.symbols.len() + x] == p);
        lemma_directives_grow(t, src, i + 1, t.len() as int, p);
    }
    if alias_in(t, src, ds) == Some(name) {
        assert(r.modules[s.modules.len() as int] == (name, stem));
        lemma_directives_grow(t, src, i + 1, t.len() as int, (name, stem));
    }
}

proof fn lemma_unquoted(s: Seq<char>, q: char)
    requires
        is_quote(q),
        s.len() > 0,
        !is_quote(s[0]),
        !is_quote(s.last()),
    ensures
        unquoted(seq![q] + s + seq![q]) == s,
{
    let w = seq![q] + s + seq![q];
    assert(w.drop_first() =~= s.push(q));
    assert(unquoted_start(s.push(q)) == s.push(q));
    assert(s.push(q).drop_last() =~= s);
    assert(unquoted_end(s) == s);
}

/// The name of the file of a URI is what stands behind its last `/`, without
/// `.dart`.
pub proof fn law_uri_stem(dir: Seq<char>, name: Seq<char>, q: char)
    requires
        q == '\'' || q == '"',
        dir.len() > 0,
        !is_quote(dir[0]),
        !starts(dir + "/"@ + name + ".dart"@, "dart:"@),
        !name.contains('/'),
    ensures
        stem_of(seq![q] + (dir + "/"@ + name + ".dart"@) + seq![q]) == Some(name),
{
    reveal_strlit("/");
    reveal_strlit(".dart");
    let file = name + ".dart"@;
    let uri = dir + "/"@ + name + ".dart"@;
    assert(uri =~= dir + "/"@ + file);
    assert(uri[0] == dir[0]);
    assert(uri.last() == 't');
    lemma_unquoted(uri, q);
    assert(!file.contains('/')) by {
        if file.contains('/') {
            let i = choose|i: int| 0 <= i < file.len() && file[i] == '/';
            if i < name.len() {
                assert(name[i] == '/');
            }
        }
    }
    crate::chars::law_split_last(dir, "/"@, file);
    assert(after_last(uri, "/"@) == file);
    assert(file.subrange(file.len() - 5, file.len() as int) =~= ".dart"@);
    assert(file.take(file.len() - 5) =~= name);
    assert(before_suffix(file, ".dart"@) == Some(name));
}

// ── Receivers ────────────────────────────────────────────────────────────────

/// What a parameter with a type declares is known of the file.
pub proof fn law_parameters_typed(
    t: Seq<NodeView>,
    src: Seq<char>,
    i: int,
    ty: Seq<char>,
    name: Seq<char>,
)
    requires
        0 <= i < t.len(),
        t[i].kind == "formal_parameter"@,
        stated_type(t, src, i) == Some(ty),
        field_text(t, src, i, "name"@) == Some(name),
    ensures
        declared_at(t, src, i) == seq![(name, ty)],
{
    reveal_strlit("declaration");
    reveal_strlit("formal_parameter");
    assert("declaration"@.len() == 11 && "formal_parameter"@.len() == 16);
}

/// A declaration is known of the file wherever it stands, but below a variable
/// definition without a name.
pub proof fn law_declared(
    t: Seq<NodeView>,
    src: Seq<char>,
    lo: int,
    i: int,
    p: (Seq<char>, Seq<char>),
)
    requires
        0 <= lo <= i < t.len(),
        declared_at(t, src, i).contains(p),
        forall|k: int| lo <= k < i ==> !is_nameless(t, src, k),
    ensures
        declared_from(t, src, lo).contains(p),
    decreases i - lo,
{
    let here = declared_at(t, src, lo);
    let all = declared_from(t, src, lo);
    if lo == i {
        let m = choose|m: int| 0 <= m < here.len() && here[m] == p;
        assert(all[m] == p);
    } else {
        assert(!is_nameless(t, src, lo));
        law_declared(t, src, lo + 1, i, p);
        let rest = declared_from(t, src, lo + 1);
        let m = choose|m: int| 0 <= m < rest.len() && rest[m] == p;
        assert(all[here.len() + m] == p);
    }
}

/// A call of a member of a name is a call site: qualified by the file that the name
/// was imported for, by the name where it is that of a type, by the type that all
/// declarations give it, or one whose receiver is unknown.
pub proof fn law_member_calls(
    t: Seq<NodeView>,
    src: Seq<char>,
    s: ScopeView,
    limit: nat,
    top: int,
    c: int,
    j: int,
    object: int,
    root: Seq<char>,
    method: Seq<char>,
    other: Seq<char>,
)
    requires
        is_called(t, "call_expression"@, c, j),
        t[j].kind == "member_expression"@,
        field_text(t, src, j, "property"@) == Some(method),
        field_of(t, j, "object"@) == Some(object),
        t[object].kind == "identifier"@,
        text_of(src, t[object]) == Some(root),
        top <= j < end_of(t, top),
    ensures
        gives(s.modules, root, other) ==> names_site(
            sites_in(Grammar::Dart, t, src, s, limit, top).calls,
            other + "::"@ + method,
        ),
        silent(s.modules, root) && names_type(root) ==> names_site(
            sites_in(Grammar::Dart, t, src, s, limit, top).calls,
            root + "::"@ + method,
        ),
        silent(s.modules, root) && !names_type(root) && has_type(s.receivers, root, other)
            ==> names_site(
            sites_in(Grammar::Dart, t, src, s, limit, top).calls,
            other + "::"@ + method,
        ),
        silent(s.modules, root) && !names_type(root) && silent(s.receivers, root) ==> names_site(
            sites_in(Grammar::Dart, t, src, s, limit, top).method_calls,
            method,
        ),
{
    law_parent(t, c, j);
    law_lookup(s.modules, root, other);
    law_lookup(s.receivers, root, other);
    law_type_of(s.receivers, root, other);
    reveal_strlit("identifier");
    reveal_strlit("member_expression");
    assert("identifier"@.len() == 10 && "member_expression"@.len() == 17);
    assert(receiver_of(t, src, j) == Some(root));
    assert(site_at(Grammar::Dart, t, src, s, j, limit) is Some);
    let m = (site_at(Grammar::Dart, t, src, s, j, limit)->0).0;
    let k = law_site_of_node(Grammar::Dart, t, src, s, limit, top, end_of(t, top), j);
    let list = sites_of(sites_in(Grammar::Dart, t, src, s, limit, top), m);
    assert(names_site(list, list[k].name));
}

} // verus!
