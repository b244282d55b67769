//! What the imports of a file bind, and which comments document an item.

use crate::chars::after_last;
use crate::parser::extract::file_scope;
use crate::parser::language::Language;
use crate::parser::python::{
    aliased, from_binding, from_bindings, from_module, has_keyword, import_binding,
    import_bindings, imports_below, last_segment, qualified, segments, with_import,
};
use crate::parser::rust::{
    any_visibility, argument_of, doc_block, doc_text, flat_all, flat_use, import_pairs, is_doc,
    is_eol, is_punctuation, line_at, lines_from, use_names, uses_below, UseView,
};
use crate::parser::tree::{children, field_of, text_of, text_or_empty, NodeView};
use vstd::prelude::*;

verus! {

// ── Rust imports ─────────────────────────────────────────────────────────────

proof fn lemma_all_in(
    t: Seq<NodeView>,
    src: Seq<char>,
    cs: Seq<int>,
    prefix: Seq<char>,
    fuel: nat,
    k: int,
    u: UseView,
)
    requires
        0 <= k < cs.len(),
        !is_punctuation(t[cs[k]].kind),
        flat_use(t, src, cs[k], prefix, fuel).contains(u),
    ensures
        flat_all(t, src, cs, prefix, fuel).contains(u),
    decreases cs.len(),
{
    let front = cs.drop_last();
    let rest = flat_all(t, src, front, prefix, fuel);
    let all = flat_all(t, src, cs, prefix, fuel);
    if k < front.len() {
        assert(front[k] == cs[k]);
        lemma_all_in(t, src, front, prefix, fuel, k, u);
        let m = choose|m: int| 0 <= m < rest.len() && rest[m] == u;
        assert(all[m] == u);
    } else {
        let last = flat_use(t, src, cs.last(), prefix, fuel);
        let m = choose|m: int| 0 <= m < last.len() && last[m] == u;
        assert(all[rest.len() + m] == u);
    }
}

/// A list in braces brings in what each of its entries brings in under the path
/// before the braces.
pub proof fn law_use_lists(
    t: Seq<NodeView>,
    src: Seq<char>,
    i: int,
    path: int,
    list: int,
    prefix: Seq<char>,
    fuel: nat,
    k: int,
    u: UseView,
)
    requires
        fuel > 0,
        t[i].kind == "scoped_use_list"@,
        field_of(t, i, "path"@) == Some(path),
        field_of(t, i, "list"@) == Some(list),
        text_or_empty(src, t[path]).len() > 0,
        0 <= k < children(t, list).len(),
        !is_punctuation(t[children(t, list)[k]].kind),
        flat_use(
            t,
            src,
            children(t, list)[k],
            if prefix.len() == 0 {
                text_or_empty(src, t[path])
            } else {
                prefix + "::"@ + text_or_empty(src, t[path])
            },
            (fuel - 1) as nat,
        ).contains(u),
    ensures
        flat_use(t, src, i, prefix, fuel).contains(u),
{
    lemma_kinds();
    let inner = if prefix.len() == 0 {
        text_or_empty(src, t[path])
    } else {
        prefix + "::"@ + text_or_empty(src, t[path])
    };
    lemma_all_in(t, src, children(t, list), inner, (fuel - 1) as nat, k, u);
}

proof fn lemma_kinds()
    ensures
        "scoped_use_list"@ != "identifier"@,
        "scoped_use_list"@ != "self"@,
        "scoped_use_list"@ != "super"@,
        "scoped_use_list"@ != "crate"@,
        "scoped_use_list"@ != "metavariable"@,
        "scoped_use_list"@ != "scoped_identifier"@,
        "scoped_use_list"@ != "use_as_clause"@,
        "scoped_identifier"@ != "identifier"@,
        "scoped_identifier"@ != "self"@,
        "scoped_identifier"@ != "super"@,
        "scoped_identifier"@ != "crate"@,
        "scoped_identifier"@ != "metavariable"@,
        "use_as_clause"@ != "identifier"@,
        "use_as_clause"@ != "self"@,
        "use_as_clause"@ != "super"@,
        "use_as_clause"@ != "crate"@,
        "use_as_clause"@ != "metavariable"@,
        "use_as_clause"@ != "scoped_identifier"@,
{
    reveal_strlit("scoped_use_list");
    reveal_strlit("identifier");
    reveal_strlit("self");
    reveal_strlit("super");
    reveal_strlit("crate");
    reveal_strlit("metavariable");
    reveal_strlit("scoped_identifier");
    reveal_strlit("use_as_clause");
    assert("scoped_use_list"@.len() == 15 && "scoped_identifier"@.len() == 17
        && "use_as_clause"@.len() == 13 && "identifier"@.len() == 10 && "self"@.len() == 4
        && "super"@.len() == 5 && "crate"@.len() == 5 && "metavariable"@.len() == 12);
}

/// A name at the end of a `use` tree is bound to the path of the tree and the
/// name; with `as`, the new name is bound to the path of the tree and the old
/// one.
pub proof fn law_use_names(
    t: Seq<NodeView>,
    src: Seq<char>,
    i: int,
    prefix: Seq<char>,
    fuel: nat,
    name: Seq<char>,
)
    requires
        fuel > 0,
        prefix.len() > 0,
        name.len() > 0,
    ensures
        t[i].kind == "identifier"@ && text_or_empty(src, t[i]) == name ==> flat_use(
            t,
            src,
            i,
            prefix,
            fuel,
        ) == seq![UseView { local: name, path: prefix + "::"@ + name, glob: false }],
        forall|p: int, a: int|
            t[i].kind == "use_as_clause"@ && field_of(t, i, "path"@) == Some(p) && field_of(
                t,
                i,
                "alias"@,
            ) == Some(a) && #[trigger] text_or_empty(src, t[p]) == name && (
            #[trigger] text_or_empty(src, t[a])).len() > 0 ==> flat_use(t, src, i, prefix, fuel)
                == seq![
                UseView {
                    local: text_or_empty(src, t[a]),
                    path: prefix + "::"@ + name,
                    glob: false,
                },
            ],
{
    lemma_kinds();
}

/// A declaration of a path without a list binds the last name of the path, or
/// the name behind `as`, to the whole path.
pub proof fn law_use_paths(t: Seq<NodeView>, src: Seq<char>, i: int, fuel: nat, text: Seq<char>)
    requires
        fuel > 0,
        text.len() > 0,
    ensures
        t[i].kind == "scoped_identifier"@ && text_or_empty(src, t[i]) == text ==> flat_use(
            t,
            src,
            i,
            Seq::empty(),
            fuel,
        ) == seq![UseView { local: after_last(text, "::"@), path: text, glob: false }],
        forall|p: int, a: int|
            t[i].kind == "use_as_clause"@ && field_of(t, i, "path"@) == Some(p) && field_of(
                t,
                i,
                "alias"@,
            ) == Some(a) && #[trigger] text_or_empty(src, t[p]) == text && (
            #[trigger] text_or_empty(src, t[a])).len() > 0 ==> flat_use(
                t,
                src,
                i,
                Seq::empty(),
                fuel,
            ) == seq![
                UseView { local: text_or_empty(src, t[a]), path: text, glob: false },
            ],
{
    lemma_kinds();
}

/// The last name of a path is what follows its last `::`.
pub proof fn law_last_name(front: Seq<char>, name: Seq<char>)
    requires
        !name.contains(':'),
    ensures
        after_last(front + "::"@ + name, "::"@) == name,
{
    reveal_strlit("::");
    let s = front + "::"@ + name;
    let n = front.len() as int;
    assert(s.subrange(n, n + 2) =~= "::"@);
    assert(s.skip(n + 2) =~= name);
    assert("::"@ =~= seq![':', ':']);
    lemma_back(s, name, n, s.len() - 2);
}

proof fn lemma_back(s: Seq<char>, name: Seq<char>, n: int, i: int)
    requires
        0 <= n <= i <= s.len() - 2,
        s.len() == n + 2 + name.len(),
        s.skip(n + 2) == name,
        !name.contains(':'),
        crate::chars::occurs_at(s, "::"@, n),
        "::"@ == seq![':', ':'],
    ensures
        crate::chars::find_back(s, "::"@, i) == Some(n),
    decreases i,
{
    if i > n {
        assert(s.skip(n + 2)[i + 1 - n - 2] == s[i + 1]);
        assert(name[i - n - 1] != ':');
        assert(s.subrange(i, i + 2)[1] == s[i + 1]);
        lemma_back(s, name, n, i - 1);
    }
}

proof fn lemma_pairs(us: Seq<UseView>, k: int)
    requires
        0 <= k < us.len(),
        !us[k].glob,
    ensures
        import_pairs(us).contains((us[k].local, us[k].path)),
    decreases us.len(),
{
    let front = us.drop_last();
    let p = (us[k].local, us[k].path);
    if k < front.len() {
        assert(front[k] == us[k]);
        lemma_pairs(front, k);
        let m = choose|m: int| 0 <= m < import_pairs(front).len() && import_pairs(front)[m] == p;
        assert(import_pairs(us)[m] == p);
    } else {
        assert(import_pairs(us)[import_pairs(front).len() as int] == p);
    }
}

proof fn lemma_uses_below(t: Seq<NodeView>, src: Seq<char>, limit: nat, hi: int, i: int, u: UseView)
    requires
        0 <= i < hi,
        t[i].kind == "use_declaration"@,
        use_names(t, src, i, limit).contains(u),
    ensures
        uses_below(t, src, limit, hi).contains(u),
    decreases hi,
{
    let rest = uses_below(t, src, limit, hi - 1);
    let all = uses_below(t, src, limit, hi);
    if i < hi - 1 {
        lemma_uses_below(t, src, limit, hi - 1, i, u);
        let m = choose|m: int| 0 <= m < rest.len() && rest[m] == u;
        assert(all[m] == u);
    } else {
        let last = use_names(t, src, i, limit);
        let m = choose|m: int| 0 <= m < last.len() && last[m] == u;
        assert(all[rest.len() + m] == u);
    }
}

/// What the tree of a `use` declaration without a visibility brings in is bound
/// in the file, wildcards aside.
pub proof fn law_uses_bound(
    t: Seq<NodeView>,
    src: Seq<char>,
    limit: nat,
    i: int,
    arg: int,
    u: UseView,
)
    requires
        0 <= i < t.len(),
        t[i].kind == "use_declaration"@,
        !any_visibility(t, children(t, i)),
        argument_of(t, children(t, i)) == Some(arg),
        flat_use(t, src, arg, Seq::empty(), limit).contains(u),
        !u.glob,
    ensures
        file_scope(Language::Rust, t, src, limit).symbols.contains((u.local, u.path)),
{
    let us = uses_below(t, src, limit, t.len() as int);
    lemma_uses_below(t, src, limit, t.len() as int, i, u);
    let k = choose|k: int| 0 <= k < us.len() && us[k] == u;
    lemma_pairs(us, k);
}

/// Whether a declaration without a visibility brings in a name, and not by a
/// wildcard.
pub open spec fn brings_in(
    t: Seq<NodeView>,
    src: Seq<char>,
    limit: nat,
    i: int,
    p: (Seq<char>, Seq<char>),
) -> bool {
    &&& t[i].kind == "use_declaration"@
    &&& forall|k: int|
        0 <= k < children(t, i).len() ==> t[#[trigger] children(t, i)[k]].kind
            != "visibility_modifier"@
    &&& argument_of(t, children(t, i)) is Some
    &&& flat_use(t, src, argument_of(t, children(t, i))->0, Seq::empty(), limit).contains(
        (UseView { local: p.0, path: p.1, glob: false }),
    )
}

proof fn lemma_uses_only(t: Seq<NodeView>, src: Seq<char>, limit: nat, hi: int, k: int) -> (i: int)
    requires
        0 <= k < uses_below(t, src, limit, hi).len(),
    ensures
        0 <= i < hi,
        is_use_at(t, src, limit, i, uses_below(t, src, limit, hi)[k]),
    decreases hi,
{
    let rest = uses_below(t, src, limit, hi - 1);
    if k < rest.len() {
        lemma_uses_only(t, src, limit, hi - 1, k)
    } else {
        let last = use_names(t, src, hi - 1, limit);
        assert(last[k - rest.len()] == uses_below(t, src, limit, hi)[k]);
        hi - 1
    }
}

spec fn is_use_at(t: Seq<NodeView>, src: Seq<char>, limit: nat, i: int, u: UseView) -> bool {
    t[i].kind == "use_declaration"@ && use_names(t, src, i, limit).contains(u)
}

proof fn lemma_pairs_only(us: Seq<UseView>)
    ensures
        forall|m: int|
            0 <= m < import_pairs(us).len() ==> exists|k: int|
                0 <= k < us.len() && !(#[trigger] us[k]).glob && (us[k].local, us[k].path)
                    == #[trigger] import_pairs(us)[m],
    decreases us.len(),
{
    if us.len() > 0 {
        let before = us.drop_last();
        lemma_pairs_only(before);
        let front = import_pairs(before);
        let all = import_pairs(us);
        assert forall|m: int| 0 <= m < all.len() implies exists|k: int|
            0 <= k < us.len() && !(#[trigger] us[k]).glob && (us[k].local, us[k].path)
                == #[trigger] all[m] by {
            if m < front.len() {
                assert(all[m] == front[m]);
                let k = choose|k: int|
                    0 <= k < before.len() && !(#[trigger] before[k]).glob && (
                    before[k].local,
                    before[k].path,
                    ) == front[m];
                assert(us[k] == before[k]);
            } else {
                assert(us[us.len() - 1] == us.last());
            }
        }
    }
}

/// A file binds only what its `use` declarations without a visibility bring in:
/// neither what it re-exports nor what a wildcard stands for.
pub proof fn law_uses_only(t: Seq<NodeView>, src: Seq<char>, limit: nat, m: int)
    requires
        0 <= m < file_scope(Language::Rust, t, src, limit).symbols.len(),
    ensures
        exists|i: int|
            0 <= i < t.len() && #[trigger] brings_in(
                t,
                src,
                limit,
                i,
                file_scope(Language::Rust, t, src, limit).symbols[m],
            ),
{
    let us = uses_below(t, src, limit, t.len() as int);
    let p = file_scope(Language::Rust, t, src, limit).symbols[m];
    lemma_pairs_only(us);
    let k = choose|k: int|
        0 <= k < us.len() && !(#[trigger] us[k]).glob && (us[k].local, us[k].path) == p;
    let i = lemma_uses_only(t, src, limit, t.len() as int, k);
    assert(us[k] == (UseView { local: p.0, path: p.1, glob: false }));
    assert(brings_in(t, src, limit, i, p));
}

// ── Python imports ───────────────────────────────────────────────────────────

/// The last name of a dotted name is that of its last identifier.
pub proof fn law_last_segment(t: Seq<NodeView>, src: Seq<char>, i: int, k: int, name: Seq<char>)
    requires
        0 <= k < children(t, i).len(),
        t[children(t, i)[k]].kind == "identifier"@,
        text_of(src, t[children(t, i)[k]]) == Some(name),
        forall|m: int|
            k < m < children(t, i).len() ==> t[#[trigger] children(t, i)[m]].kind
                != "identifier"@,
    ensures
        last_segment(t, src, i) == Some(name),
{
    lemma_segments_last(t, src, children(t, i), k, name);
}

proof fn lemma_segments_last(t: Seq<NodeView>, src: Seq<char>, cs: Seq<int>, k: int, name: Seq<char>)
    requires
        0 <= k < cs.len(),
        t[cs[k]].kind == "identifier"@,
        text_of(src, t[cs[k]]) == Some(name),
        forall|m: int| k < m < cs.len() ==> t[#[trigger] cs[m]].kind != "identifier"@,
    ensures
        segments(t, src, cs).len() > 0,
        segments(t, src, cs).last() == name,
    decreases cs.len(),
{
    let front = cs.drop_last();
    if k < front.len() {
        assert(t[cs[cs.len() - 1]].kind != "identifier"@);
        assert forall|m: int| k < m < front.len() implies t[#[trigger] front[m]].kind
            != "identifier"@ by {
            assert(front[m] == cs[m]);
        }
        lemma_segments_last(t, src, front, k, name);
    }
}

proof fn lemma_from_in(t: Seq<NodeView>, src: Seq<char>, cs: Seq<int>, w: int, k: int)
    requires
        0 <= w < k < cs.len(),
        t[cs[w]].kind == "import"@,
        t[cs[k]].kind != "import"@,
        from_binding(t, src, cs[k]) is Some,
    ensures
        from_bindings(t, src, cs).contains(from_binding(t, src, cs[k])->0),
    decreases cs.len(),
{
    let front = cs.drop_last();
    let p = from_binding(t, src, cs[k])->0;
    let rest = from_bindings(t, src, front);
    let all = from_bindings(t, src, cs);
    if k < front.len() {
        assert(front[k] == cs[k] && front[w] == cs[w]);
        lemma_from_in(t, src, front, w, k);
        let m = choose|m: int| 0 <= m < rest.len() && rest[m] == p;
        assert(all[m] == p);
    } else {
        lemma_keyword(t, front, w);
        assert(all[rest.len() as int] == p);
    }
}

proof fn lemma_keyword(t: Seq<NodeView>, cs: Seq<int>, w: int)
    requires
        0 <= w < cs.len(),
        t[cs[w]].kind == "import"@,
    ensures
        has_keyword(t, cs),
    decreases cs.len(),
{
    if w < cs.len() - 1 {
        assert(cs.drop_last()[w] == cs[w]);
        lemma_keyword(t, cs.drop_last(), w);
    }
}

proof fn lemma_import_in(t: Seq<NodeView>, src: Seq<char>, cs: Seq<int>, k: int)
    requires
        0 <= k < cs.len(),
        import_binding(t, src, cs[k]) is Some,
    ensures
        import_bindings(t, src, cs).contains(import_binding(t, src, cs[k])->0),
    decreases cs.len(),
{
    let front = cs.drop_last();
    let p = import_binding(t, src, cs[k])->0;
    let rest = import_bindings(t, src, front);
    let all = import_bindings(t, src, cs);
    if k < front.len() {
        assert(front[k] == cs[k]);
        lemma_import_in(t, src, front, k);
        let m = choose|m: int| 0 <= m < rest.len() && rest[m] == p;
        assert(all[m] == p);
    } else {
        assert(all[rest.len() as int] == p);
    }
}

proof fn lemma_imports_grow(t: Seq<NodeView>, src: Seq<char>, lo: int, hi: int, p: (Seq<char>, Seq<char>))
    requires
        0 <= lo <= hi,
    ensures
        imports_below(t, src, lo).symbols.contains(p) ==> imports_below(t, src, hi).symbols.contains(p),
        imports_below(t, src, lo).modules.contains(p) ==> imports_below(t, src, hi).modules.contains(p),
    decreases hi - lo,
{
    if lo < hi {
        lemma_imports_grow(t, src, lo, hi - 1, p);
        let s = imports_below(t, src, hi - 1);
        let r = imports_below(t, src, hi);
        if s.symbols.contains(p) {
            let m = choose|m: int| 0 <= m < s.symbols.len() && s.symbols[m] == p;
            assert(r.symbols[m] == p);
        }
        if s.modules.contains(p) {
            let m = choose|m: int| 0 <= m < s.modules.len() && s.modules[m] == p;
            assert(r.modules[m] == p);
        }
    }
}

/// What `from m import a` names is bound to the name behind that of the module,
/// and with `as` under the other name. Without a module, as in `from . import m`,
/// it is bound as a module.
pub proof fn law_from_imports(
    t: Seq<NodeView>,
    src: Seq<char>,
    limit: nat,
    i: int,
    w: int,
    k: int,
    local: Seq<char>,
    name: Seq<char>,
)
    requires
        0 <= i < t.len(),
        t[i].kind == "import_from_statement"@,
        0 <= w < k < children(t, i).len(),
        t[children(t, i)[w]].kind == "import"@,
        (t[children(t, i)[k]].kind == "dotted_name"@ && last_segment(t, src, children(t, i)[k])
            == Some(name) && local == name) || (t[children(t, i)[k]].kind == "aliased_import"@
            && aliased(t, src, children(t, i)[k]) == Some((local, name))),
    ensures
        from_module(t, src, i) is Some ==> file_scope(
            Language::Python,
            t,
            src,
            limit,
        ).symbols.contains((local, from_module(t, src, i)->0 + "::"@ + name)),
        from_module(t, src, i) is None ==> file_scope(
            Language::Python,
            t,
            src,
            limit,
        ).modules.contains((local, name)),
{
    reveal_strlit("import");
    reveal_strlit("dotted_name");
    reveal_strlit("aliased_import");
    reveal_strlit("import_from_statement");
    reveal_strlit("import_statement");
    assert("import"@.len() == 6 && "dotted_name"@.len() == 11 && "aliased_import"@.len() == 14
        && "import_from_statement"@.len() == 21 && "import_statement"@.len() == 16);
    let cs = children(t, i);
    let pairs = from_bindings(t, src, cs);
    assert(from_binding(t, src, cs[k]) == Some((local, name)));
    lemma_from_in(t, src, cs, w, k);
    let x = choose|x: int| 0 <= x < pairs.len() && pairs[x] == (local, name);
    let s = imports_below(t, src, i);
    let r = imports_below(t, src, i + 1);
    assert(r == with_import(t, src, i, s));
    match from_module(t, src, i) {
        Some(m) => {
            let p = (local, m + "::"@ + name);
            assert(qualified(m, pairs)[x] == p);
            assert(r.symbols[s.symbols.len() + x] == p);
            lemma_imports_grow(t, src, i + 1, t.len() as int, p);
        },
        None => {
            assert(r.modules[s.modules.len() + x] == (local, name));
            lemma_imports_grow(t, src, i + 1, t.len() as int, (local, name));
        },
    }
}

/// `import m` binds the module under its name, and `import a.m as x` under the
/// new one.
pub proof fn law_module_imports(
    t: Seq<NodeView>,
    src: Seq<char>,
    limit: nat,
    i: int,
    k: int,
    local: Seq<char>,
    name: Seq<char>,
)
    requires
        0 <= i < t.len(),
        t[i].kind == "import_statement"@,
        0 <= k < children(t, i).len(),
        (t[children(t, i)[k]].kind == "dotted_name"@ && segments(
            t,
            src,
            children(t, children(t, i)[k]),
        ) == seq![name] && local == name) || (t[children(t, i)[k]].kind == "aliased_import"@
            && aliased(t, src, children(t, i)[k]) == Some((local, name))),
    ensures
        file_scope(Language::Python, t, src, limit).modules.contains((local, name)),
{
    reveal_strlit("dotted_name");
    reveal_strlit("aliased_import");
    assert("dotted_name"@.len() == 11 && "aliased_import"@.len() == 14);
    let cs = children(t, i);
    let pairs = import_bindings(t, src, cs);
    assert(import_binding(t, src, cs[k]) == Some((local, name)));
    lemma_import_in(t, src, cs, k);
    let x = choose|x: int| 0 <= x < pairs.len() && pairs[x] == (local, name);
    let s = imports_below(t, src, i);
    let r = imports_below(t, src, i + 1);
    assert(r == with_import(t, src, i, s));
    assert(r.modules[s.modules.len() + x] == (local, name));
    lemma_imports_grow(t, src, i + 1, t.len() as int, (local, name));
}

// ── Doc comments ─────────────────────────────────────────────────────────────

/// A text of lines that end in a line feed is split into the lines.
pub proof fn law_lines_split(line: Seq<char>, rest: Seq<char>)
    requires
        forall|k: int| 0 <= k < line.len() ==> !is_eol(#[trigger] line[k]),
    ensures
        lines_from(line.push('\n') + rest, 0) == seq![line] + lines_from(rest, 0),
{
    let s = line.push('\n') + rest;
    let n = line.len() as int;
    lemma_eol_at(s, 0, n);
    assert(s.subrange(0, n) =~= line);
    assert(s.skip(n + 1) =~= rest);
    lemma_lines_moved(s, rest, n + 1, 0);
}

proof fn lemma_eol_at(s: Seq<char>, i: int, n: int)
    requires
        0 <= i <= n < s.len(),
        is_eol(s[n]),
        forall|k: int| i <= k < n ==> !is_eol(#[trigger] s[k]),
    ensures
        crate::parser::rust::eol_from(s, i) == n,
    decreases n - i,
{
    if i < n {
        assert(!is_eol(s[i]));
        lemma_eol_at(s, i + 1, n);
    }
}

proof fn lemma_eol_moved(s: Seq<char>, rest: Seq<char>, n: int, i: int)
    requires
        0 <= n,
        0 <= i <= rest.len(),
        s.len() == n + rest.len(),
        s.skip(n) == rest,
    ensures
        crate::parser::rust::eol_from(s, n + i) == n + crate::parser::rust::eol_from(rest, i),
        i <= crate::parser::rust::eol_from(rest, i) <= rest.len(),
    decreases rest.len() - i,
{
    if i < rest.len() {
        assert(s.skip(n)[i] == s[n + i]);
        if !is_eol(rest[i]) {
            lemma_eol_moved(s, rest, n, i + 1);
        }
    }
}

proof fn lemma_lines_moved(s: Seq<char>, rest: Seq<char>, n: int, i: int)
    requires
        0 <= n,
        0 <= i,
        s.len() == n + rest.len(),
        s.skip(n) == rest,
    ensures
        lines_from(s, n + i) == lines_from(rest, i),
    decreases rest.len() - i,
{
    if i < rest.len() {
        let e = crate::parser::rust::eol_from(rest, i);
        lemma_eol_moved(s, rest, n, i);
        assert(s.subrange(n + i, n + e) =~= rest.subrange(i, e)) by {
            assert forall|k: int| i <= k < e implies s[n + k] == rest[k] by {
                assert(s.skip(n)[k] == s[n + k]);
            }
        }
        if e < rest.len() {
            assert(s.skip(n)[e] == s[n + e]);
            if e + 1 < rest.len() {
                assert(s.skip(n)[e + 1] == s[n + e + 1]);
            }
            let next = crate::parser::rust::past_eol(rest, e);
            assert(crate::parser::rust::past_eol(s, n + e) == n + next);
            lemma_lines_moved(s, rest, n, next);
        } else {
            assert(s.subrange(n + i, s.len() as int) =~= rest.subrange(i, rest.len() as int));
        }
    }
}

/// The doc comment of an item is made of the lines directly above it that are doc
/// comments, from the top to the bottom, and of no others.
pub proof fn law_doc_lines(lines: Seq<Seq<char>>, row: int, n: int)
    requires
        0 <= n <= row,
        forall|k: int| row - n <= k < row ==> is_doc(#[trigger] line_at(lines, k)),
        n < row ==> !is_doc(line_at(lines, row - n - 1)),
    ensures
        doc_block(lines, row).len() == n,
        forall|k: int|
            0 <= k < n ==> #[trigger] doc_block(lines, row)[k] == doc_text(
                line_at(lines, row - n + k),
            ),
    decreases n,
{
    if n > 0 {
        assert(is_doc(line_at(lines, row - 1)));
        law_doc_lines(lines, row - 1, n - 1);
        let above = doc_block(lines, row - 1);
        assert forall|k: int| 0 <= k < n implies #[trigger] doc_block(lines, row)[k] == doc_text(
            line_at(lines, row - n + k),
        ) by {
            if k < n - 1 {
                assert(above[k] == doc_text(line_at(lines, row - 1 - (n - 1) + k)));
            }
        }
    }
}

} // verus!
