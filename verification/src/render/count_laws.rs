//! What the overview and the project view show of a catalog, line by line.

use crate::chars::dec;
use crate::diff::drawn::lemma_flat_dec;
use crate::graph::catalog::{distinct_ids, law_node, node, AtomEntry, CatalogView, RelationEntry};
use crate::keys::{law_occurrences, law_sorted_keys, lemma_push_contains, occurrences, sorted_keys};
use crate::render::function::boxed;
use crate::render::laws::{
    box_row, flat_atom, flat_atoms, lemma_boxed, lemma_flat_between, lemma_flat_id, lemma_two_parts,
};
use crate::render::lines::{call_line, lines};
use crate::render::overview::{
    file_call, file_calls, items_of, module_file, module_line, module_name_at, module_paths,
    overview_text,
};
use crate::render::project::{
    atom_crate, atom_crates, counts_of, crate_call, crate_calls, crate_line, project_text,
};
use crate::render::rows::{
    flat, has_line, lemma_flat_concat, lemma_lines_has, lemma_lines_only, lemma_lines_whole,
    lemma_no_row, lemma_one_row, lemma_whole_concat, whole,
};
use crate::render::util::{crate_of, id_text};
use vstd::prelude::*;

verus! {

// ── Atoms ────────────────────────────────────────────────────────────────────

/// Whether the atom with an id is of a kind.
pub open spec fn has_kind(atoms: Seq<AtomEntry>, id: Seq<char>, kind: Seq<char>) -> bool {
    exists|i: int| 0 <= i < atoms.len() && (#[trigger] atoms[i]).id == id && atoms[i].kind == kind
}

/// Whether the atom with an id is of a kind and of a file.
pub open spec fn has_kind_in(
    atoms: Seq<AtomEntry>,
    id: Seq<char>,
    kind: Seq<char>,
    path: Seq<char>,
) -> bool {
    exists|i: int|
        0 <= i < atoms.len() && (#[trigger] atoms[i]).id == id && atoms[i].kind == kind
            && atoms[i].file_path == Some(path)
}

/// Whether the atom with an id is of a crate.
pub open spec fn is_of_crate(atoms: Seq<AtomEntry>, id: Seq<char>, name: Seq<char>) -> bool {
    exists|i: int| 0 <= i < atoms.len() && (#[trigger] atoms[i]).id == id && in_crate(atoms[i], name)
}

/// Whether an atom is of a crate: its file is.
pub open spec fn in_crate(a: AtomEntry, name: Seq<char>) -> bool {
    a.file_path is Some && crate_of(a.file_path->0) == name
}

proof fn lemma_by_node(
    atoms: Seq<AtomEntry>,
    id: Seq<char>,
    kind: Seq<char>,
    path: Seq<char>,
)
    requires
        distinct_ids(atoms),
    ensures
        has_kind(atoms, id, kind) <==> (node(atoms, id) matches Some(a) && a.kind == kind),
        has_kind_in(atoms, id, kind, path) <==> (node(atoms, id) matches Some(a) && a.kind == kind
            && a.file_path == Some(path)),
        is_of_crate(atoms, id, path) <==> (node(atoms, id) matches Some(a) && in_crate(a, path)),
{
    law_node(atoms, id);
    if node(atoms, id) is Some {
        let i = choose|i: int| 0 <= i < atoms.len() && (#[trigger] atoms[i]).id == id;
        assert(node(atoms, id) == Some(atoms[i]));
    }
}

// ── Rows ─────────────────────────────────────────────────────────────────────

/// The line of `n` calls from one place to another.
pub open spec fn calls_row(p: Seq<char>, q: Seq<char>, n: nat, unit: Seq<char>) -> Seq<char> {
    "    "@ + id_text(p) + " -->|\""@ + dec(n) + unit + "\"| "@ + id_text(q)
}

proof fn lemma_call_line(calls: Seq<(Seq<char>, Seq<char>)>, unit: Seq<char>, p: (Seq<char>, Seq<char>))
    requires
        flat(unit),
    ensures
        whole(call_line(calls, unit)(p)),
        id_text(p.0) != id_text(p.1) ==> has_line(
            call_line(calls, unit)(p),
            calls_row(p.0, p.1, occurrences(calls, p), unit),
        ),
        flat(p.0) && flat(p.1) ==> forall|line: Seq<char>| #[trigger]
            has_line(call_line(calls, unit)(p), line) ==> id_text(p.0) != id_text(p.1) && line
                == calls_row(p.0, p.1, occurrences(calls, p), unit),
{
    let n = occurrences(calls, p);
    let text = call_line(calls, unit)(p);
    let row = calls_row(p.0, p.1, n, unit);
    if id_text(p.0) == id_text(p.1) {
        assert(text =~= Seq::<char>::empty());
        assert forall|line: Seq<char>| !#[trigger] has_line(text, line) by {
            lemma_no_row(line);
        }
    } else {
        reveal_strlit("    ");
        reveal_strlit(" -->|\"");
        reveal_strlit("\"| ");
        reveal_strlit("\n");
        assert(text =~= row.push('\n'));
        if flat(p.0) && flat(p.1) {
            lemma_flat_id(p.0);
            lemma_flat_id(p.1);
            lemma_flat_dec(n);
            lemma_flat_concat("    "@, id_text(p.0));
            lemma_flat_between("    "@ + id_text(p.0), " -->|\""@, dec(n), unit);
            lemma_flat_concat("    "@ + id_text(p.0) + " -->|\""@ + dec(n) + unit, "\"| "@);
            lemma_flat_concat(
                "    "@ + id_text(p.0) + " -->|\""@ + dec(n) + unit + "\"| "@,
                id_text(p.1),
            );
        }
        lemma_one_row(text, row);
    }
}

/// The lines of a view of places and calls are those of its parts.
proof fn lemma_counted(
    ks: Seq<Seq<char>>,
    f: spec_fn(Seq<char>) -> Seq<char>,
    calls: Seq<(Seq<char>, Seq<char>)>,
    unit: Seq<char>,
    line: Seq<char>,
)
    requires
        flat(unit),
        forall|v: Seq<char>| ks.contains(v) ==> whole(#[trigger] f(v)),
    ensures
        ({
            let ps = sorted_keys::<(String, String)>(calls);
            let g = call_line(calls, unit);
            let text = "graph TD\n"@ + lines(ks, f) + lines(ps, g);
            let parts = line == "graph TD"@ || has_line(lines(ks, f), line) || has_line(
                lines(ps, g),
                line,
            );
            &&& forall|p: (Seq<char>, Seq<char>)| whole(#[trigger] g(p))
            &&& forall|p: (Seq<char>, Seq<char>)| #[trigger] ps.contains(p) <==> calls.contains(p)
            &&& parts ==> has_line(text, line)
            &&& flat(line) && has_line(text, line) ==> parts
        }),
{
    let ps = sorted_keys::<(String, String)>(calls);
    let g = call_line(calls, unit);
    let head = "graph TD\n"@;
    law_sorted_keys::<(String, String)>(calls);
    assert forall|p: (Seq<char>, Seq<char>)| #[trigger] ps.contains(p) <==> calls.contains(p) by {}
    assert forall|p: (Seq<char>, Seq<char>)| whole(#[trigger] g(p)) by {
        lemma_call_line(calls, unit, p);
    }
    reveal_strlit("graph TD");
    reveal_strlit("graph TD\n");
    assert(head =~= "graph TD"@.push('\n'));
    lemma_one_row(head, "graph TD"@);
    lemma_lines_whole(ks, f);
    lemma_lines_whole(ps, g);
    lemma_whole_concat(head, lines(ks, f));
    lemma_two_parts(head, lines(ks, f), line);
    lemma_two_parts(head + lines(ks, f), lines(ps, g), line);
}

// ── Modules ──────────────────────────────────────────────────────────────────

/// Whether a relation says that a module of a file contains an item of a kind.
pub open spec fn has_item(
    atoms: Seq<AtomEntry>,
    path: Seq<char>,
    kind: Seq<char>,
) -> spec_fn(RelationEntry) -> bool {
    |r: RelationEntry|
        r.kind == "contains"@ && has_kind_in(atoms, r.from, "module"@, path) && has_kind(
            atoms,
            r.to,
            kind,
        )
}

/// How many items of a kind the modules of a file contain.
pub open spec fn item_count(c: CatalogView, path: Seq<char>, kind: Seq<char>) -> nat {
    c.relations.filter(has_item(c.atoms, path, kind)).len()
}

proof fn lemma_item_counts(atoms: Seq<AtomEntry>, rs: Seq<RelationEntry>, path: Seq<char>)
    requires
        distinct_ids(atoms),
    ensures
        items_of(atoms, rs, path).functions == rs.filter(
            has_item(atoms, path, "function"@),
        ).len(),
        items_of(atoms, rs, path).structs == rs.filter(has_item(atoms, path, "struct"@)).len(),
        items_of(atoms, rs, path).traits == rs.filter(has_item(atoms, path, "trait"@)).len(),
    decreases rs.len(),
{
    reveal(Seq::filter);
    if rs.len() > 0 {
        let r = rs.last();
        lemma_item_counts(atoms, rs.drop_last(), path);
        lemma_by_node(atoms, r.from, "module"@, path);
        lemma_by_node(atoms, r.to, "function"@, path);
        lemma_by_node(atoms, r.to, "struct"@, path);
        lemma_by_node(atoms, r.to, "trait"@, path);
        reveal_strlit("function");
        reveal_strlit("struct");
        reveal_strlit("trait");
        assert("function"@.len() == 8 && "struct"@.len() == 6 && "trait"@.len() == 5);
    }
}

/// Whether a relation is a call from a function of one file to one of another.
pub open spec fn is_file_call(
    atoms: Seq<AtomEntry>,
    p: Seq<char>,
    q: Seq<char>,
) -> spec_fn(RelationEntry) -> bool {
    |r: RelationEntry|
        r.kind == "calls"@ && has_kind_in(atoms, r.from, "function"@, p) && has_kind_in(
            atoms,
            r.to,
            "function"@,
            q,
        )
}

/// How many calls lead from the functions of one file to those of another.
pub open spec fn file_call_count(c: CatalogView, p: Seq<char>, q: Seq<char>) -> nat {
    c.relations.filter(is_file_call(c.atoms, p, q)).len()
}

proof fn lemma_file_calls(
    atoms: Seq<AtomEntry>,
    rs: Seq<RelationEntry>,
    p: Seq<char>,
    q: Seq<char>,
)
    requires
        distinct_ids(atoms),
    ensures
        p != q ==> occurrences(file_calls(atoms, rs), (p, q)) == rs.filter(
            is_file_call(atoms, p, q),
        ).len(),
        p == q ==> occurrences(file_calls(atoms, rs), (p, q)) == 0,
    decreases rs.len(),
{
    reveal(Seq::filter);
    if rs.len() > 0 {
        let r = rs.last();
        let front = file_calls(atoms, rs.drop_last());
        lemma_file_calls(atoms, rs.drop_last(), p, q);
        lemma_by_node(atoms, r.from, "function"@, p);
        lemma_by_node(atoms, r.to, "function"@, q);
        if let Some(pair) = file_call(atoms, r) {
            assert(front.push(pair).drop_last() =~= front);
        }
    }
}

/// Whether a catalog has a module of a file.
pub open spec fn has_module(atoms: Seq<AtomEntry>, path: Seq<char>) -> bool {
    exists|i: int|
        0 <= i < atoms.len() && (#[trigger] atoms[i]).kind == "module"@ && atoms[i].file_path
            == Some(path)
}

/// Whether an atom is the first module of its file.
pub open spec fn is_first_module(atoms: Seq<AtomEntry>, path: Seq<char>, i: int) -> bool {
    &&& 0 <= i < atoms.len()
    &&& atoms[i].kind == "module"@
    &&& atoms[i].file_path == Some(path)
    &&& forall|j: int|
        0 <= j < i && (#[trigger] atoms[j]).kind == "module"@ ==> atoms[j].file_path != Some(path)
}

proof fn lemma_module_paths(atoms: Seq<AtomEntry>, path: Seq<char>)
    ensures
        module_paths(atoms).contains(path) <==> has_module(atoms, path),
        module_name_at(atoms, path) is Some <==> has_module(atoms, path),
        has_module(atoms, path) ==> exists|i: int| #[trigger] is_first_module(atoms, path, i),
        forall|i: int| #[trigger]
            is_first_module(atoms, path, i) ==> module_name_at(atoms, path) == Some(atoms[i].name),
    decreases atoms.len(),
{
    if atoms.len() > 0 {
        let front = atoms.drop_last();
        let last = atoms[atoms.len() - 1];
        lemma_module_paths(front, path);
        if let Some(p) = module_file(last) {
            lemma_push_contains(module_paths(front), p);
        }
        if has_module(front, path) {
            let i = choose|i: int| #[trigger] is_first_module(front, path, i);
            assert(atoms[i] == front[i]);
            assert forall|j: int| 0 <= j < i && (#[trigger] atoms[j]).kind == "module"@ implies
                atoms[j].file_path != Some(path) by {
                assert(front[j] == atoms[j]);
            }
            assert(is_first_module(atoms, path, i));
        } else {
            if has_module(atoms, path) {
                let i = choose|i: int|
                    0 <= i < atoms.len() && (#[trigger] atoms[i]).kind == "module"@
                        && atoms[i].file_path == Some(path);
                if i < front.len() {
                    assert(front[i] == atoms[i]);
                }
                assert forall|j: int|
                    0 <= j < i && (#[trigger] atoms[j]).kind == "module"@ implies atoms[j].file_path
                    != Some(path) by {
                    assert(front[j] == atoms[j]);
                }
                assert(is_first_module(atoms, path, i));
            }
        }
        assert forall|i: int| #[trigger] is_first_module(atoms, path, i) implies module_name_at(
            atoms,
            path,
        ) == Some(atoms[i].name) by {
            if i < front.len() {
                assert(front[i] == atoms[i]);
                assert forall|j: int|
                    0 <= j < i && (#[trigger] front[j]).kind == "module"@ implies front[j].file_path
                    != Some(path) by {
                    assert(front[j] == atoms[j]);
                }
                assert(is_first_module(front, path, i));
            } else if has_module(front, path) {
                let j = choose|j: int|
                    0 <= j < front.len() && (#[trigger] front[j]).kind == "module"@
                        && front[j].file_path == Some(path);
                assert(atoms[j] == front[j]);
            }
        }
    }
}

/// The label of a module: structs and traits are mentioned where there are any
/// of either.
pub open spec fn module_label(name: Seq<char>, fns: nat, structs: nat, traits: nat) -> Seq<char> {
    if structs > 0 || traits > 0 {
        name + " — "@ + dec(fns) + " fn, "@ + dec(structs) + " struct, "@ + dec(traits) + " trait"@
    } else {
        name + " — "@ + dec(fns) + " fn"@
    }
}

/// The line of the modules of a file in the overview.
pub open spec fn module_row(c: CatalogView, path: Seq<char>, name: Seq<char>) -> Seq<char> {
    box_row(
        path,
        module_label(
            name,
            item_count(c, path, "function"@),
            item_count(c, path, "struct"@),
            item_count(c, path, "trait"@),
        ),
    )
}

proof fn lemma_flat_module_label(name: Seq<char>, fns: nat, structs: nat, traits: nat)
    requires
        flat(name),
    ensures
        flat(module_label(name, fns, structs, traits)),
{
    reveal_strlit(" — ");
    reveal_strlit(" fn, ");
    reveal_strlit(" fn");
    reveal_strlit(" struct, ");
    reveal_strlit(" trait");
    lemma_flat_dec(fns);
    lemma_flat_dec(structs);
    lemma_flat_dec(traits);
    lemma_flat_between(name, " — "@, dec(fns), " fn"@);
    lemma_flat_between(name, " — "@, dec(fns), " fn, "@);
    let a = name + " — "@ + dec(fns) + " fn, "@;
    lemma_flat_between(a, dec(structs), " struct, "@, dec(traits));
    lemma_flat_concat(a + dec(structs) + " struct, "@ + dec(traits), " trait"@);
}

proof fn lemma_module_line(c: CatalogView, path: Seq<char>, i: int)
    requires
        distinct_ids(c.atoms),
        is_first_module(c.atoms, path, i),
    ensures
        whole(module_line(c)(path)),
        has_line(module_line(c)(path), module_row(c, path, c.atoms[i].name)),
        flat_atom(c.atoms[i]) ==> forall|line: Seq<char>| #[trigger]
            has_line(module_line(c)(path), line) ==> line == module_row(
                c,
                path,
                c.atoms[i].name,
            ),
{
    let fns = item_count(c, path, "function"@);
    let structs = item_count(c, path, "struct"@);
    let traits = item_count(c, path, "trait"@);
    let label = module_label(c.atoms[i].name, fns, structs, traits);
    lemma_module_paths(c.atoms, path);
    lemma_item_counts(c.atoms, c.relations, path);
    assert(items_of(c.atoms, c.relations, path).label(c.atoms[i].name) == label);
    assert(module_line(c)(path) == boxed(path, label));
    lemma_boxed(path, label);
    if flat_atom(c.atoms[i]) {
        lemma_flat_module_label(c.atoms[i].name, fns, structs, traits);
    }
}

proof fn lemma_overview_keys(c: CatalogView)
    requires
        distinct_ids(c.atoms),
    ensures
        ({
            let ks = sorted_keys::<String>(module_paths(c.atoms));
            &&& forall|v: Seq<char>| ks.contains(v) ==> whole(#[trigger] module_line(c)(v))
            &&& forall|v: Seq<char>| #[trigger] ks.contains(v) <==> has_module(c.atoms, v)
        }),
{
    let ks = sorted_keys::<String>(module_paths(c.atoms));
    law_sorted_keys::<String>(module_paths(c.atoms));
    assert forall|v: Seq<char>| #[trigger] ks.contains(v) <==> has_module(c.atoms, v) by {
        assert(ks.contains(v) <==> module_paths(c.atoms).contains(v));
        lemma_module_paths(c.atoms, v);
    }
    assert forall|v: Seq<char>| ks.contains(v) implies whole(#[trigger] module_line(c)(v)) by {
        lemma_module_paths(c.atoms, v);
        let i = choose|i: int| #[trigger] is_first_module(c.atoms, v, i);
        lemma_module_line(c, v, i);
    }
}

/// The overview has a node for each file with a module: with the name of its
/// first module, and with how many functions, structs and traits its modules
/// contain.
pub proof fn law_overview_modules(c: CatalogView, path: Seq<char>, i: int)
    requires
        distinct_ids(c.atoms),
        is_first_module(c.atoms, path, i),
    ensures
        has_line(overview_text(c), module_row(c, path, c.atoms[i].name)),
{
    let row = module_row(c, path, c.atoms[i].name);
    let ks = sorted_keys::<String>(module_paths(c.atoms));
    let calls = file_calls(c.atoms, c.relations);
    lemma_overview_keys(c);
    lemma_module_line(c, path, i);
    assert(has_module(c.atoms, path));
    lemma_lines_has(ks, module_line(c), path, row);
    lemma_counted(ks, module_line(c), calls, Seq::empty(), row);
}

/// The overview has an arrow from one file to another where functions of the
/// first call functions of the second, with the number of these calls.
pub proof fn law_overview_calls(c: CatalogView, p: Seq<char>, q: Seq<char>)
    requires
        distinct_ids(c.atoms),
        p != q,
        file_call_count(c, p, q) > 0,
        id_text(p) != id_text(q),
    ensures
        has_line(
            overview_text(c),
            calls_row(p, q, file_call_count(c, p, q), Seq::empty()),
        ),
{
    let row = calls_row(p, q, file_call_count(c, p, q), Seq::empty());
    let ks = sorted_keys::<String>(module_paths(c.atoms));
    let calls = file_calls(c.atoms, c.relations);
    lemma_overview_keys(c);
    lemma_file_calls(c.atoms, c.relations, p, q);
    law_occurrences(calls, (p, q));
    lemma_counted(ks, module_line(c), calls, Seq::empty(), row);
    lemma_call_line(calls, Seq::empty(), (p, q));
    lemma_lines_has(
        sorted_keys::<(String, String)>(calls),
        call_line(calls, Seq::empty()),
        (p, q),
        row,
    );
}

/// The overview shows nothing else.
pub proof fn law_overview_only(c: CatalogView, line: Seq<char>)
    requires
        distinct_ids(c.atoms),
        flat_atoms(c.atoms),
        flat(line),
        has_line(overview_text(c), line),
    ensures
        line == "graph TD"@ || (exists|path: Seq<char>, i: int| #[trigger]
            is_first_module(c.atoms, path, i) && line == module_row(c, path, c.atoms[i].name)) || (
        exists|p: Seq<char>, q: Seq<char>|
            p != q && #[trigger] file_call_count(c, p, q) > 0 && line == calls_row(
                p,
                q,
                file_call_count(c, p, q),
                Seq::empty(),
            )),
{
    let ks = sorted_keys::<String>(module_paths(c.atoms));
    let calls = file_calls(c.atoms, c.relations);
    let ps = sorted_keys::<(String, String)>(calls);
    let g = call_line(calls, Seq::empty());
    lemma_overview_keys(c);
    lemma_counted(ks, module_line(c), calls, Seq::empty(), line);
    if line == "graph TD"@ {
    } else if has_line(lines(ks, module_line(c)), line) {
        let path = lemma_lines_only(ks, module_line(c), line);
        lemma_module_paths(c.atoms, path);
        let i = choose|i: int| #[trigger] is_first_module(c.atoms, path, i);
        assert(flat_atom(c.atoms[i]));
        lemma_module_line(c, path, i);
        assert(is_first_module(c.atoms, path, i));
    } else {
        let pair = lemma_lines_only(ps, g, line);
        assert(calls.contains(pair));
        law_occurrences(calls, pair);
        lemma_file_calls(c.atoms, c.relations, pair.0, pair.1);
        lemma_call_line(calls, Seq::empty(), pair);
        lemma_flat_file_call(c, pair.0, pair.1);
        assert(file_call_count(c, pair.0, pair.1) > 0);
    }
}

proof fn lemma_flat_file_call(c: CatalogView, p: Seq<char>, q: Seq<char>)
    requires
        flat_atoms(c.atoms),
        file_call_count(c, p, q) > 0,
    ensures
        flat(p),
        flat(q),
{
    broadcast use vstd::seq_lib::group_filter_ensures;

    let f = is_file_call(c.atoms, p, q);
    let r = c.relations.filter(f)[0];
    assert(f(r));
    let i = choose|i: int|
        0 <= i < c.atoms.len() && (#[trigger] c.atoms[i]).id == r.from && c.atoms[i].kind
            == "function"@ && c.atoms[i].file_path == Some(p);
    let j = choose|j: int|
        0 <= j < c.atoms.len() && (#[trigger] c.atoms[j]).id == r.to && c.atoms[j].kind
            == "function"@ && c.atoms[j].file_path == Some(q);
    assert(flat_atom(c.atoms[i]));
    assert(flat_atom(c.atoms[j]));
}

// ── Crates ───────────────────────────────────────────────────────────────────

/// Whether an atom is of a kind and of a crate.
pub open spec fn is_kind_in_crate(kind: Seq<char>, name: Seq<char>) -> spec_fn(AtomEntry) -> bool {
    |a: AtomEntry| a.kind == kind && in_crate(a, name)
}

/// How many atoms of a kind a crate has.
pub open spec fn crate_count(c: CatalogView, name: Seq<char>, kind: Seq<char>) -> nat {
    c.atoms.filter(is_kind_in_crate(kind, name)).len()
}

proof fn lemma_crate_counts(atoms: Seq<AtomEntry>, name: Seq<char>)
    ensures
        counts_of(atoms, name).modules == atoms.filter(is_kind_in_crate("module"@, name)).len(),
        counts_of(atoms, name).functions == atoms.filter(
            is_kind_in_crate("function"@, name),
        ).len(),
        counts_of(atoms, name).structs == atoms.filter(is_kind_in_crate("struct"@, name)).len(),
    decreases atoms.len(),
{
    reveal(Seq::filter);
    if atoms.len() > 0 {
        lemma_crate_counts(atoms.drop_last(), name);
        reveal_strlit("module");
        reveal_strlit("function");
        reveal_strlit("struct");
        assert("module"@[0] == 'm' && "function"@[0] == 'f' && "struct"@[0] == 's');
    }
}

/// Whether a relation is a call from a function of one crate to an atom of
/// another.
pub open spec fn is_crate_call(
    atoms: Seq<AtomEntry>,
    p: Seq<char>,
    q: Seq<char>,
) -> spec_fn(RelationEntry) -> bool {
    |r: RelationEntry|
        r.kind == "calls"@ && has_kind(atoms, r.from, "function"@) && is_of_crate(atoms, r.from, p)
            && is_of_crate(atoms, r.to, q)
}

/// How many calls lead from the functions of one crate to the atoms of another.
pub open spec fn crate_call_count(c: CatalogView, p: Seq<char>, q: Seq<char>) -> nat {
    c.relations.filter(is_crate_call(c.atoms, p, q)).len()
}

proof fn lemma_crate_calls(
    atoms: Seq<AtomEntry>,
    rs: Seq<RelationEntry>,
    p: Seq<char>,
    q: Seq<char>,
)
    requires
        distinct_ids(atoms),
    ensures
        p != q ==> occurrences(crate_calls(atoms, rs), (p, q)) == rs.filter(
            is_crate_call(atoms, p, q),
        ).len(),
        p == q ==> occurrences(crate_calls(atoms, rs), (p, q)) == 0,
    decreases rs.len(),
{
    reveal(Seq::filter);
    if rs.len() > 0 {
        let r = rs.last();
        let front = crate_calls(atoms, rs.drop_last());
        lemma_crate_calls(atoms, rs.drop_last(), p, q);
        lemma_by_node(atoms, r.from, "function"@, p);
        lemma_by_node(atoms, r.to, "function"@, q);
        if let Some(pair) = crate_call(atoms, r) {
            assert(front.push(pair).drop_last() =~= front);
        }
    }
}

/// Whether a crate has an atom of a kind that is counted.
pub open spec fn has_crate(atoms: Seq<AtomEntry>, name: Seq<char>) -> bool {
    exists|i: int| 0 <= i < atoms.len() && counts_for(#[trigger] atoms[i], name)
}

/// Whether an atom makes its crate one that is shown.
pub open spec fn counts_for(a: AtomEntry, name: Seq<char>) -> bool {
    in_crate(a, name) && (a.kind == "module"@ || a.kind == "function"@ || a.kind == "struct"@
        || a.kind == "trait"@ || a.kind == "impl"@ || a.kind == "enum"@)
}

proof fn lemma_atom_crates(atoms: Seq<AtomEntry>, name: Seq<char>)
    ensures
        atom_crates(atoms).contains(name) <==> has_crate(atoms, name),
    decreases atoms.len(),
{
    if atoms.len() > 0 {
        let front = atoms.drop_last();
        let last = atoms[atoms.len() - 1];
        lemma_atom_crates(front, name);
        if let Some(c) = atom_crate(last) {
            lemma_push_contains(atom_crates(front), c);
        }
        if has_crate(front, name) {
            let i = choose|i: int| 0 <= i < front.len() && counts_for(#[trigger] front[i], name);
            assert(atoms[i] == front[i]);
        }
        if has_crate(atoms, name) {
            let i = choose|i: int| 0 <= i < atoms.len() && counts_for(#[trigger] atoms[i], name);
            if i < front.len() {
                assert(front[i] == atoms[i]);
            }
        }
    }
}

/// The line of a crate in the project view.
pub open spec fn crate_row(c: CatalogView, name: Seq<char>) -> Seq<char> {
    box_row(
        name,
        name + " — "@ + dec(crate_count(c, name, "module"@)) + " mod, "@ + dec(
            crate_count(c, name, "function"@),
        ) + " fn, "@ + dec(crate_count(c, name, "struct"@)) + " struct"@,
    )
}

proof fn lemma_crate_line(c: CatalogView, name: Seq<char>)
    ensures
        whole(crate_line(c.atoms)(name)),
        has_line(crate_line(c.atoms)(name), crate_row(c, name)),
        flat(name) ==> forall|line: Seq<char>| #[trigger]
            has_line(crate_line(c.atoms)(name), line) ==> line == crate_row(c, name),
{
    let m = crate_count(c, name, "module"@);
    let n = crate_count(c, name, "function"@);
    let k = crate_count(c, name, "struct"@);
    let label = name + " — "@ + dec(m) + " mod, "@ + dec(n) + " fn, "@ + dec(k) + " struct"@;
    lemma_crate_counts(c.atoms, name);
    assert(crate_line(c.atoms)(name) == boxed(name, label));
    lemma_boxed(name, label);
    if flat(name) {
        reveal_strlit(" — ");
        reveal_strlit(" mod, ");
        reveal_strlit(" fn, ");
        reveal_strlit(" struct");
        lemma_flat_dec(m);
        lemma_flat_dec(n);
        lemma_flat_dec(k);
        lemma_flat_between(name, " — "@, dec(m), " mod, "@);
        let a = name + " — "@ + dec(m) + " mod, "@;
        lemma_flat_between(a, dec(n), " fn, "@, dec(k));
        lemma_flat_concat(a + dec(n) + " fn, "@ + dec(k), " struct"@);
    }
}

proof fn lemma_project_keys(c: CatalogView)
    ensures
        ({
            let ks = sorted_keys::<String>(atom_crates(c.atoms));
            &&& forall|v: Seq<char>| ks.contains(v) ==> whole(#[trigger] crate_line(c.atoms)(v))
            &&& forall|v: Seq<char>| #[trigger] ks.contains(v) <==> has_crate(c.atoms, v)
            &&& flat(" calls"@)
        }),
{
    let ks = sorted_keys::<String>(atom_crates(c.atoms));
    law_sorted_keys::<String>(atom_crates(c.atoms));
    reveal_strlit(" calls");
    assert forall|v: Seq<char>| #[trigger] ks.contains(v) <==> has_crate(c.atoms, v) by {
        assert(ks.contains(v) <==> atom_crates(c.atoms).contains(v));
        lemma_atom_crates(c.atoms, v);
    }
    assert forall|v: Seq<char>| ks.contains(v) implies whole(#[trigger] crate_line(c.atoms)(v)) by {
        lemma_crate_line(c, v);
    }
}

/// The project view has a node for each crate, with how many modules, functions
/// and structs it has.
pub proof fn law_project_crates(c: CatalogView, name: Seq<char>)
    requires
        has_crate(c.atoms, name),
    ensures
        has_line(project_text(c), crate_row(c, name)),
{
    let ks = sorted_keys::<String>(atom_crates(c.atoms));
    let calls = crate_calls(c.atoms, c.relations);
    lemma_project_keys(c);
    lemma_crate_line(c, name);
    lemma_lines_has(ks, crate_line(c.atoms), name, crate_row(c, name));
    lemma_counted(ks, crate_line(c.atoms), calls, " calls"@, crate_row(c, name));
}

/// The project view has an arrow from one crate to another where functions of
/// the first call into the second, with the number of these calls.
pub proof fn law_project_calls(c: CatalogView, p: Seq<char>, q: Seq<char>)
    requires
        distinct_ids(c.atoms),
        p != q,
        crate_call_count(c, p, q) > 0,
        id_text(p) != id_text(q),
    ensures
        has_line(project_text(c), calls_row(p, q, crate_call_count(c, p, q), " calls"@)),
{
    let row = calls_row(p, q, crate_call_count(c, p, q), " calls"@);
    let ks = sorted_keys::<String>(atom_crates(c.atoms));
    let calls = crate_calls(c.atoms, c.relations);
    lemma_project_keys(c);
    lemma_crate_calls(c.atoms, c.relations, p, q);
    law_occurrences(calls, (p, q));
    lemma_counted(ks, crate_line(c.atoms), calls, " calls"@, row);
    lemma_call_line(calls, " calls"@, (p, q));
    lemma_lines_has(
        sorted_keys::<(String, String)>(calls),
        call_line(calls, " calls"@),
        (p, q),
        row,
    );
}

proof fn lemma_flat_crate(path: Seq<char>)
    requires
        flat(path),
    ensures
        flat(crate_of(path)),
{
    let n = crate_of(path);
    if n.contains('\n') {
        let i = choose|i: int| 0 <= i < n.len() && n[i] == '\n';
        lemma_crate_part(path);
        let k = choose|k: int|
            0 <= k && k + n.len() <= path.len() && #[trigger] path.subrange(k, k + n.len()) == n;
        assert(path.subrange(k, k + n.len())[i] == path[k + i]);
    }
}

proof fn lemma_found_bound(s: Seq<char>, p: Seq<char>, i: int)
    ensures
        crate::chars::find_from(s, p, i) matches Some(k) ==> 0 <= k <= s.len(),
    decreases s.len() + 1 - i,
{
    if 0 <= i <= s.len() && !crate::chars::occurs_at(s, p, i) {
        lemma_found_bound(s, p, i + 1);
    }
}

proof fn lemma_crate_part(path: Seq<char>)
    ensures
        exists|k: int|
            0 <= k && k + crate_of(path).len() <= path.len() && #[trigger] path.subrange(
                k,
                k + crate_of(path).len(),
            ) == crate_of(path),
{
    let n = crate_of(path);
    let pre = "crates/"@;
    let (start, rest) = match crate::chars::after_prefix(path, pre) {
        Some(rest) => (pre.len() as int, rest),
        None => (0, path),
    };
    lemma_found_bound(rest, "/"@, 0);
    assert(path.subrange(start, start + n.len()) =~= n);
}

/// The project view shows nothing else.
pub proof fn law_project_only(c: CatalogView, line: Seq<char>)
    requires
        distinct_ids(c.atoms),
        flat_atoms(c.atoms),
        flat(line),
        has_line(project_text(c), line),
    ensures
        line == "graph TD"@ || (exists|name: Seq<char>| #[trigger]
            has_crate(c.atoms, name) && line == crate_row(c, name)) || (exists|
            p: Seq<char>,
            q: Seq<char>,
        |
            p != q && #[trigger] crate_call_count(c, p, q) > 0 && line == calls_row(
                p,
                q,
                crate_call_count(c, p, q),
                " calls"@,
            )),
{
    let ks = sorted_keys::<String>(atom_crates(c.atoms));
    let calls = crate_calls(c.atoms, c.relations);
    let ps = sorted_keys::<(String, String)>(calls);
    let g = call_line(calls, " calls"@);
    lemma_project_keys(c);
    lemma_counted(ks, crate_line(c.atoms), calls, " calls"@, line);
    if line == "graph TD"@ {
    } else if has_line(lines(ks, crate_line(c.atoms)), line) {
        let name = lemma_lines_only(ks, crate_line(c.atoms), line);
        let i = choose|i: int| 0 <= i < c.atoms.len() && counts_for(#[trigger] c.atoms[i], name);
        assert(flat_atom(c.atoms[i]));
        lemma_flat_crate(c.atoms[i].file_path->0);
        lemma_crate_line(c, name);
        assert(has_crate(c.atoms, name));
    } else {
        let pair = lemma_lines_only(ps, g, line);
        assert(calls.contains(pair));
        law_occurrences(calls, pair);
        lemma_crate_calls(c.atoms, c.relations, pair.0, pair.1);
        lemma_call_line(calls, " calls"@, pair);
        lemma_flat_crate_call(c, pair.0, pair.1);
        assert(crate_call_count(c, pair.0, pair.1) > 0);
    }
}

proof fn lemma_flat_crate_call(c: CatalogView, p: Seq<char>, q: Seq<char>)
    requires
        flat_atoms(c.atoms),
        crate_call_count(c, p, q) > 0,
    ensures
        flat(p),
        flat(q),
{
    broadcast use vstd::seq_lib::group_filter_ensures;

    let f = is_crate_call(c.atoms, p, q);
    let r = c.relations.filter(f)[0];
    assert(f(r));
    let i = choose|i: int|
        0 <= i < c.atoms.len() && (#[trigger] c.atoms[i]).id == r.from && in_crate(c.atoms[i], p);
    let j = choose|j: int|
        0 <= j < c.atoms.len() && (#[trigger] c.atoms[j]).id == r.to && in_crate(c.atoms[j], q);
    assert(flat_atom(c.atoms[i]));
    assert(flat_atom(c.atoms[j]));
    lemma_flat_crate(c.atoms[i].file_path->0);
    lemma_flat_crate(c.atoms[j].file_path->0);
}

} // verus!
