//! What holds of every parsed file.

use crate::model::{AtomView, EdgeKind, EdgeView};
use crate::parser::language::{atom_kind, Language};
use crate::parser::scope::lookup;
use crate::parser::tree::{children, field_of};
use crate::parser::unit::{
    container_of, definition_of, distinct_names, file_edges, item_at, items_in, lifted, lifted_edges,
    local_edges, method_edges, methods_edges, methods_in, module_atom, module_id, named_ids,
    sibling_edges, sibling_name, stem, unit_of, FileView, UnitView,
};
use vstd::prelude::*;

verus! {

/// Whether an identifier is that of one of the atoms.
pub open spec fn has_id(atoms: Seq<AtomView>, id: Seq<char>) -> bool {
    exists|i: int| 0 <= i < atoms.len() && (#[trigger] atoms[i]).id == id
}

/// Whether an edge connects two of the atoms, or the module of a file with one
/// of them; a call does not lead back to its caller.
pub open spec fn joins(e: EdgeView, atoms: Seq<AtomView>, module: Seq<char>) -> bool {
    &&& e.from == module || has_id(atoms, e.from)
    &&& has_id(atoms, e.to)
    &&& e.kind == EdgeKind::Calls || e.kind == EdgeKind::Contains
    &&& e.kind == EdgeKind::Calls ==> e.from != e.to
}

/// Whether all edges do.
pub open spec fn all_join(es: Seq<EdgeView>, atoms: Seq<AtomView>, module: Seq<char>) -> bool {
    forall|k: int| 0 <= k < es.len() ==> joins(#[trigger] es[k], atoms, module)
}

/// Whether all atoms are of a file.
pub open spec fn all_in_file(atoms: Seq<AtomView>, path: Seq<char>) -> bool {
    forall|k: int| 0 <= k < atoms.len() ==> (#[trigger] atoms[k]).file_path == path
}

proof fn lemma_more_atoms(es: Seq<EdgeView>, a: Seq<AtomView>, b: Seq<AtomView>, module: Seq<char>)
    requires
        all_join(es, a, module),
        forall|i: int| 0 <= i < a.len() ==> b.contains(#[trigger] a[i]),
    ensures
        all_join(es, b, module),
{
    assert forall|id: Seq<char>| has_id(a, id) implies #[trigger] has_id(b, id) by {
        let i = choose|i: int| 0 <= i < a.len() && (#[trigger] a[i]).id == id;
        assert(b.contains(a[i]));
        let j = choose|j: int| 0 <= j < b.len() && b[j] == a[i];
        assert(b[j].id == id);
    }
    assert forall|k: int| 0 <= k < es.len() implies joins(#[trigger] es[k], b, module) by {
        assert(joins(es[k], a, module));
        assert(has_id(b, es[k].to));
        if es[k].from != module {
            assert(has_id(b, es[k].from));
        }
    }
}

proof fn lemma_lookup_id(atoms: Seq<AtomView>, n: int, name: Seq<char>)
    requires
        0 <= n <= atoms.len(),
    ensures
        lookup(named_ids(atoms).take(n), name) matches Some(id) ==> has_id(atoms, id),
    decreases n,
{
    let ids = named_ids(atoms).take(n);
    if n > 0 {
        assert(ids.drop_last() =~= named_ids(atoms).take(n - 1));
        lemma_lookup_id(atoms, n - 1, name);
        assert(ids.last() == (atoms[n - 1].name, atoms[n - 1].id));
    }
}

proof fn lemma_sibling_edges(
    ms: Seq<AtomView>,
    from: Seq<char>,
    names: Seq<Seq<char>>,
    container: Seq<char>,
    owner: Seq<char>,
    module: Seq<char>,
)
    requires
        has_id(ms, from),
    ensures
        all_join(sibling_edges(named_ids(ms), from, names, container, owner), ms, module),
    decreases names.len(),
{
    if names.len() > 0 {
        lemma_sibling_edges(ms, from, names.drop_last(), container, owner, module);
        assert(named_ids(ms).take(ms.len() as int) =~= named_ids(ms));
        match sibling_name(names.last(), container, owner) {
            Some(name) => {
                lemma_lookup_id(ms, ms.len() as int, name);
            },
            None => {},
        }
    }
}

proof fn lemma_local_edges(
    tops: Seq<AtomView>,
    from: Seq<char>,
    names: Seq<Seq<char>>,
    atoms: Seq<AtomView>,
    module: Seq<char>,
)
    requires
        from == module || has_id(atoms, from),
        forall|i: int| 0 <= i < tops.len() ==> atoms.contains(#[trigger] tops[i]),
    ensures
        all_join(local_edges(named_ids(tops), from, names), atoms, module),
    decreases names.len(),
{
    if names.len() > 0 {
        lemma_local_edges(tops, from, names.drop_last(), atoms, module);
        assert(named_ids(tops).take(tops.len() as int) =~= named_ids(tops));
        lemma_lookup_id(tops, tops.len() as int, names.last());
        if let Some(to) = lookup(named_ids(tops), names.last()) {
            let i = choose|i: int| 0 <= i < tops.len() && (#[trigger] tops[i]).id == to;
            assert(atoms.contains(tops[i]));
            let j = choose|j: int| 0 <= j < atoms.len() && atoms[j] == tops[i];
            assert(atoms[j].id == to);
            assert(has_id(atoms, to));
        }
    }
}

proof fn lemma_methods_edges(
    ms: Seq<AtomView>,
    a: AtomView,
    container: Seq<char>,
    owner: Seq<char>,
    n: int,
    module: Seq<char>,
)
    requires
        0 <= n <= ms.len(),
    ensures
        all_join(
            methods_edges(named_ids(ms), a.id, container, owner, ms, n),
            seq![a] + ms,
            module,
        ),
    decreases n,
{
    if n > 0 {
        let both = seq![a] + ms;
        let m = ms[n - 1];
        lemma_methods_edges(ms, a, container, owner, n - 1, module);
        assert(ms[n - 1].id == m.id);
        let names = distinct_names(m.calls) + distinct_names(m.method_calls);
        lemma_sibling_edges(ms, m.id, names, container, owner, module);
        assert forall|i: int| 0 <= i < ms.len() implies both.contains(#[trigger] ms[i]) by {
            assert(both[i + 1] == ms[i]);
        }
        lemma_more_atoms(
            sibling_edges(named_ids(ms), m.id, names, container, owner),
            ms,
            both,
            module,
        );
        assert(both[0].id == a.id);
        assert(both[n].id == m.id);
        let es = method_edges(named_ids(ms), a.id, container, owner, m);
        assert(joins(es[0], both, module));
        assert forall|k: int| 0 <= k < es.len() implies joins(#[trigger] es[k], both, module) by {
            if k > 0 {
                assert(es[k] == sibling_edges(named_ids(ms), m.id, names, container, owner)[k - 1]);
            }
        }
        let front = methods_edges(named_ids(ms), a.id, container, owner, ms, n - 1);
        let all = methods_edges(named_ids(ms), a.id, container, owner, ms, n);
        assert forall|k: int| 0 <= k < all.len() implies joins(#[trigger] all[k], both, module) by {
            if k < front.len() {
                assert(all[k] == front[k]);
            } else {
                assert(all[k] == es[k - front.len()]);
            }
        }
    }
}

proof fn lemma_methods_in_file(
    f: FileView,
    cs: Seq<int>,
    container: Seq<char>,
    owner: Seq<char>,
)
    ensures
        all_in_file(methods_in(f, cs, container, owner), f.path),
    decreases cs.len(),
{
    if cs.len() > 0 {
        lemma_methods_in_file(f, cs.drop_last(), container, owner);
    }
}

proof fn lemma_items(f: FileView, cs: Seq<int>)
    ensures
        all_in_file(items_in(f, cs).atoms, f.path),
        all_join(items_in(f, cs).edges, items_in(f, cs).atoms, module_id(f.path)),
        forall|i: int|
            0 <= i < items_in(f, cs).tops.len() ==> items_in(f, cs).atoms.contains(
                #[trigger] items_in(f, cs).tops[i],
            ),
    decreases cs.len(),
{
    if cs.len() > 0 {
        let rest = items_in(f, cs.drop_last());
        let now = items_in(f, cs);
        let i = cs.last();
        let module = module_id(f.path);
        lemma_items(f, cs.drop_last());
        if let Some(a) = item_at(f, i) {
            let ms = lifted(f, i, a.name);
            let es = lifted_edges(f, i, a);
            match container_of(f, i, a.name) {
                Some((container, owner)) => {
                    if let Some(b) = field_of(f.t, i, "body"@) {
                        lemma_methods_in_file(f, children(f.t, b), container, owner);
                    }
                    assert(all_in_file(ms, f.path));
                    lemma_methods_edges(ms, a, container, owner, ms.len() as int, module);
                },
                None => {},
            }
            assert(all_in_file(ms, f.path));
            assert(all_join(es, seq![a] + ms, module));
            assert(now.atoms =~= rest.atoms + (seq![a] + ms));
            assert forall|k: int| 0 <= k < now.atoms.len() implies (
            #[trigger] now.atoms[k]).file_path == f.path by {
                if k < rest.atoms.len() {
                    assert(now.atoms[k] == rest.atoms[k]);
                } else if k > rest.atoms.len() {
                    assert(now.atoms[k] == ms[k - rest.atoms.len() - 1]);
                }
            }
            assert forall|k: int| 0 <= k < rest.atoms.len() implies now.atoms.contains(
                #[trigger] rest.atoms[k],
            ) by {
                assert(now.atoms[k] == rest.atoms[k]);
            }
            let both = seq![a] + ms;
            assert forall|k: int| 0 <= k < both.len() implies now.atoms.contains(
                #[trigger] both[k],
            ) by {
                assert(now.atoms[rest.atoms.len() + k] == both[k]);
            }
            lemma_more_atoms(rest.edges, rest.atoms, now.atoms, module);
            lemma_more_atoms(es, both, now.atoms, module);
            assert(now.atoms[rest.atoms.len() as int] == a);
            assert(has_id(now.atoms, a.id));
            assert forall|k: int| 0 <= k < now.edges.len() implies joins(
                #[trigger] now.edges[k],
                now.atoms,
                module,
            ) by {
                if k < rest.edges.len() {
                    assert(now.edges[k] == rest.edges[k]);
                } else if k > rest.edges.len() {
                    assert(now.edges[k] == es[k - rest.edges.len() - 1]);
                }
            }
            assert forall|k: int| 0 <= k < now.tops.len() implies now.atoms.contains(
                #[trigger] now.tops[k],
            ) by {
                if k < rest.tops.len() {
                    assert(now.tops[k] == rest.tops[k]);
                    let j = choose|j: int| 0 <= j < rest.atoms.len() && rest.atoms[j] == rest.tops[k];
                    assert(now.atoms[j] == rest.tops[k]);
                }
            }
        }
    }
}

proof fn lemma_file_edges(
    tops: Seq<AtomView>,
    list: Seq<AtomView>,
    n: int,
    atoms: Seq<AtomView>,
    module: Seq<char>,
)
    requires
        0 <= n <= list.len(),
        forall|i: int| 0 <= i < tops.len() ==> atoms.contains(#[trigger] tops[i]),
        forall|i: int| 0 <= i < list.len() ==> atoms.contains(#[trigger] list[i]),
    ensures
        all_join(file_edges(named_ids(tops), list, n), atoms, module),
    decreases n,
{
    if n > 0 {
        lemma_file_edges(tops, list, n - 1, atoms, module);
        let a = list[n - 1];
        assert(atoms.contains(a));
        let j = choose|j: int| 0 <= j < atoms.len() && atoms[j] == a;
        assert(atoms[j].id == a.id);
        lemma_local_edges(tops, a.id, distinct_names(a.calls), atoms, module);
        let front = file_edges(named_ids(tops), list, n - 1);
        let more = local_edges(named_ids(tops), a.id, distinct_names(a.calls));
        let all = file_edges(named_ids(tops), list, n);
        assert forall|k: int| 0 <= k < all.len() implies joins(#[trigger] all[k], atoms, module) by {
            if k < front.len() {
                assert(all[k] == front[k]);
            } else {
                assert(all[k] == more[k - front.len()]);
            }
        }
    }
}

/// The unit of a file starts with its module. All its atoms are of that file,
/// and its edges connect atoms of the unit only: containment and calls within
/// the file, and no call of a function to itself.
pub proof fn law_unit_closed(f: FileView)
    ensures
        unit_of(f).atoms.len() > 0,
        unit_of(f).atoms[0] == module_atom(f),
        all_in_file(unit_of(f).atoms, f.path),
        all_join(unit_of(f).edges, unit_of(f).atoms, module_id(f.path)),
        has_id(unit_of(f).atoms, module_id(f.path)),
{
    let u = unit_of(f);
    let module = module_id(f.path);
    let items = items_in(f, children(f.t, 0));
    lemma_items(f, children(f.t, 0));
    assert(u.atoms[0] == module_atom(f));
    assert(u.atoms[0].id == module);
    assert forall|k: int| 0 <= k < items.atoms.len() implies u.atoms.contains(
        #[trigger] items.atoms[k],
    ) by {
        assert(u.atoms[k + 1] == items.atoms[k]);
    }
    assert forall|k: int| 0 <= k < u.atoms.len() implies (#[trigger] u.atoms[k]).file_path
        == f.path by {
        if k > 0 {
            assert(u.atoms[k] == items.atoms[k - 1]);
        }
    }
    lemma_more_atoms(items.edges, items.atoms, u.atoms, module);
    assert forall|k: int| 0 <= k < items.tops.len() implies u.atoms.contains(
        #[trigger] items.tops[k],
    ) by {
        let j = choose|j: int| 0 <= j < items.atoms.len() && items.atoms[j] == items.tops[k];
        assert(u.atoms[j + 1] == items.tops[k]);
    }
    lemma_file_edges(
        items.tops,
        items.atoms,
        items.atoms.len() as int,
        u.atoms,
        module,
    );
    let more = file_edges(named_ids(items.tops), items.atoms, items.atoms.len() as int);
    assert forall|k: int| 0 <= k < u.edges.len() implies joins(
        #[trigger] u.edges[k],
        u.atoms,
        module,
    ) by {
        if k < items.edges.len() {
            assert(u.edges[k] == items.edges[k]);
        } else {
            assert(u.edges[k] == more[k - items.edges.len()]);
        }
    }
}

// ── Containment ──────────────────────────────────────────────────────────────

/// Whether an edge says that an atom is contained in another.
pub open spec fn is_contained(es: Seq<EdgeView>, id: Seq<char>) -> bool {
    exists|k: int|
        0 <= k < es.len() && (#[trigger] es[k]).kind == EdgeKind::Contains && es[k].to == id
}

proof fn lemma_contained_in_more(
    es: Seq<EdgeView>,
    before: Seq<EdgeView>,
    after: Seq<EdgeView>,
    id: Seq<char>,
)
    requires
        is_contained(es, id),
    ensures
        is_contained(before + es + after, id),
{
    let k = choose|k: int|
        0 <= k < es.len() && (#[trigger] es[k]).kind == EdgeKind::Contains && es[k].to == id;
    assert((before + es + after)[before.len() + k] == es[k]);
}

proof fn lemma_methods_contained(
    ms: Seq<AtomView>,
    container_id: Seq<char>,
    container: Seq<char>,
    owner: Seq<char>,
    n: int,
    j: int,
)
    requires
        0 <= j < n <= ms.len(),
    ensures
        is_contained(
            methods_edges(named_ids(ms), container_id, container, owner, ms, n),
            ms[j].id,
        ),
    decreases n,
{
    let front = methods_edges(named_ids(ms), container_id, container, owner, ms, n - 1);
    let more = method_edges(named_ids(ms), container_id, container, owner, ms[n - 1]);
    let all = methods_edges(named_ids(ms), container_id, container, owner, ms, n);
    if j < n - 1 {
        lemma_methods_contained(ms, container_id, container, owner, n - 1, j);
        lemma_contained_in_more(front, Seq::empty(), more, ms[j].id);
        assert(Seq::<EdgeView>::empty() + front + more =~= all);
    } else {
        assert(more[0].to == ms[j].id && more[0].kind == EdgeKind::Contains);
        assert(all[front.len() as int] == more[0]);
    }
}

proof fn lemma_items_contained(f: FileView, cs: Seq<int>, k: int)
    requires
        0 <= k < items_in(f, cs).atoms.len(),
    ensures
        is_contained(items_in(f, cs).edges, items_in(f, cs).atoms[k].id),
    decreases cs.len(),
{
    let rest = items_in(f, cs.drop_last());
    let now = items_in(f, cs);
    let i = cs.last();
    match item_at(f, i) {
        None => {
            lemma_items_contained(f, cs.drop_last(), k);
        },
        Some(a) => {
            let ms = lifted(f, i, a.name);
            let es = lifted_edges(f, i, a);
            let own = EdgeView::plain(module_id(f.path), a.id, EdgeKind::Contains);
            if k < rest.atoms.len() {
                lemma_items_contained(f, cs.drop_last(), k);
                lemma_contained_in_more(rest.edges, Seq::empty(), seq![own] + es, rest.atoms[k].id);
                assert(Seq::<EdgeView>::empty() + rest.edges + (seq![own] + es) =~= now.edges);
            } else if k == rest.atoms.len() {
                assert(now.edges[rest.edges.len() as int] == own);
            } else {
                let j = k - rest.atoms.len() - 1;
                assert(now.atoms[k] == ms[j]);
                match container_of(f, i, a.name) {
                    Some((container, owner)) => {
                        lemma_methods_contained(ms, a.id, container, owner, ms.len() as int, j);
                        lemma_contained_in_more(
                            es,
                            rest.edges.push(own),
                            Seq::empty(),
                            ms[j].id,
                        );
                        assert(rest.edges.push(own) + es + Seq::<EdgeView>::empty() =~= now.edges);
                    },
                    None => {},
                }
            }
        },
    }
}

/// Every atom of a file but its module is contained in another atom of it.
pub proof fn law_all_contained(f: FileView, k: int)
    requires
        0 < k < unit_of(f).atoms.len(),
    ensures
        is_contained(unit_of(f).edges, unit_of(f).atoms[k].id),
{
    let items = items_in(f, children(f.t, 0));
    let more = file_edges(named_ids(items.tops), items.atoms, items.atoms.len() as int);
    assert(unit_of(f).atoms[k] == items.atoms[k - 1]);
    lemma_items_contained(f, children(f.t, 0), k - 1);
    lemma_contained_in_more(items.edges, Seq::empty(), more, items.atoms[k - 1].id);
    assert(Seq::<EdgeView>::empty() + items.edges + more =~= unit_of(f).edges);
}

// ── Parsed files ─────────────────────────────────────────────────────────────

/// Whether none of the atoms is a module.
pub open spec fn no_module(atoms: Seq<AtomView>) -> bool {
    forall|k: int| 0 <= k < atoms.len() ==> (#[trigger] atoms[k]).kind != "module"@
}

proof fn lemma_item_kind(language: Language, kind: Seq<char>)
    ensures
        atom_kind(language, kind) != Some("module"@),
        "function"@ != "module"@,
{
    reveal_strlit("module");
    reveal_strlit("function");
    reveal_strlit("struct");
    reveal_strlit("trait");
    reveal_strlit("impl");
    reveal_strlit("enum");
    reveal_strlit("type_alias");
    reveal_strlit("const");
    reveal_strlit("static");
    reveal_strlit("macro");
    assert("module"@[0] == 'm' && "module"@[1] == 'o');
    assert("function"@[0] == 'f' && "struct"@[0] == 's' && "trait"@[0] == 't');
    assert("impl"@[0] == 'i' && "enum"@[0] == 'e' && "type_alias"@[0] == 't');
    assert("const"@[0] == 'c' && "static"@[0] == 's' && "macro"@[1] == 'a');
}

proof fn lemma_methods_no_module(
    f: FileView,
    cs: Seq<int>,
    container: Seq<char>,
    owner: Seq<char>,
)
    ensures
        no_module(methods_in(f, cs, container, owner)),
    decreases cs.len(),
{
    if cs.len() > 0 {
        lemma_item_kind(f.language, Seq::empty());
        lemma_methods_no_module(f, cs.drop_last(), container, owner);
    }
}

proof fn lemma_items_no_module(f: FileView, cs: Seq<int>)
    ensures
        no_module(items_in(f, cs).atoms),
    decreases cs.len(),
{
    if cs.len() > 0 {
        let rest = items_in(f, cs.drop_last());
        let now = items_in(f, cs);
        let i = cs.last();
        lemma_items_no_module(f, cs.drop_last());
        if let Some(a) = item_at(f, i) {
            let ms = lifted(f, i, a.name);
            let d = definition_of(f, i)->0;
            lemma_item_kind(f.language, f.t[d].kind);
            if let Some((container, owner)) = container_of(f, i, a.name) {
                if let Some(b) = field_of(f.t, i, "body"@) {
                    lemma_methods_no_module(f, children(f.t, b), container, owner);
                }
            }
            assert(no_module(ms));
            assert forall|k: int| 0 <= k < now.atoms.len() implies (
            #[trigger] now.atoms[k]).kind != "module"@ by {
                if k < rest.atoms.len() {
                    assert(now.atoms[k] == rest.atoms[k]);
                } else if k > rest.atoms.len() {
                    assert(now.atoms[k] == ms[k - rest.atoms.len() - 1]);
                } else {
                    assert(now.atoms[k] == a);
                }
            }
        }
    }
}

/// What the unit of a file is like: it starts with the atom of the file's
/// module, which is the only one of its kind. All atoms are of the file, and all
/// but the module are contained in another. Edges connect atoms of the unit,
/// and no call leads back to its caller.
pub open spec fn well_built(u: UnitView, path: Seq<char>) -> bool {
    &&& u.atoms.len() > 0
    &&& u.atoms[0].kind == "module"@
    &&& u.atoms[0].id == module_id(path)
    &&& u.atoms[0].name == stem(path)
    &&& forall|k: int| 0 < k < u.atoms.len() ==> (#[trigger] u.atoms[k]).kind != "module"@
    &&& all_in_file(u.atoms, path)
    &&& forall|k: int|
        0 <= k < u.edges.len() ==> has_id(u.atoms, (#[trigger] u.edges[k]).from) && has_id(
            u.atoms,
            u.edges[k].to,
        ) && (u.edges[k].kind == EdgeKind::Calls ==> u.edges[k].from != u.edges[k].to)
    &&& forall|k: int|
        0 < k < u.atoms.len() ==> is_contained(u.edges, (#[trigger] u.atoms[k]).id)
}

/// The unit of every file is like that.
pub proof fn law_well_built(f: FileView)
    ensures
        well_built(unit_of(f), f.path),
{
    let u = unit_of(f);
    let items = items_in(f, children(f.t, 0));
    law_unit_closed(f);
    lemma_items_no_module(f, children(f.t, 0));
    assert forall|k: int| 0 < k < u.atoms.len() implies (#[trigger] u.atoms[k]).kind != "module"@
        && is_contained(u.edges, u.atoms[k].id) by {
        assert(u.atoms[k] == items.atoms[k - 1]);
        law_all_contained(f, k);
    }
    assert forall|k: int| 0 <= k < u.edges.len() implies has_id(
        u.atoms,
        (#[trigger] u.edges[k]).from,
    ) && has_id(u.atoms, u.edges[k].to) && (u.edges[k].kind == EdgeKind::Calls ==> u.edges[k].from
        != u.edges[k].to) by {
        assert(joins(u.edges[k], u.atoms, module_id(f.path)));
    }
}

} // verus!
