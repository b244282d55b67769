//! Which calls and containments the unit of a file has.

use crate::chars::{after_prefix, ends, occurs};
use crate::graph::memory::calls;
use crate::model::{AtomView, CallSiteView, EdgeKind, EdgeView};
use crate::parser::scope::lookup;
use crate::parser::tree::{children, field_of};
use crate::parser::unit::{
    container_of, distinct_names, file_edges, item_at, items_in, lifted, lifted_edges, local_edges,
    method_edges, methods_edges, methods_in, module_id, named_ids, sibling_edges, sibling_name,
    sibling_target, unit_of, FileView, ItemsView, UnitView,
};
use vstd::prelude::*;

verus! {

// ── What a unit says ─────────────────────────────────────────────────────────

/// Whether an atom is a top-level item: neither the module, which comes first,
/// nor a method.
pub open spec fn is_top(atoms: Seq<AtomView>, k: int) -> bool {
    0 < k < atoms.len() && atoms[k].parent is None
}

/// Whether an atom is the last top-level item of a name.
pub open spec fn is_last_named(atoms: Seq<AtomView>, name: Seq<char>, k: int) -> bool {
    &&& is_top(atoms, k)
    &&& atoms[k].name == name
    &&& forall|j: int| j > k && #[trigger] is_top(atoms, j) ==> atoms[j].name != name
}

/// Whether one of the call sites has a name.
pub open spec fn names_site(sites: Seq<CallSiteView>, name: Seq<char>) -> bool {
    exists|s: int| 0 <= s < sites.len() && (#[trigger] sites[s]).name == name
}

/// Whether every bare call of an atom to a top-level item of the file is an
/// edge: to the last item of that name, unless that is the caller.
pub open spec fn calls_linked(u: UnitView) -> bool {
    forall|i: int, k: int|
        0 < i < u.atoms.len() && is_last_named(u.atoms, u.atoms[k].name, k) && names_site(
            u.atoms[i].calls,
            u.atoms[k].name,
        ) && !occurs(u.atoms[k].name, "::"@) && u.atoms[i].id != u.atoms[k].id
            ==> #[trigger] calls(u.edges, u.atoms[i].id, u.atoms[k].id)
}

/// Whether a call names a function: as it is, or behind a path.
pub open spec fn means_name(call: Seq<char>, name: Seq<char>) -> bool {
    call == name || ends(call, "::"@ + name)
}

/// Whether one of the call sites names a function so.
pub open spec fn some_means(sites: Seq<CallSiteView>, name: Seq<char>) -> bool {
    exists|s: int| 0 <= s < sites.len() && means_name((#[trigger] sites[s]).name, name)
}

/// Whether the source of one atom has a call to another: by its bare name to a
/// top-level item, or from one method to another of the same type.
pub open spec fn has_call(x: AtomView, y: AtomView) -> bool {
    ||| y.parent is None && names_site(x.calls, y.name) && !occurs(y.name, "::"@)
    ||| x.parent is Some && y.parent == x.parent && (some_means(x.calls, y.name) || some_means(
        x.method_calls,
        y.name,
    ))
}

/// Whether an edge stands for a call in the source of the file.
pub open spec fn call_in_source(atoms: Seq<AtomView>, e: EdgeView) -> bool {
    exists|i: int, k: int|
        0 <= i < atoms.len() && 0 <= k < atoms.len() && has_call(
            #[trigger] atoms[i],
            #[trigger] atoms[k],
        ) && atoms[i].id == e.from && atoms[k].id == e.to
}

/// Whether every call edge does.
pub open spec fn calls_justified(atoms: Seq<AtomView>, es: Seq<EdgeView>) -> bool {
    forall|e: int|
        0 <= e < es.len() && (#[trigger] es[e]).kind == EdgeKind::Calls ==> call_in_source(
            atoms,
            es[e],
        )
}

/// Whether an edge says that one id contains another.
pub open spec fn holds(es: Seq<EdgeView>, outer: Seq<char>, inner: Seq<char>) -> bool {
    exists|k: int|
        0 <= k < es.len() && (#[trigger] es[k]).kind == EdgeKind::Contains && es[k].from == outer
            && es[k].to == inner
}

/// Whether an atom is a method of a container: its id names the container.
pub open spec fn is_method_of(path: Seq<char>, container: AtomView, m: AtomView) -> bool {
    &&& container.parent is None
    &&& m.parent is Some
    &&& m.kind == "function"@
    &&& m.id == "code:"@ + path + "::function::"@ + container.name + "::"@ + m.name
}

/// Whether an atom is contained where it belongs: a top-level item in the
/// module, and a method in its container.
pub open spec fn is_placed(
    path: Seq<char>,
    atoms: Seq<AtomView>,
    es: Seq<EdgeView>,
    a: AtomView,
) -> bool {
    match a.parent {
        None => holds(es, "code:"@ + path, a.id) && a.id == "code:"@ + path + "::"@ + a.kind
            + "::"@ + a.name,
        Some(_) => exists|c: int|
            0 <= c < atoms.len() && is_method_of(path, #[trigger] atoms[c], a) && holds(
                es,
                atoms[c].id,
                a.id,
            ),
    }
}

/// Whether an edge of containment leads from the module to a top-level item, or
/// from a container to one of its methods.
pub open spec fn places(path: Seq<char>, atoms: Seq<AtomView>, e: EdgeView) -> bool {
    ||| e.from == "code:"@ + path && exists|k: int|
        0 <= k < atoms.len() && (#[trigger] atoms[k]).id == e.to && atoms[k].parent is None
    ||| exists|c: int, k: int|
        0 <= c < atoms.len() && 0 <= k < atoms.len() && is_method_of(
            path,
            #[trigger] atoms[c],
            #[trigger] atoms[k],
        ) && atoms[c].id == e.from && atoms[k].id == e.to
}

/// Whether all edges of containment do.
pub open spec fn all_place(path: Seq<char>, atoms: Seq<AtomView>, es: Seq<EdgeView>) -> bool {
    forall|e: int|
        0 <= e < es.len() && (#[trigger] es[e]).kind == EdgeKind::Contains ==> places(
            path,
            atoms,
            es[e],
        )
}

// ── Names ────────────────────────────────────────────────────────────────────

proof fn lemma_distinct_names(sites: Seq<CallSiteView>, name: Seq<char>)
    ensures
        distinct_names(sites).contains(name) <==> names_site(sites, name),
    decreases sites.len(),
{
    if sites.len() > 0 {
        let front = sites.drop_last();
        let last = sites[sites.len() - 1];
        lemma_distinct_names(front, name);
        lemma_distinct_names(front, last.name);
        crate::keys::lemma_push_contains(distinct_names(front), last.name);
        if names_site(front, name) {
            let s = choose|s: int| 0 <= s < front.len() && (#[trigger] front[s]).name == name;
            assert(sites[s] == front[s]);
        }
        if names_site(sites, name) {
            let s = choose|s: int| 0 <= s < sites.len() && (#[trigger] sites[s]).name == name;
            if s < front.len() {
                assert(front[s] == sites[s]);
            }
        }
    }
}

/// The last atom of a name in a list.
spec fn is_last_in(atoms: Seq<AtomView>, name: Seq<char>, k: int) -> bool {
    &&& 0 <= k < atoms.len()
    &&& atoms[k].name == name
    &&& forall|j: int| k < j < atoms.len() ==> (#[trigger] atoms[j]).name != name
}

proof fn lemma_lookup_last(atoms: Seq<AtomView>, name: Seq<char>)
    ensures
        forall|k: int| #[trigger]
            is_last_in(atoms, name, k) ==> lookup(named_ids(atoms), name) == Some(atoms[k].id),
        lookup(named_ids(atoms), name) is Some ==> exists|k: int| #[trigger]
            is_last_in(atoms, name, k),
    decreases atoms.len(),
{
    if atoms.len() > 0 {
        let front = atoms.drop_last();
        let ids = named_ids(atoms);
        lemma_lookup_last(front, name);
        assert(ids.drop_last() =~= named_ids(front));
        assert(ids.last() == (atoms.last().name, atoms.last().id));
        assert forall|k: int| #[trigger] is_last_in(atoms, name, k) implies lookup(ids, name)
            == Some(atoms[k].id) by {
            if k < front.len() {
                assert(atoms[atoms.len() - 1].name != name);
                assert forall|j: int| k < j < front.len() implies (#[trigger] front[j]).name
                    != name by {
                    assert(atoms[j].name != name);
                }
                assert(is_last_in(front, name, k));
            }
        }
        if lookup(ids, name) is Some {
            if atoms.last().name == name {
                assert(is_last_in(atoms, name, atoms.len() - 1));
            } else {
                let k = choose|k: int| #[trigger] is_last_in(front, name, k);
                assert forall|j: int| k < j < atoms.len() implies (#[trigger] atoms[j]).name
                    != name by {
                    if j < front.len() {
                        assert(front[j] == atoms[j]);
                    }
                }
                assert(is_last_in(atoms, name, k));
            }
        }
    }
}

// ── Edges by name ────────────────────────────────────────────────────────────

proof fn lemma_local_edges_have(
    ids: Seq<(Seq<char>, Seq<char>)>,
    from: Seq<char>,
    names: Seq<Seq<char>>,
    name: Seq<char>,
)
    requires
        names.contains(name),
        !occurs(name, "::"@),
        lookup(ids, name) is Some,
        lookup(ids, name)->0 != from,
    ensures
        calls(local_edges(ids, from, names), from, lookup(ids, name)->0),
    decreases names.len(),
{
    let front = names.drop_last();
    let es = local_edges(ids, from, names);
    let to = lookup(ids, name)->0;
    if names.last() == name {
        assert(es[es.len() - 1] == EdgeView::plain(from, to, EdgeKind::Calls));
    } else {
        let i = choose|i: int| 0 <= i < names.len() && names[i] == name;
        assert(front[i] == name);
        lemma_local_edges_have(ids, from, front, name);
        let old = local_edges(ids, from, front);
        let k = choose|k: int|
            0 <= k < old.len() && (#[trigger] old[k]).from == from && old[k].to == to && old[k].kind
                == EdgeKind::Calls;
        assert(es[k] == old[k]);
    }
}

proof fn lemma_local_edges_only(
    ids: Seq<(Seq<char>, Seq<char>)>,
    from: Seq<char>,
    names: Seq<Seq<char>>,
    e: int,
)
    requires
        0 <= e < local_edges(ids, from, names).len(),
    ensures
        local_edges(ids, from, names)[e].from == from,
        local_edges(ids, from, names)[e].kind == EdgeKind::Calls,
        exists|i: int|
            0 <= i < names.len() && !occurs(#[trigger] names[i], "::"@) && lookup(ids, names[i])
                == Some(local_edges(ids, from, names)[e].to),
    decreases names.len(),
{
    let front = names.drop_last();
    let old = local_edges(ids, from, front);
    if e < old.len() {
        lemma_local_edges_only(ids, from, front, e);
        let i = choose|i: int|
            0 <= i < front.len() && !occurs(#[trigger] front[i], "::"@) && lookup(ids, front[i])
                == Some(old[e].to);
        assert(names[i] == front[i]);
        assert(local_edges(ids, from, names)[e] == old[e]);
    } else {
        assert(names[names.len() - 1] == names.last());
    }
}

proof fn lemma_calls_front(a: Seq<EdgeView>, b: Seq<EdgeView>, x: Seq<char>, y: Seq<char>)
    ensures
        calls(a, x, y) || calls(b, x, y) ==> calls(a + b, x, y),
{
    if calls(a, x, y) {
        let k = choose|k: int|
            0 <= k < a.len() && (#[trigger] a[k]).from == x && a[k].to == y && a[k].kind
                == EdgeKind::Calls;
        assert((a + b)[k] == a[k]);
    }
    if calls(b, x, y) {
        let k = choose|k: int|
            0 <= k < b.len() && (#[trigger] b[k]).from == x && b[k].to == y && b[k].kind
                == EdgeKind::Calls;
        assert((a + b)[a.len() + k] == b[k]);
    }
}

proof fn lemma_file_edges_have(
    ids: Seq<(Seq<char>, Seq<char>)>,
    atoms: Seq<AtomView>,
    n: int,
    i: int,
    name: Seq<char>,
)
    requires
        0 <= i < n <= atoms.len(),
        names_site(atoms[i].calls, name),
        !occurs(name, "::"@),
        lookup(ids, name) is Some,
        lookup(ids, name)->0 != atoms[i].id,
    ensures
        calls(file_edges(ids, atoms, n), atoms[i].id, lookup(ids, name)->0),
    decreases n,
{
    let a = file_edges(ids, atoms, n - 1);
    let names = distinct_names(atoms[n - 1].calls);
    let b = local_edges(ids, atoms[n - 1].id, names);
    if i == n - 1 {
        lemma_distinct_names(atoms[i].calls, name);
        lemma_local_edges_have(ids, atoms[i].id, names, name);
    } else {
        lemma_file_edges_have(ids, atoms, n - 1, i, name);
    }
    lemma_calls_front(a, b, atoms[i].id, lookup(ids, name)->0);
}

proof fn lemma_file_edges_only(
    ids: Seq<(Seq<char>, Seq<char>)>,
    atoms: Seq<AtomView>,
    n: int,
    e: int,
) -> (r: (int, Seq<char>))
    requires
        0 <= n <= atoms.len(),
        0 <= e < file_edges(ids, atoms, n).len(),
    ensures
        0 <= r.0 < n,
        names_site(atoms[r.0].calls, r.1),
        !occurs(r.1, "::"@),
        lookup(ids, r.1) == Some(file_edges(ids, atoms, n)[e].to),
        file_edges(ids, atoms, n)[e].from == atoms[r.0].id,
        file_edges(ids, atoms, n)[e].kind == EdgeKind::Calls,
    decreases n,
{
    let a = file_edges(ids, atoms, n - 1);
    if e < a.len() {
        lemma_file_edges_only(ids, atoms, n - 1, e)
    } else {
        let names = distinct_names(atoms[n - 1].calls);
        let b = local_edges(ids, atoms[n - 1].id, names);
        let q = e - a.len();
        assert(file_edges(ids, atoms, n)[e] == b[q]);
        lemma_local_edges_only(ids, atoms[n - 1].id, names, q);
        let i = choose|i: int|
            0 <= i < names.len() && !occurs(#[trigger] names[i], "::"@) && lookup(ids, names[i])
                == Some(b[q].to);
        assert(names.contains(names[i]));
        lemma_distinct_names(atoms[n - 1].calls, names[i]);
        (n - 1, names[i])
    }
}

// ── Methods ──────────────────────────────────────────────────────────────────

proof fn lemma_sibling_means(
    call: Seq<char>,
    container: Seq<char>,
    owner: Seq<char>,
    name: Seq<char>,
)
    requires
        sibling_name(call, container, owner) == Some(name),
    ensures
        means_name(call, name),
{
    reveal_strlit("::");
    reveal_strlit("Self::");
    let colons = "::"@ + name;
    if call != name {
        let p = if after_prefix(call, "Self::"@) is Some {
            "Self::"@
        } else if after_prefix(call, container + "::"@) is Some {
            container + "::"@
        } else {
            owner + "::"@
        };
        assert(call.skip(p.len() as int) == name);
        assert(call.subrange(0, p.len() as int) == p);
        assert(p[p.len() - 1] == ':' && p[p.len() - 2] == ':');
        let k = call.len() - colons.len();
        let w = call.subrange(k, call.len() as int);
        assert forall|i: int| 0 <= i < colons.len() implies w[i] == #[trigger] colons[i] by {
            if i < 2 {
                assert(call[k + i] == call.subrange(0, p.len() as int)[k + i]);
            } else {
                assert(call[k + i] == call.skip(p.len() as int)[i - 2]);
            }
        }
        assert(w =~= colons);
        assert(call.subrange(k, k + colons.len()) =~= colons);
    }
}

proof fn lemma_sibling_edges_only(
    ms: Seq<AtomView>,
    from: Seq<char>,
    names: Seq<Seq<char>>,
    container: Seq<char>,
    owner: Seq<char>,
    e: int,
) -> (r: (int, int))
    requires
        0 <= e < sibling_edges(named_ids(ms), from, names, container, owner).len(),
    ensures
        0 <= r.0 < names.len(),
        0 <= r.1 < ms.len(),
        means_name(names[r.0], ms[r.1].name),
        sibling_edges(named_ids(ms), from, names, container, owner)[e] == EdgeView::plain(
            from,
            ms[r.1].id,
            EdgeKind::Calls,
        ),
    decreases names.len(),
{
    let front = names.drop_last();
    let old = sibling_edges(named_ids(ms), from, front, container, owner);
    if e < old.len() {
        lemma_sibling_edges_only(ms, from, front, container, owner, e)
    } else {
        let name = sibling_name(names.last(), container, owner)->0;
        lemma_lookup_last(ms, name);
        lemma_sibling_means(names.last(), container, owner, name);
        let k = choose|k: int| #[trigger] is_last_in(ms, name, k);
        (names.len() - 1, k)
    }
}

proof fn lemma_sibling_edges_have(
    ids: Seq<(Seq<char>, Seq<char>)>,
    from: Seq<char>,
    names: Seq<Seq<char>>,
    container: Seq<char>,
    owner: Seq<char>,
    call: Seq<char>,
)
    requires
        names.contains(call),
        sibling_target(ids, call, container, owner) is Some,
        sibling_target(ids, call, container, owner)->0 != from,
    ensures
        calls(
            sibling_edges(ids, from, names, container, owner),
            from,
            sibling_target(ids, call, container, owner)->0,
        ),
    decreases names.len(),
{
    let front = names.drop_last();
    let es = sibling_edges(ids, from, names, container, owner);
    let to = sibling_target(ids, call, container, owner)->0;
    if names.last() == call {
        assert(es[es.len() - 1] == EdgeView::plain(from, to, EdgeKind::Calls));
    } else {
        let i = choose|i: int| 0 <= i < names.len() && names[i] == call;
        assert(front[i] == call);
        lemma_sibling_edges_have(ids, from, front, container, owner, call);
        let old = sibling_edges(ids, from, front, container, owner);
        let k = choose|k: int|
            0 <= k < old.len() && (#[trigger] old[k]).from == from && old[k].to == to && old[k].kind
                == EdgeKind::Calls;
        assert(es[k] == old[k]);
    }
}

/// What the methods of a container are like.
spec fn are_methods(path: Seq<char>, a: AtomView, ms: Seq<AtomView>, owner: Seq<char>) -> bool {
    forall|k: int|
        0 <= k < ms.len() ==> is_method_of(path, a, #[trigger] ms[k]) && ms[k].parent == Some(owner)
}

proof fn lemma_methods_in(
    f: FileView,
    cs: Seq<int>,
    a: AtomView,
    owner: Seq<char>,
)
    requires
        a.parent is None,
    ensures
        are_methods(f.path, a, methods_in(f, cs, a.name, owner), owner),
    decreases cs.len(),
{
    if cs.len() > 0 {
        let ms = methods_in(f, cs, a.name, owner);
        let front = methods_in(f, cs.drop_last(), a.name, owner);
        lemma_methods_in(f, cs.drop_last(), a, owner);
        assert forall|k: int| 0 <= k < ms.len() implies is_method_of(f.path, a, #[trigger] ms[k])
            && ms[k].parent == Some(owner) by {
            if k < front.len() {
                assert(ms[k] == front[k]);
            } else {
                let m = ms[k];
                reveal_strlit("::");
                reveal_strlit("function");
                reveal_strlit("::function::");
                assert("::function::"@ =~= "::"@ + "function"@ + "::"@);
                assert(m.id =~= "code:"@ + f.path + "::function::"@ + a.name + "::"@ + m.name);
            }
        }
    }
}

proof fn lemma_lifted(f: FileView, i: int, a: AtomView)
    requires
        a.parent is None,
    ensures
        container_of(f, i, a.name) matches Some((container, owner)) ==> container == a.name
            && are_methods(f.path, a, lifted(f, i, a.name), owner),
        container_of(f, i, a.name) is None ==> lifted(f, i, a.name).len() == 0,
{
    if let Some((container, owner)) = container_of(f, i, a.name) {
        if let Some(b) = field_of(f.t, i, "body"@) {
            lemma_methods_in(f, children(f.t, b), a, owner);
        }
    }
}

proof fn lemma_holds_concat(a: Seq<EdgeView>, b: Seq<EdgeView>, x: Seq<char>, y: Seq<char>)
    ensures
        holds(a, x, y) || holds(b, x, y) ==> holds(a + b, x, y),
{
    if holds(a, x, y) {
        let k = choose|k: int|
            0 <= k < a.len() && (#[trigger] a[k]).kind == EdgeKind::Contains && a[k].from == x
                && a[k].to == y;
        assert((a + b)[k] == a[k]);
    }
    if holds(b, x, y) {
        let k = choose|k: int|
            0 <= k < b.len() && (#[trigger] b[k]).kind == EdgeKind::Contains && b[k].from == x
                && b[k].to == y;
        assert((a + b)[a.len() + k] == b[k]);
    }
}

proof fn lemma_sites_concat(m: AtomView, i: int)
    requires
        0 <= i < (distinct_names(m.calls) + distinct_names(m.method_calls)).len(),
    ensures
        ({
            let name = (distinct_names(m.calls) + distinct_names(m.method_calls))[i];
            names_site(m.calls, name) || names_site(m.method_calls, name)
        }),
{
    let a = distinct_names(m.calls);
    let b = distinct_names(m.method_calls);
    if i < a.len() {
        assert(a.contains(a[i]));
        lemma_distinct_names(m.calls, a[i]);
    } else {
        assert(b.contains(b[i - a.len()]));
        lemma_distinct_names(m.method_calls, b[i - a.len()]);
    }
}

/// What the edges of the first methods of a container are.
proof fn lemma_methods_edges_only(
    path: Seq<char>,
    a: AtomView,
    ms: Seq<AtomView>,
    owner: Seq<char>,
    n: int,
)
    requires
        are_methods(path, a, ms, owner),
        0 <= n <= ms.len(),
    ensures
        ({
            let es = methods_edges(named_ids(ms), a.id, a.name, owner, ms, n);
            let both = seq![a] + ms;
            &&& calls_justified(both, es)
            &&& all_place(path, both, es)
            &&& forall|k: int| 0 <= k < n ==> holds(es, a.id, (#[trigger] ms[k]).id)
        }),
    decreases n,
{
    if n > 0 {
        let both = seq![a] + ms;
        let m = ms[n - 1];
        let names = distinct_names(m.calls) + distinct_names(m.method_calls);
        let ids = named_ids(ms);
        let sib = sibling_edges(ids, m.id, names, a.name, owner);
        let front = methods_edges(ids, a.id, a.name, owner, ms, n - 1);
        let more = method_edges(ids, a.id, a.name, owner, m);
        let es = methods_edges(ids, a.id, a.name, owner, ms, n);
        lemma_methods_edges_only(path, a, ms, owner, n - 1);
        assert(both[0] == a);
        assert(both[n] == m);
        assert(is_method_of(path, a, ms[n - 1]));
        assert forall|e: int| 0 <= e < es.len() && (#[trigger] es[e]).kind == EdgeKind::Calls implies
            call_in_source(both, es[e]) by {
            if e < front.len() {
                assert(es[e] == front[e]);
            } else {
                let q = e - front.len();
                assert(es[e] == more[q]);
                assert(q > 0);
                assert(more[q] == sib[q - 1]);
                let (i, k) = lemma_sibling_edges_only(ms, m.id, names, a.name, owner, q - 1);
                lemma_sites_concat(m, i);
                assert(is_method_of(path, a, ms[k]));
                let y = ms[k];
                assert(both[k + 1] == y);
                if names_site(m.calls, names[i]) {
                    let s = choose|s: int|
                        0 <= s < m.calls.len() && (#[trigger] m.calls[s]).name == names[i];
                    assert(means_name(m.calls[s].name, y.name));
                } else {
                    let s = choose|s: int|
                        0 <= s < m.method_calls.len() && (#[trigger] m.method_calls[s]).name
                            == names[i];
                    assert(means_name(m.method_calls[s].name, y.name));
                }
                assert(has_call(both[n], both[k + 1]));
            }
        }
        assert forall|e: int| 0 <= e < es.len() && (#[trigger] es[e]).kind == EdgeKind::Contains
            implies places(path, both, es[e]) by {
            if e < front.len() {
                assert(es[e] == front[e]);
            } else {
                let q = e - front.len();
                assert(es[e] == more[q]);
                if q > 0 {
                    assert(more[q] == sib[q - 1]);
                    let (i, k) = lemma_sibling_edges_only(ms, m.id, names, a.name, owner, q - 1);
                }
                assert(is_method_of(path, both[0], both[n]));
            }
        }
        assert forall|k: int| 0 <= k < n implies holds(es, a.id, (#[trigger] ms[k]).id) by {
            if k == n - 1 {
                assert(more[0].kind == EdgeKind::Contains);
                assert(holds(more, a.id, ms[k].id));
            }
            lemma_holds_concat(front, more, a.id, ms[k].id);
        }
    }
}

// ── Items ────────────────────────────────────────────────────────────────────

/// Whether all atoms of one list are in another.
spec fn all_in(a: Seq<AtomView>, b: Seq<AtomView>) -> bool {
    forall|k: int| 0 <= k < a.len() ==> b.contains(#[trigger] a[k])
}

proof fn lemma_more(
    path: Seq<char>,
    a: Seq<AtomView>,
    b: Seq<AtomView>,
    es: Seq<EdgeView>,
)
    requires
        all_in(a, b),
    ensures
        calls_justified(a, es) ==> calls_justified(b, es),
        all_place(path, a, es) ==> all_place(path, b, es),
{
    if calls_justified(a, es) {
        assert forall|e: int| 0 <= e < es.len() && (#[trigger] es[e]).kind == EdgeKind::Calls implies
            call_in_source(b, es[e]) by {
            assert(call_in_source(a, es[e]));
            let (i, k) = choose|i: int, k: int|
                0 <= i < a.len() && 0 <= k < a.len() && has_call(
                    #[trigger] a[i],
                    #[trigger] a[k],
                ) && a[i].id == es[e].from && a[k].id == es[e].to;
            assert(b.contains(a[i]) && b.contains(a[k]));
            let p = choose|p: int| 0 <= p < b.len() && b[p] == a[i];
            let q = choose|q: int| 0 <= q < b.len() && b[q] == a[k];
            assert(has_call(b[p], b[q]));
        }
    }
    if all_place(path, a, es) {
        assert forall|e: int| 0 <= e < es.len() && (#[trigger] es[e]).kind == EdgeKind::Contains
            implies places(path, b, es[e]) by {
            let x = es[e];
            assert(places(path, a, x));
            if x.from == "code:"@ + path && exists|k: int|
                0 <= k < a.len() && (#[trigger] a[k]).id == x.to && a[k].parent is None {
                let k = choose|k: int|
                    0 <= k < a.len() && (#[trigger] a[k]).id == x.to && a[k].parent is None;
                assert(b.contains(a[k]));
                let q = choose|q: int| 0 <= q < b.len() && b[q] == a[k];
                assert(b[q].id == x.to);
            } else {
                let (c, k) = choose|c: int, k: int|
                    0 <= c < a.len() && 0 <= k < a.len() && is_method_of(
                        path,
                        #[trigger] a[c],
                        #[trigger] a[k],
                    ) && a[c].id == x.from && a[k].id == x.to;
                assert(b.contains(a[c]) && b.contains(a[k]));
                let p = choose|p: int| 0 <= p < b.len() && b[p] == a[c];
                let q = choose|q: int| 0 <= q < b.len() && b[q] == a[k];
                assert(is_method_of(path, b[p], b[q]));
            }
        }
    }
}

proof fn lemma_placed_more(
    path: Seq<char>,
    a: Seq<AtomView>,
    b: Seq<AtomView>,
    es: Seq<EdgeView>,
    before: Seq<EdgeView>,
    after: Seq<EdgeView>,
    x: AtomView,
)
    requires
        all_in(a, b),
        is_placed(path, a, es, x),
    ensures
        is_placed(path, b, before + es + after, x),
{
    match x.parent {
        None => {
            lemma_holds_concat(before, es, "code:"@ + path, x.id);
            lemma_holds_concat(before + es, after, "code:"@ + path, x.id);
        },
        Some(_) => {
            let c = choose|c: int|
                0 <= c < a.len() && is_method_of(path, #[trigger] a[c], x) && holds(
                    es,
                    a[c].id,
                    x.id,
                );
            assert(b.contains(a[c]));
            let q = choose|q: int| 0 <= q < b.len() && b[q] == a[c];
            lemma_holds_concat(before, es, a[c].id, x.id);
            lemma_holds_concat(before + es, after, a[c].id, x.id);
            assert(is_method_of(path, b[q], x));
        },
    }
}

proof fn lemma_both_in(a: Seq<EdgeView>, b: Seq<EdgeView>, atoms: Seq<AtomView>, path: Seq<char>)
    ensures
        calls_justified(atoms, a) && calls_justified(atoms, b) ==> calls_justified(atoms, a + b),
        all_place(path, atoms, a) && all_place(path, atoms, b) ==> all_place(path, atoms, a + b),
{
    let es = a + b;
    assert forall|e: int| 0 <= e < es.len() implies (e < a.len() && #[trigger] es[e] == a[e]) || (e
        >= a.len() && es[e] == b[e - a.len()]) by {}
    if calls_justified(atoms, a) && calls_justified(atoms, b) {
        assert forall|e: int| 0 <= e < es.len() && (#[trigger] es[e]).kind == EdgeKind::Calls implies
            call_in_source(atoms, es[e]) by {
            if e < a.len() {
                assert(call_in_source(atoms, a[e]));
            } else {
                assert(call_in_source(atoms, b[e - a.len()]));
            }
        }
    }
    if all_place(path, atoms, a) && all_place(path, atoms, b) {
        assert forall|e: int| 0 <= e < es.len() && (#[trigger] es[e]).kind == EdgeKind::Contains
            implies places(path, atoms, es[e]) by {
            if e < a.len() {
                assert(places(path, atoms, a[e]));
            } else {
                assert(places(path, atoms, b[e - a.len()]));
            }
        }
    }
}

/// What holds of the items of a file.
spec fn items_hold(path: Seq<char>, it: ItemsView) -> bool {
    &&& calls_justified(it.atoms, it.edges)
    &&& all_place(path, it.atoms, it.edges)
    &&& forall|k: int|
        0 <= k < it.atoms.len() ==> is_placed(path, it.atoms, it.edges, #[trigger] it.atoms[k])
}

proof fn lemma_items_hold(f: FileView, cs: Seq<int>)
    ensures
        items_hold(f.path, items_in(f, cs)),
    decreases cs.len(),
{
    if cs.len() > 0 {
        let path = f.path;
        let rest = items_in(f, cs.drop_last());
        let now = items_in(f, cs);
        let i = cs.last();
        lemma_items_hold(f, cs.drop_last());
        if let Some(a) = item_at(f, i) {
            let ms = lifted(f, i, a.name);
            let es = lifted_edges(f, i, a);
            let own = EdgeView::plain(module_id(path), a.id, EdgeKind::Contains);
            let both = seq![a] + ms;
            lemma_lifted(f, i, a);
            match container_of(f, i, a.name) {
                Some((container, owner)) => {
                    lemma_methods_edges_only(path, a, ms, owner, ms.len() as int);
                },
                None => {},
            }
            assert(calls_justified(both, es) && all_place(path, both, es));
            assert(now.atoms =~= rest.atoms + both);
            assert(now.edges =~= rest.edges + seq![own] + es);
            assert forall|k: int| 0 <= k < rest.atoms.len() implies now.atoms.contains(
                #[trigger] rest.atoms[k],
            ) by {
                assert(now.atoms[k] == rest.atoms[k]);
            }
            assert forall|k: int| 0 <= k < both.len() implies now.atoms.contains(
                #[trigger] both[k],
            ) by {
                assert(now.atoms[rest.atoms.len() + k] == both[k]);
            }
            lemma_more(path, rest.atoms, now.atoms, rest.edges);
            lemma_more(path, both, now.atoms, es);
            let here = rest.atoms.len() as int;
            assert(now.atoms[here] == a);
            assert(places(path, now.atoms, own)) by {
                assert(now.atoms[here].id == own.to && now.atoms[here].parent is None);
            }
            assert(calls_justified(now.atoms, seq![own]) && all_place(path, now.atoms, seq![own]));
            lemma_both_in(rest.edges, seq![own], now.atoms, path);
            lemma_both_in(rest.edges + seq![own], es, now.atoms, path);
            assert forall|k: int| 0 <= k < now.atoms.len() implies is_placed(
                path,
                now.atoms,
                now.edges,
                #[trigger] now.atoms[k],
            ) by {
                let x = now.atoms[k];
                if k < here {
                    assert(x == rest.atoms[k]);
                    lemma_placed_more(
                        path,
                        rest.atoms,
                        now.atoms,
                        rest.edges,
                        Seq::empty(),
                        seq![own] + es,
                        x,
                    );
                    assert(Seq::<EdgeView>::empty() + rest.edges + (seq![own] + es) =~= now.edges);
                } else if k == here {
                    assert(now.edges[rest.edges.len() as int] == own);
                    assert(holds(now.edges, "code:"@ + path, a.id));
                } else {
                    let j = k - here - 1;
                    assert(x == ms[j]);
                    assert(both[0] == a);
                    assert(is_method_of(path, both[0], x) && holds(es, both[0].id, x.id));
                    assert(is_placed(path, both, es, x));
                    lemma_placed_more(
                        path,
                        both,
                        now.atoms,
                        es,
                        rest.edges + seq![own],
                        Seq::empty(),
                        x,
                    );
                    assert(rest.edges + seq![own] + es + Seq::<EdgeView>::empty() =~= now.edges);
                }
            }
        }
    }
}

/// Whether an atom of a list is the last one that is no method and has a name.
spec fn is_last_top(atoms: Seq<AtomView>, name: Seq<char>, k: int) -> bool {
    &&& 0 <= k < atoms.len()
    &&& atoms[k].parent is None
    &&& atoms[k].name == name
    &&& forall|j: int|
        k < j < atoms.len() && (#[trigger] atoms[j]).parent is None ==> atoms[j].name != name
}

proof fn lemma_tops(f: FileView, cs: Seq<int>, name: Seq<char>)
    ensures
        forall|k: int| #[trigger]
            is_last_top(items_in(f, cs).atoms, name, k) ==> lookup(
                named_ids(items_in(f, cs).tops),
                name,
            ) == Some(items_in(f, cs).atoms[k].id),
        lookup(named_ids(items_in(f, cs).tops), name) is Some ==> exists|k: int| #[trigger]
            is_last_top(items_in(f, cs).atoms, name, k),
    decreases cs.len(),
{
    if cs.len() > 0 {
        let rest = items_in(f, cs.drop_last());
        let now = items_in(f, cs);
        let i = cs.last();
        lemma_tops(f, cs.drop_last(), name);
        if let Some(a) = item_at(f, i) {
            let ms = lifted(f, i, a.name);
            let here = rest.atoms.len() as int;
            let ids = named_ids(now.tops);
            lemma_lifted(f, i, a);
            assert(ids.drop_last() =~= named_ids(rest.tops));
            assert(ids.last() == (a.name, a.id));
            assert(now.atoms[here] == a);
            assert forall|j: int| here < j < now.atoms.len() implies (
            #[trigger] now.atoms[j]).parent is Some by {
                assert(now.atoms[j] == ms[j - here - 1]);
            }
            assert forall|j: int| 0 <= j < here implies #[trigger] now.atoms[j]
                == rest.atoms[j] by {}
            assert forall|k: int| #[trigger] is_last_top(now.atoms, name, k) implies lookup(
                ids,
                name,
            ) == Some(now.atoms[k].id) by {
                if a.name == name {
                    if k < here {
                        assert(now.atoms[here].name != name);
                    }
                    assert(k == here);
                } else {
                    assert(k < here);
                    assert forall|j: int|
                        k < j < rest.atoms.len() && (
                        #[trigger] rest.atoms[j]).parent is None implies rest.atoms[j].name
                        != name by {
                        assert(now.atoms[j] == rest.atoms[j]);
                    }
                    assert(is_last_top(rest.atoms, name, k));
                }
            }
            if lookup(ids, name) is Some {
                if a.name == name {
                    assert(is_last_top(now.atoms, name, here));
                } else {
                    let k = choose|k: int| #[trigger] is_last_top(rest.atoms, name, k);
                    assert forall|j: int|
                        k < j < now.atoms.len() && (
                        #[trigger] now.atoms[j]).parent is None implies now.atoms[j].name
                        != name by {
                        if j < here {
                            assert(now.atoms[j] == rest.atoms[j]);
                        }
                    }
                    assert(is_last_top(now.atoms, name, k));
                }
            }
        }
    }
}

// ── Units ────────────────────────────────────────────────────────────────────

/// What the edges of a unit are: each bare call of an atom to a top-level item of
/// the file is an edge, each call edge stands for such a call or for one between
/// methods of a type, each atom is contained where it belongs, and nothing else
/// is contained.
pub open spec fn well_linked(u: UnitView, path: Seq<char>) -> bool {
    &&& calls_linked(u)
    &&& calls_justified(u.atoms, u.edges)
    &&& all_place(path, u.atoms, u.edges)
    &&& forall|k: int|
        0 < k < u.atoms.len() ==> is_placed(path, u.atoms, u.edges, #[trigger] u.atoms[k])
}

/// The edges of the unit of every file are like that.
pub proof fn law_well_linked(f: FileView)
    ensures
        well_linked(unit_of(f), f.path),
{
    let cs = children(f.t, 0);
    let it = items_in(f, cs);
    let u = unit_of(f);
    let ids = named_ids(it.tops);
    let more = file_edges(ids, it.atoms, it.atoms.len() as int);
    lemma_items_hold(f, cs);
    assert forall|k: int| 0 <= k < it.atoms.len() implies u.atoms.contains(
        #[trigger] it.atoms[k],
    ) by {
        assert(u.atoms[k + 1] == it.atoms[k]);
    }
    lemma_more(f.path, it.atoms, u.atoms, it.edges);
    assert forall|e: int| 0 <= e < more.len() && (#[trigger] more[e]).kind == EdgeKind::Calls implies
        call_in_source(u.atoms, more[e]) by {
        let (i, name) = lemma_file_edges_only(ids, it.atoms, it.atoms.len() as int, e);
        lemma_tops(f, cs, name);
        let k = choose|k: int| #[trigger] is_last_top(it.atoms, name, k);
        assert(u.atoms[i + 1] == it.atoms[i] && u.atoms[k + 1] == it.atoms[k]);
        assert(has_call(u.atoms[i + 1], u.atoms[k + 1]));
    }
    assert forall|e: int| 0 <= e < more.len() && (#[trigger] more[e]).kind == EdgeKind::Contains
        implies places(f.path, u.atoms, more[e]) by {
        let (i, name) = lemma_file_edges_only(ids, it.atoms, it.atoms.len() as int, e);
    }
    lemma_both_in(it.edges, more, u.atoms, f.path);
    assert forall|k: int| 0 < k < u.atoms.len() implies is_placed(
        f.path,
        u.atoms,
        u.edges,
        #[trigger] u.atoms[k],
    ) by {
        let x = it.atoms[k - 1];
        assert(u.atoms[k] == x);
        lemma_placed_more(f.path, it.atoms, u.atoms, it.edges, Seq::empty(), more, x);
        assert(Seq::<EdgeView>::empty() + it.edges + more =~= u.edges);
    }
    lemma_calls_linked(f);
}

/// The bare calls to top-level items of the unit of a file are edges.
proof fn lemma_calls_linked(f: FileView)
    ensures
        calls_linked(unit_of(f)),
{
    let cs = children(f.t, 0);
    let it = items_in(f, cs);
    let u = unit_of(f);
    let ids = named_ids(it.tops);
    let more = file_edges(ids, it.atoms, it.atoms.len() as int);
    assert forall|i: int, k: int|
        0 < i < u.atoms.len() && is_last_named(u.atoms, u.atoms[k].name, k) && names_site(
            u.atoms[i].calls,
            u.atoms[k].name,
        ) && !occurs(u.atoms[k].name, "::"@) && u.atoms[i].id != u.atoms[k].id implies
        #[trigger] calls(u.edges, u.atoms[i].id, u.atoms[k].id) by {
        let name = u.atoms[k].name;
        assert(u.atoms[i] == it.atoms[i - 1] && u.atoms[k] == it.atoms[k - 1]);
        assert forall|j: int|
            k - 1 < j < it.atoms.len() && (#[trigger] it.atoms[j]).parent is None implies
            it.atoms[j].name != name by {
            assert(u.atoms[j + 1] == it.atoms[j]);
            assert(is_top(u.atoms, j + 1));
        }
        assert(is_last_top(it.atoms, name, k - 1));
        lemma_tops(f, cs, name);
        lemma_file_edges_have(ids, it.atoms, it.atoms.len() as int, i - 1, name);
        lemma_calls_front(it.edges, more, u.atoms[i].id, u.atoms[k].id);
    }
}

// ── Containers ───────────────────────────────────────────────────────────────

/// What a node among the top-level nodes brings stays with those after it.
proof fn lemma_items_kept(f: FileView, cs: Seq<int>, p: int)
    requires
        0 <= p < cs.len(),
        item_at(f, cs[p]) is Some,
    ensures
        ({
            let a = item_at(f, cs[p])->0;
            let it = items_in(f, cs);
            &&& it.atoms.contains(a)
            &&& forall|k: int|
                0 <= k < lifted(f, cs[p], a.name).len() ==> it.atoms.contains(
                    #[trigger] lifted(f, cs[p], a.name)[k],
                )
            &&& forall|x: Seq<char>, y: Seq<char>| #[trigger]
                calls(lifted_edges(f, cs[p], a), x, y) ==> calls(it.edges, x, y)
        }),
    decreases cs.len(),
{
    let front = cs.drop_last();
    let rest = items_in(f, front);
    let now = items_in(f, cs);
    let i = cs.last();
    let a = item_at(f, cs[p])->0;
    let ms = lifted(f, cs[p], a.name);
    if p < front.len() {
        assert(front[p] == cs[p]);
        lemma_items_kept(f, front, p);
        if let Some(b) = item_at(f, i) {
            let own = EdgeView::plain(module_id(f.path), b.id, EdgeKind::Contains);
            let es = lifted_edges(f, i, b);
            assert(now.edges =~= rest.edges + (seq![own] + es));
            assert forall|x: Seq<char>, y: Seq<char>| #[trigger]
                calls(lifted_edges(f, cs[p], a), x, y) implies calls(now.edges, x, y) by {
                lemma_calls_front(rest.edges, seq![own] + es, x, y);
            }
            assert(now.atoms =~= rest.atoms + (seq![b] + lifted(f, i, b.name)));
            assert forall|v: AtomView| rest.atoms.contains(v) implies #[trigger] now.atoms.contains(
                v,
            ) by {
                let q = choose|q: int| 0 <= q < rest.atoms.len() && rest.atoms[q] == v;
                assert(now.atoms[q] == v);
            }
        }
    } else {
        let own = EdgeView::plain(module_id(f.path), a.id, EdgeKind::Contains);
        assert(now.atoms[rest.atoms.len() as int] == a);
        assert forall|k: int| 0 <= k < ms.len() implies now.atoms.contains(#[trigger] ms[k]) by {
            assert(now.atoms[rest.atoms.len() + 1 + k] == ms[k]);
        }
        assert forall|x: Seq<char>, y: Seq<char>| #[trigger]
            calls(lifted_edges(f, cs[p], a), x, y) implies calls(now.edges, x, y) by {
            lemma_calls_front(rest.edges.push(own), lifted_edges(f, i, a), x, y);
        }
    }
}

/// Every top-level item of a file is an atom of its unit, and so is every method
/// in the body of an `impl` block or a class.
pub proof fn law_all_items(f: FileView, p: int)
    requires
        0 <= p < children(f.t, 0).len(),
        item_at(f, children(f.t, 0)[p]) is Some,
    ensures
        ({
            let i = children(f.t, 0)[p];
            let a = item_at(f, i)->0;
            &&& unit_of(f).atoms.contains(a)
            &&& forall|k: int|
                0 <= k < lifted(f, i, a.name).len() ==> unit_of(f).atoms.contains(
                    #[trigger] lifted(f, i, a.name)[k],
                )
        }),
{
    let cs = children(f.t, 0);
    let it = items_in(f, cs);
    let u = unit_of(f);
    lemma_items_kept(f, cs, p);
    assert forall|v: AtomView| it.atoms.contains(v) implies #[trigger] u.atoms.contains(v) by {
        let q = choose|q: int| 0 <= q < it.atoms.len() && it.atoms[q] == v;
        assert(u.atoms[q + 1] == v);
    }
}

proof fn lemma_methods_edges_have(
    ms: Seq<AtomView>,
    id: Seq<char>,
    container: Seq<char>,
    owner: Seq<char>,
    n: int,
    x: int,
    call: Seq<char>,
)
    requires
        0 <= x < n <= ms.len(),
        names_site(ms[x].calls, call) || names_site(ms[x].method_calls, call),
        sibling_target(named_ids(ms), call, container, owner) is Some,
        sibling_target(named_ids(ms), call, container, owner)->0 != ms[x].id,
    ensures
        calls(
            methods_edges(named_ids(ms), id, container, owner, ms, n),
            ms[x].id,
            sibling_target(named_ids(ms), call, container, owner)->0,
        ),
    decreases n,
{
    let ids = named_ids(ms);
    let to = sibling_target(ids, call, container, owner)->0;
    let front = methods_edges(ids, id, container, owner, ms, n - 1);
    let more = method_edges(ids, id, container, owner, ms[n - 1]);
    if x < n - 1 {
        lemma_methods_edges_have(ms, id, container, owner, n - 1, x, call);
    } else {
        let m = ms[x];
        let a = distinct_names(m.calls);
        let b = distinct_names(m.method_calls);
        lemma_distinct_names(m.calls, call);
        lemma_distinct_names(m.method_calls, call);
        if a.contains(call) {
            let q = choose|q: int| 0 <= q < a.len() && a[q] == call;
            assert((a + b)[q] == call);
        } else {
            let q = choose|q: int| 0 <= q < b.len() && b[q] == call;
            assert((a + b)[a.len() + q] == call);
        }
        lemma_sibling_edges_have(ids, m.id, a + b, container, owner, call);
        let own = EdgeView::plain(id, m.id, EdgeKind::Contains);
        lemma_calls_front(
            seq![own],
            sibling_edges(ids, m.id, a + b, container, owner),
            m.id,
            to,
        );
    }
    lemma_calls_front(front, more, ms[x].id, to);
}

/// Whether a call in a container of methods means the method of a name: by the
/// bare name, behind `Self`, or behind the type that the methods belong to.
pub open spec fn means_sibling(call: Seq<char>, owner: Seq<char>, name: Seq<char>) -> bool {
    ||| call == name && !occurs(name, "::"@)
    ||| call == "Self::"@ + name
    ||| call == owner + "::"@ + name && occurs(call, "::"@) && after_prefix(call, "Self::"@) is None
}

/// A call from one method to another of the same container is an edge of the
/// unit: to the last method of the name, unless that is the caller.
pub proof fn law_siblings_linked(f: FileView, p: int, x: int, y: int, call: Seq<char>)
    requires
        0 <= p < children(f.t, 0).len(),
        item_at(f, children(f.t, 0)[p]) is Some,
        ({
            let i = children(f.t, 0)[p];
            let a = item_at(f, i)->0;
            let ms = lifted(f, i, a.name);
            &&& container_of(f, i, a.name) is Some
            &&& 0 <= x < ms.len()
            &&& 0 <= y < ms.len()
            &&& names_site(ms[x].calls, call) || names_site(ms[x].method_calls, call)
            &&& means_sibling(call, (container_of(f, i, a.name)->0).1, ms[y].name)
            &&& after_prefix(call, a.name + "::"@) is None || (container_of(f, i, a.name)->0).1
                == a.name
            &&& forall|k: int| y < k < ms.len() ==> (#[trigger] ms[k]).name != ms[y].name
            &&& ms[x].id != ms[y].id
        }),
    ensures
        ({
            let i = children(f.t, 0)[p];
            let ms = lifted(f, i, (item_at(f, i)->0).name);
            calls(unit_of(f).edges, ms[x].id, ms[y].id)
        }),
{
    let cs = children(f.t, 0);
    let i = cs[p];
    let a = item_at(f, i)->0;
    let ms = lifted(f, i, a.name);
    let (container, owner) = container_of(f, i, a.name)->0;
    let name = ms[y].name;
    let it = items_in(f, cs);
    let more = file_edges(named_ids(it.tops), it.atoms, it.atoms.len() as int);
    lemma_lifted(f, i, a);
    reveal_strlit("::");
    reveal_strlit("Self::");
    if call == name && !occurs(name, "::"@) {
        if after_prefix(call, "Self::"@) is Some {
            assert(call.subrange(0, 6) == "Self::"@);
            assert(call.subrange(4, 6) =~= call.subrange(0, 6).subrange(4, 6));
            assert(call.subrange(4, 6) =~= "::"@);
            assert(crate::chars::occurs_at(call, "::"@, 4));
            crate::cache::lemma_found_from(call, "::"@, 0, 4);
        }
    } else if call == "Self::"@ + name {
        assert(call.subrange(0, 6) =~= "Self::"@);
        assert(call.skip(6) =~= name);
    } else {
        let pre = owner + "::"@;
        assert(call.subrange(0, pre.len() as int) =~= pre);
        assert(call.skip(pre.len() as int) =~= name);
    }
    assert(sibling_name(call, container, owner) == Some(name));
    assert(is_last_in(ms, name, y));
    lemma_lookup_last(ms, name);
    assert(sibling_target(named_ids(ms), call, container, owner) == Some(ms[y].id));
    lemma_methods_edges_have(ms, a.id, container, owner, ms.len() as int, x, call);
    assert(calls(lifted_edges(f, i, a), ms[x].id, ms[y].id));
    lemma_items_kept(f, cs, p);
    lemma_calls_front(it.edges, more, ms[x].id, ms[y].id);
}

} // verus!
