//! What the artifacts say of a store.

use crate::artifacts::emit::{
    artifact_of, artifacts_of, drawn_ids, row_of, rows_of, ArtifactView,
};
use crate::artifacts::entity::{callee_line, caller_line, center, header, last_segment, short_id};
use crate::graph::memory::{
    calls, edges_in, edges_out, law_listing_complete, lists_all, of_kind, sources, targets,
    StoreView,
};
use crate::model::{AtomView, EdgeKind, EdgeView};
use crate::render::lines::lines;
use crate::render::rows::{
    has_line, lemma_line_back, lemma_line_front, lemma_lines_has, lemma_lines_whole, lemma_one_row,
    lemma_whole_concat, whole,
};
use crate::render::util::escaped;
use vstd::prelude::*;

verus! {

/// Whether an edge of a kind leads from one id to another.
pub open spec fn has_edge(
    es: Seq<EdgeView>,
    from: Seq<char>,
    to: Seq<char>,
    kind: EdgeKind,
) -> bool {
    exists|k: int|
        0 <= k < es.len() && (#[trigger] es[k]).from == from && es[k].to == to && es[k].kind == kind
}

proof fn lemma_filter_has(es: Seq<EdgeView>, p: spec_fn(EdgeView) -> bool, e: EdgeView)
    ensures
        es.filter(p).contains(e) <==> es.contains(e) && p(e),
{
    broadcast use vstd::seq_lib::group_filter_ensures;

    let f = es.filter(p);
    if f.contains(e) {
        let i = choose|i: int| 0 <= i < f.len() && f[i] == e;
        assert(p(f[i]));
        es.lemma_filter_contains_rev(p, e);
    }
    if es.contains(e) && p(e) {
        let i = choose|i: int| 0 <= i < es.len() && es[i] == e;
        assert(f.contains(es[i]));
    }
}

proof fn lemma_targets(es: Seq<EdgeView>, id: Seq<char>, kind: EdgeKind, other: Seq<char>)
    ensures
        targets(of_kind(edges_out(es, id), kind)).contains(other) <==> has_edge(
            es,
            id,
            other,
            kind,
        ),
{
    let outs = edges_out(es, id);
    let some = of_kind(outs, kind);
    if targets(some).contains(other) {
        let i = choose|i: int| 0 <= i < targets(some).len() && targets(some)[i] == other;
        let e = some[i];
        assert(some.contains(e));
        lemma_filter_has(outs, |e: EdgeView| e.kind == kind, e);
        lemma_filter_has(es, |e: EdgeView| e.from == id, e);
        let k = choose|k: int| 0 <= k < es.len() && es[k] == e;
        assert(es[k].from == id);
    }
    if has_edge(es, id, other, kind) {
        let k = choose|k: int|
            0 <= k < es.len() && (#[trigger] es[k]).from == id && es[k].to == other && es[k].kind
                == kind;
        assert(es.contains(es[k]));
        lemma_filter_has(es, |e: EdgeView| e.from == id, es[k]);
        lemma_filter_has(outs, |e: EdgeView| e.kind == kind, es[k]);
        let i = choose|i: int| 0 <= i < some.len() && some[i] == es[k];
        assert(targets(some)[i] == other);
    }
}

proof fn lemma_sources(es: Seq<EdgeView>, id: Seq<char>, kind: EdgeKind, other: Seq<char>)
    ensures
        sources(of_kind(edges_in(es, id), kind)).contains(other) <==> has_edge(
            es,
            other,
            id,
            kind,
        ),
{
    let ins = edges_in(es, id);
    let some = of_kind(ins, kind);
    if sources(some).contains(other) {
        let i = choose|i: int| 0 <= i < sources(some).len() && sources(some)[i] == other;
        let e = some[i];
        assert(some.contains(e));
        lemma_filter_has(ins, |e: EdgeView| e.kind == kind, e);
        lemma_filter_has(es, |e: EdgeView| e.to == id, e);
        let k = choose|k: int| 0 <= k < es.len() && es[k] == e;
        assert(es[k].to == id);
    }
    if has_edge(es, other, id, kind) {
        let k = choose|k: int|
            0 <= k < es.len() && (#[trigger] es[k]).from == other && es[k].to == id && es[k].kind
                == kind;
        assert(es.contains(es[k]));
        lemma_filter_has(es, |e: EdgeView| e.to == id, es[k]);
        lemma_filter_has(ins, |e: EdgeView| e.kind == kind, es[k]);
        let i = choose|i: int| 0 <= i < some.len() && some[i] == es[k];
        assert(sources(some)[i] == other);
    }
}

/// The metadata of an entity lists its neighbours by what connects them: those
/// that call it and that it calls, what it contains, what it uses and what uses
/// it, what it implements and what implements it. The row of the index lists the
/// calls the same way.
pub proof fn law_neighbors_listed(
    es: Seq<EdgeView>,
    a: AtomView,
    other: Seq<char>,
    with: Seq<Seq<char>>,
)
    ensures
        ({
            let e = artifact_of(es, a);
            let row = row_of(e, with);
            &&& e.meta.callers.contains(other) <==> has_edge(es, other, a.id, EdgeKind::Calls)
            &&& e.meta.callees.contains(other) <==> has_edge(es, a.id, other, EdgeKind::Calls)
            &&& e.meta.children.contains(other) <==> has_edge(es, a.id, other, EdgeKind::Contains)
            &&& e.meta.imports.contains(other) <==> has_edge(es, a.id, other, EdgeKind::Uses)
            &&& e.meta.imported_by.contains(other) <==> has_edge(es, other, a.id, EdgeKind::Uses)
            &&& e.meta.implements.contains(other) <==> has_edge(
                es,
                a.id,
                other,
                EdgeKind::Implements,
            )
            &&& e.meta.implemented_by.contains(other) <==> has_edge(
                es,
                other,
                a.id,
                EdgeKind::Implements,
            )
            &&& row.edges_out.contains(other) <==> has_edge(es, a.id, other, EdgeKind::Calls)
            &&& row.edges_in.contains(other) <==> has_edge(es, other, a.id, EdgeKind::Calls)
        }),
{
    lemma_sources(es, a.id, EdgeKind::Calls, other);
    lemma_targets(es, a.id, EdgeKind::Calls, other);
    lemma_targets(es, a.id, EdgeKind::Contains, other);
    lemma_targets(es, a.id, EdgeKind::Uses, other);
    lemma_sources(es, a.id, EdgeKind::Uses, other);
    lemma_targets(es, a.id, EdgeKind::Implements, other);
    lemma_sources(es, a.id, EdgeKind::Implements, other);
}

/// One entity is among the callers of another exactly where the other is among
/// its callees.
pub proof fn law_calls_mutual(es: Seq<EdgeView>, a: AtomView, b: AtomView)
    ensures
        artifact_of(es, a).meta.callees.contains(b.id) <==> artifact_of(
            es,
            b,
        ).meta.callers.contains(a.id),
{
    law_neighbors_listed(es, a, b.id, Seq::empty());
    law_neighbors_listed(es, b, a.id, Seq::empty());
}

/// Each atom of a store has artifacts, and each artifact is that of an atom of
/// the store, with its id, its name, its kind, its file, its lines and its texts.
pub proof fn law_all_emitted(s: StoreView, atoms: Seq<AtomView>)
    requires
        s.wf(),
        lists_all(s.atoms, atoms),
    ensures
        ({
            let all = artifacts_of(s.edges, atoms);
            &&& forall|id: Seq<char>| #[trigger]
                s.atoms.contains_key(id) <==> exists|i: int|
                    0 <= i < all.len() && (#[trigger] all[i]).id == id
            &&& forall|i: int|
                0 <= i < all.len() ==> s.atoms.contains_key((#[trigger] all[i]).id) && ({
                    let a = s.atoms[all[i].id];
                    &&& all[i].meta.id == a.id
                    &&& all[i].meta.kind == a.kind
                    &&& all[i].meta.name == a.name
                    &&& all[i].meta.file == a.file_path
                    &&& all[i].meta.line_start == a.line_start
                    &&& all[i].meta.line_end == a.line_end
                    &&& all[i].meta.signature == a.signature
                    &&& all[i].meta.doc == a.doc
                    &&& all[i].meta.content_hash == a.content_hash
                })
        }),
{
    let all = artifacts_of(s.edges, atoms);
    law_listing_complete(s, atoms);
    assert forall|id: Seq<char>| #[trigger] s.atoms.contains_key(id) <==> exists|i: int|
        0 <= i < all.len() && (#[trigger] all[i]).id == id by {
        if s.atoms.contains_key(id) {
            let i = choose|i: int| 0 <= i < atoms.len() && (#[trigger] atoms[i]).id == id;
            assert(all[i].id == id);
        }
        if exists|i: int| 0 <= i < all.len() && (#[trigger] all[i]).id == id {
            let i = choose|i: int| 0 <= i < all.len() && (#[trigger] all[i]).id == id;
            assert(atoms[i].id == id);
        }
    }
    assert forall|i: int| 0 <= i < all.len() implies s.atoms.contains_key((#[trigger] all[i]).id)
        && s.atoms[all[i].id] == atoms[i] by {
        assert(atoms[i].id == all[i].id);
    }
}

// ── Diagrams ─────────────────────────────────────────────────────────────────

/// The line of a call from an entity to another.
pub open spec fn callee_row(id: Seq<char>, other: Seq<char>) -> Seq<char> {
    "  "@ + short_id(id) + " -- calls --> "@ + short_id(other) + ":::function["@ + escaped(
        last_segment(other),
    ) + "]"@
}

/// The line of a call of an entity from another.
pub open spec fn caller_row(id: Seq<char>, other: Seq<char>) -> Seq<char> {
    "  "@ + short_id(other) + ":::function["@ + escaped(last_segment(other)) + "] -- calls --> "@
        + short_id(id)
}

proof fn lemma_head_whole(a: AtomView)
    ensures
        whole(header(a) + center(a)),
{
    reveal_strlit("]\n");
    assert((header(a) + center(a)).last() == "]\n"@.last());
}

proof fn lemma_callee_line(id: Seq<char>, other: Seq<char>)
    ensures
        whole(callee_line(id)(other)),
        has_line(callee_line(id)(other), callee_row(id, other)),
{
    reveal_strlit("]\n");
    reveal_strlit("]");
    assert(callee_line(id)(other) =~= callee_row(id, other).push('\n'));
    lemma_one_row(callee_line(id)(other), callee_row(id, other));
}

proof fn lemma_caller_line(id: Seq<char>, other: Seq<char>)
    ensures
        whole(caller_line(id)(other)),
        has_line(caller_line(id)(other), caller_row(id, other)),
{
    reveal_strlit("\n");
    assert(caller_line(id)(other) =~= caller_row(id, other).push('\n'));
    lemma_one_row(caller_line(id)(other), caller_row(id, other));
}

/// The diagram of an entity has an arrow to each entity that it calls, and one
/// from each that calls it.
pub proof fn law_calls_drawn(es: Seq<EdgeView>, a: AtomView, other: Seq<char>)
    ensures
        has_edge(es, a.id, other, EdgeKind::Calls) ==> has_line(
            artifact_of(es, a).mmd,
            callee_row(a.id, other),
        ),
        has_edge(es, other, a.id, EdgeKind::Calls) ==> has_line(
            artifact_of(es, a).mmd,
            caller_row(a.id, other),
        ),
{
    let e = artifact_of(es, a);
    let outs = e.meta.callees;
    let ins = e.meta.callers;
    let f = callee_line(a.id);
    let g = caller_line(a.id);
    let head = header(a) + center(a);
    law_neighbors_listed(es, a, other, Seq::empty());
    lemma_head_whole(a);
    assert forall|v: Seq<char>| outs.contains(v) implies whole(#[trigger] f(v)) by {
        lemma_callee_line(a.id, v);
    }
    assert forall|v: Seq<char>| ins.contains(v) implies whole(#[trigger] g(v)) by {
        lemma_caller_line(a.id, v);
    }
    lemma_lines_whole(outs, f);
    lemma_whole_concat(head, lines(outs, f));
    if has_edge(es, a.id, other, EdgeKind::Calls) {
        lemma_callee_line(a.id, other);
        lemma_lines_has(outs, f, other, callee_row(a.id, other));
        lemma_line_back(head, lines(outs, f), callee_row(a.id, other));
        lemma_line_front(head + lines(outs, f), lines(ins, g), callee_row(a.id, other));
    }
    if has_edge(es, other, a.id, EdgeKind::Calls) {
        lemma_caller_line(a.id, other);
        lemma_lines_has(ins, g, other, caller_row(a.id, other));
        lemma_line_back(head + lines(outs, f), lines(ins, g), caller_row(a.id, other));
    }
}

/// The index has a row for each entity, in their order, with its id, name, file
/// and digest, and with the path of a sequence diagram exactly where the entity has
/// one.
pub proof fn law_index_rows(es: Seq<ArtifactView>, ss: Seq<(Seq<char>, Seq<char>)>, i: int)
    requires
        0 <= i < es.len(),
    ensures
        ({
            let rows = rows_of(es, drawn_ids(ss));
            &&& rows.len() == es.len()
            &&& rows[i].id == es[i].id
            &&& rows[i].kind == es[i].kind.text()
            &&& rows[i].name == es[i].meta.name
            &&& rows[i].file == es[i].meta.file
            &&& rows[i].content_hash == es[i].meta.content_hash
            &&& rows[i].sequence_path is Some <==> exists|k: int|
                0 <= k < ss.len() && (#[trigger] ss[k]).0 == es[i].id
        }),
{
    let ids = drawn_ids(ss);
    if ids.contains(es[i].id) {
        let k = choose|k: int| 0 <= k < ids.len() && ids[k] == es[i].id;
        assert(ss[k].0 == es[i].id);
    }
    if exists|k: int| 0 <= k < ss.len() && (#[trigger] ss[k]).0 == es[i].id {
        let k = choose|k: int| 0 <= k < ss.len() && (#[trigger] ss[k]).0 == es[i].id;
        assert(ids[k] == es[i].id);
    }
}

} // verus!
