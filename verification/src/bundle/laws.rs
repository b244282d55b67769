//! What the artifacts of a bundle say of a catalog.

use crate::bundle::entities::{
    by_kind, entity_ids, entries_of, entry_of, file_comment, incoming_line, line_or_zero,
    outgoing_line, record_of, records_of, text_or_empty,
};
use crate::graph::catalog::{
    distinct_ids, law_neighbors, law_node, neighbors_of, related, AtomEntry, CatalogView, Direction,
};
use crate::keys::{law_sorted_keys, lemma_push_contains, sorted_keys};
use crate::render::lines::lines;
use crate::render::rows::{
    has_line, lemma_line_back, lemma_line_front, lemma_lines_has, lemma_lines_whole, lemma_one_row,
    lemma_whole_concat, whole,
};
use crate::render::util::{escaped, id_text};
use vstd::prelude::*;

verus! {

proof fn lemma_by_kind(ns: Seq<(Seq<char>, Seq<char>)>, kind: Seq<char>, other: Seq<char>)
    ensures
        by_kind(ns, kind).contains(other) <==> ns.contains((other, kind)),
    decreases ns.len(),
{
    if ns.len() > 0 {
        let front = ns.drop_last();
        lemma_by_kind(front, kind, other);
        lemma_push_contains(by_kind(front, kind), ns.last().0);
        lemma_push_contains(front, ns.last());
        assert(front.push(ns.last()) =~= ns);
    }
}

/// The artifacts of an entity list its neighbours by what connects them: who
/// calls it, what it calls and what it contains. The row of the index lists each
/// relation from and to the entity with its kind.
pub proof fn law_record_neighbors(
    c: CatalogView,
    a: AtomEntry,
    other: Seq<char>,
    kind: Seq<char>,
)
    ensures
        record_of(c, a).meta.callers.contains(other) <==> related(
            c.relations,
            other,
            a.id,
            "calls"@,
        ),
        record_of(c, a).meta.callees.contains(other) <==> related(
            c.relations,
            a.id,
            other,
            "calls"@,
        ),
        record_of(c, a).meta.children.contains(other) <==> related(
            c.relations,
            a.id,
            other,
            "contains"@,
        ),
        entry_of(c, a).edges_out.contains((other, kind)) <==> related(
            c.relations,
            a.id,
            other,
            kind,
        ),
        entry_of(c, a).edges_in.contains((other, kind)) <==> related(
            c.relations,
            other,
            a.id,
            kind,
        ),
{
    let outs = neighbors_of(c.relations, a.id, Direction::Outgoing);
    let ins = neighbors_of(c.relations, a.id, Direction::Incoming);
    lemma_by_kind(ins, "calls"@, other);
    lemma_by_kind(outs, "calls"@, other);
    lemma_by_kind(outs, "contains"@, other);
    law_neighbors(c.relations, a.id, other, "calls"@);
    law_neighbors(c.relations, a.id, other, "contains"@);
    law_neighbors(c.relations, a.id, other, kind);
}

/// Whether an atom has artifacts: modules, functions and types do.
pub open spec fn has_artifacts(a: AtomEntry) -> bool {
    a.kind == "module"@ || a.kind == "function"@ || a.kind == "struct"@ || a.kind == "trait"@
        || a.kind == "impl"@ || a.kind == "enum"@
}

proof fn lemma_entity_ids(atoms: Seq<AtomEntry>, id: Seq<char>)
    ensures
        entity_ids(atoms).contains(id) <==> exists|i: int|
            0 <= i < atoms.len() && (#[trigger] atoms[i]).id == id && has_artifacts(atoms[i]),
    decreases atoms.len(),
{
    if atoms.len() > 0 {
        let front = atoms.drop_last();
        let last = atoms[atoms.len() - 1];
        lemma_entity_ids(front, id);
        lemma_push_contains(entity_ids(front), last.id);
        if exists|i: int|
            0 <= i < front.len() && (#[trigger] front[i]).id == id && has_artifacts(front[i]) {
            let i = choose|i: int|
                0 <= i < front.len() && (#[trigger] front[i]).id == id && has_artifacts(front[i]);
            assert(atoms[i] == front[i]);
        }
        if exists|i: int|
            0 <= i < atoms.len() && (#[trigger] atoms[i]).id == id && has_artifacts(atoms[i]) {
            let i = choose|i: int|
                0 <= i < atoms.len() && (#[trigger] atoms[i]).id == id && has_artifacts(atoms[i]);
            if i < front.len() {
                assert(front[i] == atoms[i]);
            }
        }
    }
}

/// Each module, function and type of a catalog has artifacts and a row, with its
/// id, its kind, its name, its file, its lines and its texts.
pub proof fn law_all_collected(c: CatalogView, i: int)
    requires
        distinct_ids(c.atoms),
        0 <= i < c.atoms.len(),
        has_artifacts(c.atoms[i]),
    ensures
        ({
            let ids = sorted_keys::<String>(entity_ids(c.atoms));
            let a = c.atoms[i];
            exists|k: int|
                0 <= k < ids.len() && (#[trigger] records_of(c, ids)[k]) == record_of(c, a)
                    && entries_of(c, ids)[k] == entry_of(c, a)
        }),
{
    let ids = sorted_keys::<String>(entity_ids(c.atoms));
    let a = c.atoms[i];
    lemma_entity_ids(c.atoms, a.id);
    law_sorted_keys::<String>(entity_ids(c.atoms));
    law_node(c.atoms, a.id);
    assert(entity_ids(c.atoms).contains(a.id) <==> ids.contains(a.id));
    let k = choose|k: int| 0 <= k < ids.len() && ids[k] == a.id;
    assert(records_of(c, ids)[k] == record_of(c, a));
}

/// Each artifact of a catalog is that of one of its modules, functions or types.
pub proof fn law_collected_only(c: CatalogView, k: int)
    requires
        distinct_ids(c.atoms),
        0 <= k < sorted_keys::<String>(entity_ids(c.atoms)).len(),
    ensures
        ({
            let r = records_of(c, sorted_keys::<String>(entity_ids(c.atoms)))[k];
            exists|i: int|
                0 <= i < c.atoms.len() && has_artifacts(#[trigger] c.atoms[i]) && ({
                    let a = c.atoms[i];
                    &&& r.id == a.id
                    &&& r.meta.id == a.id
                    &&& r.meta.kind == a.kind
                    &&& r.meta.name == a.name
                    &&& r.meta.content_hash == a.content_hash
                    &&& a.file_path is Some ==> r.meta.file == a.file_path->0
                    &&& a.line_start is Some ==> r.meta.line_start == a.line_start->0
                    &&& a.line_end is Some ==> r.meta.line_end == a.line_end->0
                    &&& a.signature is Some ==> r.meta.signature == a.signature->0
                    &&& a.doc is Some ==> r.meta.doc == a.doc->0
                })
        }),
{
    let ids = sorted_keys::<String>(entity_ids(c.atoms));
    law_sorted_keys::<String>(entity_ids(c.atoms));
    assert(ids.contains(ids[k]));
    assert(entity_ids(c.atoms).contains(ids[k]));
    lemma_entity_ids(c.atoms, ids[k]);
    let i = choose|i: int|
        0 <= i < c.atoms.len() && (#[trigger] c.atoms[i]).id == ids[k] && has_artifacts(c.atoms[i]);
    law_node(c.atoms, ids[k]);
    assert(has_artifacts(c.atoms[i]));
}

// ── Diagrams ─────────────────────────────────────────────────────────────────

/// The line of a relation from another entity.
pub open spec fn incoming_row(other: Seq<char>, kind: Seq<char>, name: Seq<char>) -> Seq<char> {
    "    "@ + id_text(other) + "[\""@ + escaped(other) + "\"] -->|\""@ + kind + "\"| "@ + id_text(
        name,
    )
}

/// The line of a relation to another entity.
pub open spec fn outgoing_row(name: Seq<char>, kind: Seq<char>, other: Seq<char>) -> Seq<char> {
    "    "@ + id_text(name) + " -->|\""@ + kind + "\"| "@ + id_text(other) + "[\""@ + escaped(other)
        + "\"]"@
}

proof fn lemma_incoming(name: Seq<char>, n: (Seq<char>, Seq<char>))
    ensures
        whole(incoming_line(name)(n)),
        has_line(incoming_line(name)(n), incoming_row(n.0, n.1, name)),
{
    reveal_strlit("\n");
    assert(incoming_line(name)(n) =~= incoming_row(n.0, n.1, name).push('\n'));
    lemma_one_row(incoming_line(name)(n), incoming_row(n.0, n.1, name));
}

proof fn lemma_outgoing(name: Seq<char>, n: (Seq<char>, Seq<char>))
    ensures
        whole(outgoing_line(name)(n)),
        has_line(outgoing_line(name)(n), outgoing_row(name, n.1, n.0)),
{
    reveal_strlit("\"]\n");
    reveal_strlit("\"]");
    assert(outgoing_line(name)(n) =~= outgoing_row(name, n.1, n.0).push('\n'));
    lemma_one_row(outgoing_line(name)(n), outgoing_row(name, n.1, n.0));
}

/// The diagram of an entity has an arrow for each of its relations: to the
/// entity from where a relation starts that ends there, and from it to where one
/// ends that starts there.
pub proof fn law_relations_drawn(
    c: CatalogView,
    a: AtomEntry,
    other: Seq<char>,
    kind: Seq<char>,
)
    ensures
        related(c.relations, other, a.id, kind) ==> has_line(
            record_of(c, a).mmd,
            incoming_row(other, kind, a.name),
        ),
        related(c.relations, a.id, other, kind) ==> has_line(
            record_of(c, a).mmd,
            outgoing_row(a.name, kind, other),
        ),
{
    let outs = neighbors_of(c.relations, a.id, Direction::Outgoing);
    let ins = neighbors_of(c.relations, a.id, Direction::Incoming);
    let f = incoming_line(a.name);
    let g = outgoing_line(a.name);
    let head = "%% id: "@ + a.id + "\n%% kind: "@ + a.kind + "\n"@ + file_comment(
        text_or_empty(a.file_path),
        line_or_zero(a.line_start),
        line_or_zero(a.line_end),
    ) + "graph TD\n    "@ + id_text(a.name) + "[\""@ + escaped(a.name) + "\"]\n"@;
    reveal_strlit("\"]\n");
    assert(head.last() == "\"]\n"@.last());
    assert(record_of(c, a).mmd == head + lines(ins, f) + lines(outs, g));
    law_neighbors(c.relations, a.id, other, kind);
    assert forall|n: (Seq<char>, Seq<char>)| ins.contains(n) implies whole(#[trigger] f(n)) by {
        lemma_incoming(a.name, n);
    }
    assert forall|n: (Seq<char>, Seq<char>)| outs.contains(n) implies whole(#[trigger] g(n)) by {
        lemma_outgoing(a.name, n);
    }
    lemma_lines_whole(ins, f);
    lemma_whole_concat(head, lines(ins, f));
    let n = (other, kind);
    if related(c.relations, other, a.id, kind) {
        let row = incoming_row(other, kind, a.name);
        lemma_incoming(a.name, n);
        lemma_lines_has(ins, f, n, row);
        lemma_line_back(head, lines(ins, f), row);
        lemma_line_front(head + lines(ins, f), lines(outs, g), row);
    }
    if related(c.relations, a.id, other, kind) {
        let row = outgoing_row(a.name, kind, other);
        lemma_outgoing(a.name, n);
        lemma_lines_has(outs, g, n, row);
        lemma_line_back(head + lines(ins, f), lines(outs, g), row);
    }
}

} // verus!
