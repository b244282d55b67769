//! Drawing the difference of two bundles as a Mermaid graph.

use super::drawn::drawing;
use super::{
    BundleDiff, ChangesView, EntityView, IndexEntity, ModifiedEntity, ModifiedView, RenamedEntity,
    RenamedView,
};
use crate::chars::{dec, push_decimal};
use crate::text::{append_strings, chars_of};
use vstd::hash_map::StringHashMap;
use vstd::prelude::*;
use vstd::string::*;

verus! {

// ── What is drawn ────────────────────────────────────────────────────────────

/// A label as it stands between quotes: with `'` for `"`.
pub open spec fn unquoted_label(label: Seq<char>) -> Seq<char> {
    label.map_values(
        |c: char|
            if c == '"' {
                '\''
            } else {
                c
            },
    )
}

/// The line of one node.
pub open spec fn node_line(i: nat, label: Seq<char>, class: Seq<char>) -> Seq<char> {
    "    n"@ + dec(i) + "[\""@ + unquoted_label(label) + "\"]:::"@ + class + "\n"@
}

/// The lines of nodes that are numbered from `start`.
pub open spec fn node_lines(labels: Seq<Seq<char>>, start: nat, class: Seq<char>) -> Seq<char>
    decreases labels.len(),
{
    if labels.len() == 0 {
        Seq::empty()
    } else {
        node_lines(labels.drop_last(), start, class) + node_line(
            (start + labels.len() - 1) as nat,
            labels.last(),
            class,
        )
    }
}

/// The nodes of one class under a line that counts them; nothing for none.
pub open spec fn class_section(labels: Seq<Seq<char>>, start: nat, class: Seq<char>) -> Seq<char> {
    if labels.len() == 0 {
        Seq::empty()
    } else {
        "    %% "@ + class + " ("@ + dec(labels.len()) + ")\n"@ + node_lines(labels, start, class)
    }
}

/// The ids of a list of entities.
pub open spec fn ids(es: Seq<EntityView>) -> Seq<Seq<char>> {
    es.map_values(|e: EntityView| e.id)
}

/// The label of a renamed entity.
pub open spec fn rename_label(r: RenamedView) -> Seq<char> {
    r.from_id + " ↪ "@ + r.to_id
}

/// The entity that each node stands for, in the order of the nodes.
pub open spec fn node_keys(d: ChangesView) -> Seq<Seq<char>> {
    ids(d.added) + ids(d.removed) + d.modified.map_values(|m: ModifiedView| m.id)
        + d.renamed.map_values(|r: RenamedView| r.to_id)
}

/// The last node that stands for an entity.
pub open spec fn node_of(keys: Seq<Seq<char>>, id: Seq<char>) -> Option<nat>
    decreases keys.len(),
{
    if keys.len() == 0 {
        None
    } else if keys.last() == id {
        Some((keys.len() - 1) as nat)
    } else {
        node_of(keys.drop_last(), id)
    }
}

/// The arrows from node `source` to those of `callees` that have a node.
pub open spec fn arrows_from(
    keys: Seq<Seq<char>>,
    source: nat,
    callees: Seq<Seq<char>>,
) -> Seq<(nat, nat)>
    decreases callees.len(),
{
    if callees.len() == 0 {
        Seq::empty()
    } else {
        let front = arrows_from(keys, source, callees.drop_last());
        match node_of(keys, callees.last()) {
            Some(target) => front.push((source, target)),
            None => front,
        }
    }
}

/// The arrows between entities that both have a node.
pub open spec fn arrows(keys: Seq<Seq<char>>, es: Seq<EntityView>) -> Seq<(nat, nat)>
    decreases es.len(),
{
    if es.len() == 0 {
        Seq::empty()
    } else {
        let front = arrows(keys, es.drop_last());
        match node_of(keys, es.last().id) {
            Some(source) => front + arrows_from(keys, source, es.last().edges_out),
            None => front,
        }
    }
}

/// The lines of a list of arrows.
pub open spec fn arrow_lines(list: Seq<(nat, nat)>) -> Seq<char>
    decreases list.len(),
{
    if list.len() == 0 {
        Seq::empty()
    } else {
        arrow_lines(list.drop_last()) + "    n"@ + dec(list.last().0) + " --> n"@ + dec(
            list.last().1,
        ) + "\n"@
    }
}

/// The arrows under a heading; nothing for none.
pub open spec fn arrow_section(list: Seq<(nat, nat)>) -> Seq<char> {
    if list.len() == 0 {
        Seq::empty()
    } else {
        "    %% blast-radius edges (both endpoints in changeset)\n"@ + arrow_lines(list)
    }
}

/// The lines before the nodes.
pub open spec fn heading(from: Seq<char>, to: Seq<char>) -> Seq<char> {
    "graph TD\n    %% diff: "@ + from + " → "@ + to
        + "\n    classDef added fill:#9f9,stroke:#0a0,color:#000\n    classDef removed fill:#f99,stroke:#a00,color:#000\n    classDef modified fill:#fb8,stroke:#d60,color:#000\n    classDef renamed fill:#9ff,stroke:#0aa,color:#000\n"@
}

/// The nodes of all classes.
pub open spec fn node_sections(d: ChangesView) -> Seq<char> {
    class_section(ids(d.added), 0, "added"@) + class_section(
        ids(d.removed),
        d.added.len(),
        "removed"@,
    ) + class_section(
        d.modified.map_values(|m: ModifiedView| m.id),
        d.added.len() + d.removed.len(),
        "modified"@,
    ) + class_section(
        d.renamed.map_values(|r: RenamedView| rename_label(r)),
        d.added.len() + d.removed.len() + d.modified.len(),
        "renamed"@,
    )
}

/// Arrows are drawn between changed entities only: both ends of each are nodes.
pub proof fn law_arrows_between_nodes(keys: Seq<Seq<char>>, es: Seq<EntityView>)
    ensures
        forall|k: int|
            0 <= k < arrows(keys, es).len() ==> (#[trigger] arrows(keys, es)[k]).0 < keys.len()
                && arrows(keys, es)[k].1 < keys.len(),
    decreases es.len(),
{
    if es.len() > 0 {
        law_arrows_between_nodes(keys, es.drop_last());
        let front = arrows(keys, es.drop_last());
        lemma_node_of(keys, es.last().id);
        if let Some(source) = node_of(keys, es.last().id) {
            let more = arrows_from(keys, source, es.last().edges_out);
            lemma_arrows_from(keys, source, es.last().edges_out);
            assert forall|k: int| 0 <= k < arrows(keys, es).len() implies (#[trigger] arrows(
                keys,
                es,
            )[k]).0 < keys.len() && arrows(keys, es)[k].1 < keys.len() by {
                if k < front.len() {
                    assert(arrows(keys, es)[k] == front[k]);
                } else {
                    assert(arrows(keys, es)[k] == more[k - front.len()]);
                }
            }
        }
    }
}

proof fn lemma_node_of(keys: Seq<Seq<char>>, id: Seq<char>)
    ensures
        node_of(keys, id) matches Some(n) ==> n < keys.len() && keys[n as int] == id,
    decreases keys.len(),
{
    if keys.len() > 0 && keys.last() != id {
        lemma_node_of(keys.drop_last(), id);
    }
}

proof fn lemma_arrows_from(keys: Seq<Seq<char>>, source: nat, callees: Seq<Seq<char>>)
    requires
        source < keys.len(),
    ensures
        forall|k: int|
            0 <= k < arrows_from(keys, source, callees).len() ==> (#[trigger] arrows_from(
                keys,
                source,
                callees,
            )[k]).0 < keys.len() && arrows_from(keys, source, callees)[k].1 < keys.len(),
    decreases callees.len(),
{
    if callees.len() > 0 {
        lemma_arrows_from(keys, source, callees.drop_last());
        lemma_node_of(keys, callees.last());
        let front = arrows_from(keys, source, callees.drop_last());
        let all = arrows_from(keys, source, callees);
        assert forall|k: int| 0 <= k < all.len() implies (#[trigger] all[k]).0 < keys.len()
            && all[k].1 < keys.len() by {
            if k < front.len() {
                assert(all[k] == front[k]);
            }
        }
    }
}

// ── Drawing ──────────────────────────────────────────────────────────────────

/// Appends a label as it stands between quotes.
fn push_label(out: &mut String, label: &str)
    ensures
        final(out)@ == old(out)@ + unquoted_label(label@),
{
    let ghost had = out@;
    let cs = chars_of(label);
    let mut i: usize = 0;
    while i < cs.len()
        invariant
            i <= cs.len(),
            cs@ == label@,
            out@ == had + unquoted_label(label@).take(i as int),
        decreases cs.len() - i,
    {
        if cs[i] == '"' {
            out.push('\'');
        } else {
            out.push(cs[i]);
        }
        assert(unquoted_label(label@).take(i + 1) =~= unquoted_label(label@).take(i as int).push(
            unquoted_label(label@)[i as int],
        ));
        i += 1;
        assert(out@ =~= had + unquoted_label(label@).take(i as int));
    }
    assert(unquoted_label(label@).take(cs.len() as int) =~= unquoted_label(label@));
}

/// Appends the nodes of one class, numbered from `start`.
fn push_section(out: &mut String, labels: &Vec<String>, start: u64, class: &str)
    requires
        start + labels.len() <= u64::MAX,
    ensures
        final(out)@ == old(out)@ + class_section(labels.deep_view(), start as nat, class@),
{
    let ghost had = out@;
    let ghost ls = labels.deep_view();
    if labels.len() == 0 {
        assert(out@ =~= had + Seq::<char>::empty());
        return;
    }
    out.append("    %% ");
    out.append(class);
    out.append(" (");
    push_decimal(out, labels.len() as u64);
    out.append(")\n");
    let ghost top = out@;
    assert(top =~= had + ("    %% "@ + class@ + " ("@ + dec(ls.len()) + ")\n"@));
    let mut i: usize = 0;
    assert(ls.take(0) =~= Seq::<Seq<char>>::empty());
    assert(out@ =~= top + Seq::<char>::empty());
    while i < labels.len()
        invariant
            i <= labels.len(),
            start + labels.len() <= u64::MAX,
            ls == labels.deep_view(),
            out@ == top + node_lines(ls.take(i as int), start as nat, class@),
        decreases labels.len() - i,
    {
        let ghost before = out@;
        assert(ls[i as int] == labels[i as int]@);
        assert(ls.take(i + 1).drop_last() =~= ls.take(i as int));
        assert(ls.take(i + 1).last() == ls[i as int]);
        out.append("    n");
        push_decimal(out, start + i as u64);
        out.append("[\"");
        push_label(out, labels[i].as_str());
        out.append("\"]:::");
        out.append(class);
        out.append("\n");
        assert(out@ =~= before + node_line((start + i) as nat, ls[i as int], class@));
        assert(node_lines(ls.take(i + 1), start as nat, class@) == node_lines(
            ls.take(i as int),
            start as nat,
            class@,
        ) + node_line((start + i) as nat, ls[i as int], class@));
        i += 1;
        assert(out@ =~= top + node_lines(ls.take(i as int), start as nat, class@));
    }
    assert(ls.take(labels.len() as int) =~= ls);
    assert(out@ =~= had + class_section(ls, start as nat, class@));
}

/// The last node of each entity.
fn index_nodes(keys: &Vec<String>) -> (r: StringHashMap<usize>)
    ensures
        forall|id: Seq<char>| #[trigger]
            r@.contains_key(id) <==> node_of(keys.deep_view(), id) is Some,
        forall|id: Seq<char>| #[trigger]
            r@.contains_key(id) ==> node_of(keys.deep_view(), id) == Some(r@[id] as nat),
{
    let ghost ks = keys.deep_view();
    let mut out: StringHashMap<usize> = StringHashMap::new();
    let mut i: usize = 0;
    assert(ks.take(0) =~= Seq::<Seq<char>>::empty());
    while i < keys.len()
        invariant
            i <= keys.len(),
            ks == keys.deep_view(),
            forall|id: Seq<char>| #[trigger]
                out@.contains_key(id) <==> node_of(ks.take(i as int), id) is Some,
            forall|id: Seq<char>| #[trigger]
                out@.contains_key(id) ==> node_of(ks.take(i as int), id) == Some(out@[id] as nat),
        decreases keys.len() - i,
    {
        assert(ks[i as int] == keys[i as int]@);
        assert(ks.take(i + 1).drop_last() =~= ks.take(i as int));
        assert(ks.take(i + 1).last() == ks[i as int]);
        out.insert(keys[i].clone(), i);
        i += 1;
    }
    assert(ks.take(keys.len() as int) =~= ks);
    out
}

/// What a list of arrows between machine numbers stands for.
spec fn arrows_view(list: Seq<(usize, usize)>) -> Seq<(nat, nat)> {
    list.map_values(|a: (usize, usize)| (a.0 as nat, a.1 as nat))
}

/// The arrows between entities that both have a node.
fn collect_arrows(nodes: &StringHashMap<usize>, es: &[IndexEntity], keys: Ghost<Seq<Seq<char>>>) -> (r:
    Vec<(usize, usize)>)
    requires
        forall|id: Seq<char>| #[trigger]
            nodes@.contains_key(id) <==> node_of(keys@, id) is Some,
        forall|id: Seq<char>| #[trigger]
            nodes@.contains_key(id) ==> node_of(keys@, id) == Some(nodes@[id] as nat),
    ensures
        arrows_view(r@) == arrows(keys@, es.deep_view()),
{
    let ghost v = es.deep_view();
    let mut out: Vec<(usize, usize)> = Vec::new();
    let mut i: usize = 0;
    assert(v.take(0) =~= Seq::<EntityView>::empty());
    assert(arrows_view(out@) =~= Seq::<(nat, nat)>::empty());
    while i < es.len()
        invariant
            i <= es.len(),
            v == es.deep_view(),
            forall|id: Seq<char>| #[trigger]
                nodes@.contains_key(id) <==> node_of(keys@, id) is Some,
            forall|id: Seq<char>| #[trigger]
                nodes@.contains_key(id) ==> node_of(keys@, id) == Some(nodes@[id] as nat),
            arrows_view(out@) == arrows(keys@, v.take(i as int)),
        decreases es.len() - i,
    {
        let ghost had = arrows_view(out@);
        assert(v[i as int] == es[i as int].deep_view());
        assert(v.take(i + 1).drop_last() =~= v.take(i as int));
        assert(v.take(i + 1).last() == v[i as int]);
        assert(nodes@.contains_key(v[i as int].id) <==> node_of(keys@, v[i as int].id) is Some);
        let source: Option<usize> = match nodes.get(es[i].id.as_str()) {
            Some(n) => Some(*n),
            None => None,
        };
        if let Some(source) = source {
            let callees = &es[i].edges_out;
            let ghost cs = callees.deep_view();
            let mut j: usize = 0;
            assert(cs.take(0) =~= Seq::<Seq<char>>::empty());
            assert(had =~= had + Seq::<(nat, nat)>::empty());
            while j < callees.len()
                invariant
                    j <= callees.len(),
                    cs == callees.deep_view(),
                    forall|id: Seq<char>| #[trigger]
                        nodes@.contains_key(id) <==> node_of(keys@, id) is Some,
                    forall|id: Seq<char>| #[trigger]
                        nodes@.contains_key(id) ==> node_of(keys@, id) == Some(nodes@[id] as nat),
                    arrows_view(out@) == had + arrows_from(
                        keys@,
                        source as nat,
                        cs.take(j as int),
                    ),
                decreases callees.len() - j,
            {
                let ghost before = arrows_view(out@);
                assert(cs[j as int] == callees[j as int]@);
                assert(cs.take(j + 1).drop_last() =~= cs.take(j as int));
                assert(cs.take(j + 1).last() == cs[j as int]);
                assert(nodes@.contains_key(cs[j as int]) <==> node_of(keys@, cs[j as int]) is Some);
                if let Some(target) = nodes.get(callees[j].as_str()) {
                    out.push((source, *target));
                    assert(arrows_view(out@) =~= before.push((source as nat, *target as nat)));
                }
                j += 1;
                assert(arrows_view(out@) =~= had + arrows_from(
                    keys@,
                    source as nat,
                    cs.take(j as int),
                ));
            }
            assert(cs.take(callees.len() as int) =~= cs);
        }
        i += 1;
    }
    assert(v.take(es.len() as int) =~= v);
    out
}

/// Appends the arrows under their heading.
fn push_arrows(out: &mut String, list: &Vec<(usize, usize)>)
    ensures
        final(out)@ == old(out)@ + arrow_section(arrows_view(list@)),
{
    let ghost had = out@;
    let ghost v = arrows_view(list@);
    if list.len() == 0 {
        assert(out@ =~= had + Seq::<char>::empty());
        return;
    }
    out.append("    %% blast-radius edges (both endpoints in changeset)\n");
    let ghost top = out@;
    let mut i: usize = 0;
    assert(v.take(0) =~= Seq::<(nat, nat)>::empty());
    assert(out@ =~= top + Seq::<char>::empty());
    while i < list.len()
        invariant
            i <= list.len(),
            v == arrows_view(list@),
            out@ == top + arrow_lines(v.take(i as int)),
        decreases list.len() - i,
    {
        let ghost before = out@;
        assert(v.take(i + 1).drop_last() =~= v.take(i as int));
        assert(v.take(i + 1).last() == v[i as int]);
        out.append("    n");
        push_decimal(out, list[i].0 as u64);
        out.append(" --> n");
        push_decimal(out, list[i].1 as u64);
        out.append("\n");
        i += 1;
        assert(out@ =~= top + arrow_lines(v.take(i as int)));
    }
    assert(v.take(list.len() as int) =~= v);
    assert(out@ =~= had + arrow_section(v));
}

/// The ids of a list of entities.
fn entity_ids(es: &Vec<IndexEntity>) -> (r: Vec<String>)
    ensures
        r.deep_view() == ids(es.deep_view()),
{
    let mut out: Vec<String> = Vec::new();
    let mut i: usize = 0;
    while i < es.len()
        invariant
            i <= es.len(),
            out.deep_view() == ids(es.deep_view()).take(i as int),
        decreases es.len() - i,
    {
        let ghost had = out.deep_view();
        out.push(es[i].id.clone());
        assert(out.deep_view() =~= had.push(es[i as int].id@));
        i += 1;
        assert(out.deep_view() =~= ids(es.deep_view()).take(i as int));
    }
    assert(ids(es.deep_view()).take(es.len() as int) =~= ids(es.deep_view()));
    out
}

/// The ids of the modified entities.
fn modified_ids(ms: &Vec<ModifiedEntity>) -> (r: Vec<String>)
    ensures
        r.deep_view() == ms.deep_view().map_values(|m: ModifiedView| m.id),
{
    let ghost want = ms.deep_view().map_values(|m: ModifiedView| m.id);
    let mut out: Vec<String> = Vec::new();
    let mut i: usize = 0;
    while i < ms.len()
        invariant
            i <= ms.len(),
            want == ms.deep_view().map_values(|m: ModifiedView| m.id),
            out.deep_view() == want.take(i as int),
        decreases ms.len() - i,
    {
        let ghost had = out.deep_view();
        out.push(ms[i].id.clone());
        assert(out.deep_view() =~= had.push(ms[i as int].id@));
        i += 1;
        assert(out.deep_view() =~= want.take(i as int));
    }
    assert(want.take(ms.len() as int) =~= want);
    out
}

/// The labels and the new ids of the renamed entities.
fn renamed_parts(rs: &Vec<RenamedEntity>) -> (r: (Vec<String>, Vec<String>))
    ensures
        r.0.deep_view() == rs.deep_view().map_values(|x: RenamedView| rename_label(x)),
        r.1.deep_view() == rs.deep_view().map_values(|x: RenamedView| x.to_id),
{
    let ghost labels_want = rs.deep_view().map_values(|x: RenamedView| rename_label(x));
    let ghost ids_want = rs.deep_view().map_values(|x: RenamedView| x.to_id);
    let mut labels: Vec<String> = Vec::new();
    let mut to_ids: Vec<String> = Vec::new();
    let mut i: usize = 0;
    while i < rs.len()
        invariant
            i <= rs.len(),
            labels_want == rs.deep_view().map_values(|x: RenamedView| rename_label(x)),
            ids_want == rs.deep_view().map_values(|x: RenamedView| x.to_id),
            labels.deep_view() == labels_want.take(i as int),
            to_ids.deep_view() == ids_want.take(i as int),
        decreases rs.len() - i,
    {
        let ghost had = labels.deep_view();
        let ghost had_ids = to_ids.deep_view();
        let label = rs[i].from_id.clone().concat(" ↪ ").concat(rs[i].to_id.as_str());
        assert(label@ =~= rename_label(rs.deep_view()[i as int]));
        labels.push(label);
        to_ids.push(rs[i].to_id.clone());
        assert(labels.deep_view() =~= had.push(rename_label(rs.deep_view()[i as int])));
        assert(to_ids.deep_view() =~= had_ids.push(rs[i as int].to_id@));
        i += 1;
        assert(labels.deep_view() =~= labels_want.take(i as int));
        assert(to_ids.deep_view() =~= ids_want.take(i as int));
    }
    assert(labels_want.take(rs.len() as int) =~= labels_want);
    assert(ids_want.take(rs.len() as int) =~= ids_want);
    (labels, to_ids)
}

/// Appends the heading.
fn push_heading(out: &mut String, from: &str, to: &str)
    ensures
        final(out)@ == old(out)@ + heading(from@, to@),
{
    let ghost had = out@;
    out.append("graph TD\n    %% diff: ");
    out.append(from);
    out.append(" → ");
    out.append(to);
    out.append(
        "\n    classDef added fill:#9f9,stroke:#0a0,color:#000\n    classDef removed fill:#f99,stroke:#a00,color:#000\n    classDef modified fill:#fb8,stroke:#d60,color:#000\n    classDef renamed fill:#9ff,stroke:#0aa,color:#000\n",
    );
    assert(out@ =~= had + heading(from@, to@));
}

proof fn lemma_four_parts(
    top: Seq<char>,
    a: Seq<char>,
    b: Seq<char>,
    c: Seq<char>,
    d: Seq<char>,
)
    ensures
        top + a + b + c + d == top + (a + b + c + d),
{
    assert(top + a + b + c + d =~= top + (a + b + c + d));
}

/// Appends the nodes, and gives the ids that they stand for.
fn push_nodes(out: &mut String, diff: &BundleDiff) -> (r: Vec<String>)
    requires
        diff.added.len() + diff.removed.len() + diff.modified.len() + diff.renamed.len()
            <= usize::MAX,
    ensures
        final(out)@ == old(out)@ + node_sections(diff.changes()),
        r.deep_view() == node_keys(diff.changes()),
{
    let ghost d = diff.changes();
    let ghost top = out@;
    let added = entity_ids(&diff.added);
    let removed = entity_ids(&diff.removed);
    let modified = modified_ids(&diff.modified);
    let (renames, renamed) = renamed_parts(&diff.renamed);
    assert(added.len() == added.deep_view().len() && removed.len() == removed.deep_view().len()
        && modified.len() == modified.deep_view().len() && renames.len()
        == renames.deep_view().len() && renamed.len() == renamed.deep_view().len());
    let after_added: usize = added.len();
    let after_removed: usize = after_added + removed.len();
    let after_modified: usize = after_removed + modified.len();
    push_section(out, &added, 0, "added");
    push_section(out, &removed, after_added as u64, "removed");
    push_section(out, &modified, after_removed as u64, "modified");
    push_section(out, &renames, after_modified as u64, "renamed");
    proof {
        lemma_four_parts(
            top,
            class_section(ids(d.added), 0, "added"@),
            class_section(ids(d.removed), after_added as nat, "removed"@),
            class_section(
                d.modified.map_values(|m: ModifiedView| m.id),
                after_removed as nat,
                "modified"@,
            ),
            class_section(
                d.renamed.map_values(|r: RenamedView| rename_label(r)),
                after_modified as nat,
                "renamed"@,
            ),
        );
    }
    let mut keys = added;
    append_strings(&mut keys, &removed);
    append_strings(&mut keys, &modified);
    append_strings(&mut keys, &renamed);
    keys
}

/// Draws a difference: one node for each changed entity, coloured by the kind
/// of the change, and an arrow for each edge of `to_entities` between two of
/// them.
pub fn render_mermaid(diff: &BundleDiff, to_entities: &[IndexEntity]) -> (r: String)
    requires
        diff.added.len() + diff.removed.len() + diff.modified.len() + diff.renamed.len()
            <= usize::MAX,
    ensures
        r@ == heading(diff.from@, diff.to@) + node_sections(diff.changes()) + arrow_section(
            arrows(node_keys(diff.changes()), to_entities.deep_view()),
        ),
        r@ == drawing(diff.from@, diff.to@, diff.changes(), to_entities.deep_view()),
{
    let ghost d = diff.changes();
    let mut out = String::new();
    push_heading(&mut out, diff.from.as_str(), diff.to.as_str());
    assert(out@ =~= heading(diff.from@, diff.to@));
    let keys = push_nodes(&mut out, diff);
    let nodes = index_nodes(&keys);
    let list = collect_arrows(&nodes, to_entities, Ghost(node_keys(d)));
    push_arrows(&mut out, &list);
    out
}

} // verus!
