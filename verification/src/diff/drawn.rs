//! What the drawing of a difference shows, line by line.

use super::render::{
    arrow_lines, arrow_section, arrows, arrows_from, class_section, heading, ids, node_keys,
    node_line, node_lines, node_of, node_sections, rename_label, unquoted_label,
};
use super::{ChangesView, EntityView, ModifiedView, RenamedView};
use crate::chars::{dec, digit};
use crate::keys::lemma_push_contains;
use crate::render::laws::{lemma_contains_concat, lemma_flat_between, lemma_two_parts};
use crate::render::rows::{
    flat, has_line, lemma_flat_concat, lemma_no_row, lemma_one_row, lemma_whole_concat, whole,
};
use vstd::prelude::*;

verus! {

// ── Nodes ────────────────────────────────────────────────────────────────────

/// Whether a node stands for an entity. The nodes are numbered through the
/// added, the removed, the modified and the renamed entities; a renamed one goes
/// by its new id.
pub open spec fn stands_for(d: ChangesView, n: nat, id: Seq<char>) -> bool {
    let a = d.added.len();
    let r = a + d.removed.len();
    let m = r + d.modified.len();
    if n < a {
        d.added[n as int].id == id
    } else if n < r {
        d.removed[n - a].id == id
    } else if n < m {
        d.modified[n - r].id == id
    } else {
        n < m + d.renamed.len() && d.renamed[n - m].to_id == id
    }
}

/// Whether a node is the last one that stands for an entity.
pub open spec fn is_node_of(d: ChangesView, n: nat, id: Seq<char>) -> bool {
    stands_for(d, n, id) && forall|k: nat| k > n ==> !#[trigger] stands_for(d, k, id)
}

proof fn lemma_node_keys(d: ChangesView, n: nat, id: Seq<char>)
    ensures
        stands_for(d, n, id) <==> n < node_keys(d).len() && node_keys(d)[n as int] == id,
{
}

proof fn lemma_last_node(keys: Seq<Seq<char>>, id: Seq<char>, n: nat)
    ensures
        node_of(keys, id) == Some(n) <==> n < keys.len() && keys[n as int] == id && forall|k: nat|
            n < k < keys.len() ==> #[trigger] keys[k as int] != id,
    decreases keys.len(),
{
    if keys.len() > 0 {
        let front = keys.drop_last();
        let last = (keys.len() - 1) as nat;
        lemma_last_node(front, id, n);
        if keys.last() == id {
            assert(keys[last as int] == id);
            if n == last {
                assert forall|k: nat| n < k < keys.len() implies #[trigger] keys[k as int]
                    != id by {}
            }
        } else if node_of(keys, id) == Some(n) {
            assert forall|k: nat| n < k < keys.len() implies #[trigger] keys[k as int] != id by {
                if k < front.len() {
                    assert(front[k as int] == keys[k as int]);
                }
            }
        } else if n < keys.len() && keys[n as int] == id && forall|k: nat|
            n < k < keys.len() ==> #[trigger] keys[k as int] != id {
            assert(n < front.len());
            assert(front[n as int] == id);
            assert forall|k: nat| n < k < front.len() implies #[trigger] front[k as int] != id by {
                assert(keys[k as int] != id);
            }
        }
    }
}

proof fn lemma_is_node_of(d: ChangesView, n: nat, id: Seq<char>)
    ensures
        is_node_of(d, n, id) <==> node_of(node_keys(d), id) == Some(n),
{
    let keys = node_keys(d);
    lemma_last_node(keys, id, n);
    lemma_node_keys(d, n, id);
    if is_node_of(d, n, id) {
        assert forall|k: nat| n < k < keys.len() implies #[trigger] keys[k as int] != id by {
            lemma_node_keys(d, k, id);
            assert(!stands_for(d, k, id));
        }
    }
    if node_of(keys, id) == Some(n) {
        assert forall|k: nat| k > n implies !#[trigger] stands_for(d, k, id) by {
            lemma_node_keys(d, k, id);
            if k < keys.len() {
                assert(keys[k as int] != id);
            }
        }
    }
}

// ── Arrows ───────────────────────────────────────────────────────────────────

/// Whether an entity of node `i` lists an entity of node `j` among those that
/// it calls.
pub open spec fn calls_node(d: ChangesView, e: EntityView, i: nat, j: nat) -> bool {
    is_node_of(d, i, e.id) && exists|k: int|
        0 <= k < e.edges_out.len() && is_node_of(d, j, #[trigger] e.edges_out[k])
}

/// Whether one of the entities does.
pub open spec fn some_calls_node(
    d: ChangesView,
    es: Seq<EntityView>,
    i: nat,
    j: nat,
) -> bool {
    exists|q: int| 0 <= q < es.len() && calls_node(d, #[trigger] es[q], i, j)
}

proof fn lemma_arrows_from_has(
    d: ChangesView,
    source: nat,
    callees: Seq<Seq<char>>,
    i: nat,
    j: nat,
)
    ensures
        arrows_from(node_keys(d), source, callees).contains((i, j)) <==> i == source && exists|
            k: int,
        |
            0 <= k < callees.len() && is_node_of(d, j, #[trigger] callees[k]),
    decreases callees.len(),
{
    let keys = node_keys(d);
    if callees.len() > 0 {
        let front = callees.drop_last();
        let last = callees[callees.len() - 1];
        lemma_arrows_from_has(d, source, front, i, j);
        lemma_is_node_of(d, j, last);
        if let Some(target) = node_of(keys, last) {
            lemma_push_contains(arrows_from(keys, source, front), (source, target));
        }
        if exists|k: int| 0 <= k < front.len() && is_node_of(d, j, #[trigger] front[k]) {
            let k = choose|k: int| 0 <= k < front.len() && is_node_of(d, j, #[trigger] front[k]);
            assert(callees[k] == front[k]);
        }
        if exists|k: int| 0 <= k < callees.len() && is_node_of(d, j, #[trigger] callees[k]) {
            let k = choose|k: int|
                0 <= k < callees.len() && is_node_of(d, j, #[trigger] callees[k]);
            if k < front.len() {
                assert(front[k] == callees[k]);
            }
        }
    }
}

/// An arrow leads from one node to another exactly where an entity of the first
/// lists one of the second among those that it calls.
pub proof fn law_arrows(d: ChangesView, es: Seq<EntityView>, i: nat, j: nat)
    ensures
        arrows(node_keys(d), es).contains((i, j)) <==> some_calls_node(d, es, i, j),
    decreases es.len(),
{
    let keys = node_keys(d);
    if es.len() > 0 {
        let front = es.drop_last();
        let last = es[es.len() - 1];
        law_arrows(d, front, i, j);
        lemma_is_node_of(d, i, last.id);
        if let Some(source) = node_of(keys, last.id) {
            lemma_arrows_from_has(d, source, last.edges_out, i, j);
            lemma_contains_concat(
                arrows(keys, front),
                arrows_from(keys, source, last.edges_out),
                (i, j),
            );
        }
        if some_calls_node(d, front, i, j) {
            let q = choose|q: int| 0 <= q < front.len() && calls_node(d, #[trigger] front[q], i, j);
            assert(es[q] == front[q]);
        }
        if some_calls_node(d, es, i, j) {
            let q = choose|q: int| 0 <= q < es.len() && calls_node(d, #[trigger] es[q], i, j);
            if q < front.len() {
                assert(front[q] == es[q]);
            }
        }
    }
}

// ── Lines ────────────────────────────────────────────────────────────────────

/// What the drawing of a difference says.
pub open spec fn drawing(
    from: Seq<char>,
    to: Seq<char>,
    d: ChangesView,
    es: Seq<EntityView>,
) -> Seq<char> {
    heading(from, to) + node_sections(d) + arrow_section(arrows(node_keys(d), es))
}

/// The line of an arrow.
pub open spec fn arrow_row(i: nat, j: nat) -> Seq<char> {
    "    n"@ + dec(i) + " --> n"@ + dec(j)
}

/// The line of a node: its number, its label with `'` for `"`, and its class.
pub open spec fn node_row(n: nat, label: Seq<char>, class: Seq<char>) -> Seq<char> {
    "    n"@ + dec(n) + "[\""@ + unquoted_label(label) + "\"]:::"@ + class
}

pub(crate) proof fn lemma_flat_dec(n: nat)
    ensures
        flat(dec(n)),
    decreases n,
{
    if n >= 10 {
        lemma_flat_dec(n / 10);
        assert(dec(n) =~= dec(n / 10) + seq![digit(n % 10)]);
        lemma_flat_concat(dec(n / 10), seq![digit(n % 10)]);
    }
}

proof fn lemma_arrow_lines(list: Seq<(nat, nat)>, line: Seq<char>)
    ensures
        whole(arrow_lines(list)),
        (exists|p: (nat, nat)| #[trigger] list.contains(p) && line == arrow_row(p.0, p.1))
            ==> has_line(arrow_lines(list), line),
        flat(line) && has_line(arrow_lines(list), line) ==> exists|p: (nat, nat)| #[trigger]
            list.contains(p) && line == arrow_row(p.0, p.1),
    decreases list.len(),
{
    if list.len() == 0 {
        lemma_no_row(line);
    } else {
        let front = list.drop_last();
        let p = list[list.len() - 1];
        let row = arrow_row(p.0, p.1);
        let text = row.push('\n');
        lemma_arrow_lines(front, line);
        reveal_strlit("\n");
        reveal_strlit("    n");
        reveal_strlit(" --> n");
        assert(arrow_lines(list) =~= arrow_lines(front) + text);
        lemma_flat_dec(p.0);
        lemma_flat_dec(p.1);
        lemma_flat_between("    n"@, dec(p.0), " --> n"@, dec(p.1));
        lemma_one_row(text, row);
        lemma_whole_concat(arrow_lines(front), text);
        lemma_two_parts(arrow_lines(front), text, line);
        lemma_push_contains(front, p);
        assert(front.push(p) =~= list);
        assert(list.contains(p));
        if flat(line) && has_line(arrow_lines(front), line) {
            let q = choose|q: (nat, nat)| #[trigger]
                front.contains(q) && line == arrow_row(q.0, q.1);
            assert(front.push(p).contains(q));
        }
        if exists|q: (nat, nat)| #[trigger] list.contains(q) && line == arrow_row(q.0, q.1) {
            let q = choose|q: (nat, nat)| #[trigger]
                list.contains(q) && line == arrow_row(q.0, q.1);
            assert(front.push(p).contains(q));
        }
    }
}

proof fn lemma_arrow_section(list: Seq<(nat, nat)>, line: Seq<char>)
    ensures
        whole(arrow_section(list)),
        (exists|p: (nat, nat)| #[trigger] list.contains(p) && line == arrow_row(p.0, p.1))
            ==> has_line(arrow_section(list), line),
        flat(line) && has_line(arrow_section(list), line) ==> line
            == "    %% blast-radius edges (both endpoints in changeset)"@ || exists|
            p: (nat, nat),
        | #[trigger]
            list.contains(p) && line == arrow_row(p.0, p.1),
{
    if list.len() == 0 {
        lemma_no_row(line);
    } else {
        let head = "    %% blast-radius edges (both endpoints in changeset)\n"@;
        let row = "    %% blast-radius edges (both endpoints in changeset)"@;
        reveal_strlit("    %% blast-radius edges (both endpoints in changeset)\n");
        reveal_strlit("    %% blast-radius edges (both endpoints in changeset)");
        assert(head =~= row.push('\n'));
        assert(flat(row));
        lemma_one_row(head, row);
        lemma_arrow_lines(list, line);
        lemma_whole_concat(head, arrow_lines(list));
        lemma_two_parts(head, arrow_lines(list), line);
    }
}

proof fn lemma_flat_quotes(label: Seq<char>)
    requires
        flat(label),
    ensures
        flat(unquoted_label(label)),
{
    let u = unquoted_label(label);
    if u.contains('\n') {
        let i = choose|i: int| 0 <= i < u.len() && u[i] == '\n';
        assert(label[i] == '\n');
    }
}

proof fn lemma_node_line(n: nat, label: Seq<char>, class: Seq<char>)
    ensures
        whole(node_line(n, label, class)),
        has_line(node_line(n, label, class), node_row(n, label, class)),
        flat(label) && flat(class) ==> forall|line: Seq<char>|
            has_line(node_line(n, label, class), line) ==> line == node_row(n, label, class),
{
    reveal_strlit("    n");
    reveal_strlit("[\"");
    reveal_strlit("\"]:::");
    reveal_strlit("\n");
    let row = node_row(n, label, class);
    assert(node_line(n, label, class) =~= row.push('\n'));
    if flat(label) && flat(class) {
        lemma_flat_dec(n);
        lemma_flat_quotes(label);
        lemma_flat_concat("    n"@, dec(n));
        lemma_flat_between("    n"@ + dec(n), "[\""@, unquoted_label(label), "\"]:::"@);
        lemma_flat_concat("    n"@ + dec(n) + "[\""@ + unquoted_label(label) + "\"]:::"@, class);
    }
    lemma_one_row(node_line(n, label, class), row);
}

proof fn lemma_node_lines(
    labels: Seq<Seq<char>>,
    start: nat,
    class: Seq<char>,
    line: Seq<char>,
)
    ensures
        whole(node_lines(labels, start, class)),
        forall|i: int|
            0 <= i < labels.len() ==> has_line(
                node_lines(labels, start, class),
                #[trigger] node_row((start + i) as nat, labels[i], class),
            ),
        flat(line) && flat(class) && has_line(node_lines(labels, start, class), line) && (forall|
            i: int,
        |
            0 <= i < labels.len() ==> flat(#[trigger] labels[i])) ==> exists|i: int|
            0 <= i < labels.len() && line == #[trigger] node_row(
                (start + i) as nat,
                labels[i],
                class,
            ),
    decreases labels.len(),
{
    if labels.len() == 0 {
        lemma_no_row(line);
    } else {
        let front = labels.drop_last();
        let last = labels.len() - 1;
        let n = (start + last) as nat;
        let a = node_lines(front, start, class);
        let b = node_line(n, labels.last(), class);
        lemma_node_lines(front, start, class, line);
        lemma_node_line(n, labels.last(), class);
        lemma_whole_concat(a, b);
        lemma_two_parts(a, b, line);
        assert forall|i: int| 0 <= i < labels.len() implies has_line(
            node_lines(labels, start, class),
            #[trigger] node_row((start + i) as nat, labels[i], class),
        ) by {
            let row = node_row((start + i) as nat, labels[i], class);
            lemma_two_parts(a, b, row);
            if i < front.len() {
                assert(front[i] == labels[i]);
                assert(has_line(a, node_row((start + i) as nat, front[i], class)));
            }
        }
        if flat(line) && flat(class) && has_line(node_lines(labels, start, class), line) && (forall|
            i: int,
        |
            0 <= i < labels.len() ==> flat(#[trigger] labels[i])) {
            assert forall|i: int| 0 <= i < front.len() implies flat(#[trigger] front[i]) by {
                assert(front[i] == labels[i]);
            }
            assert(flat(labels[last]));
            if has_line(b, line) {
                assert(line == node_row((start + last) as nat, labels[last], class));
            } else {
                let i = choose|i: int|
                    0 <= i < front.len() && line == #[trigger] node_row(
                        (start + i) as nat,
                        front[i],
                        class,
                    );
                assert(line == node_row((start + i) as nat, labels[i], class));
            }
        }
    }
}

/// The line that counts the nodes of a class.
pub open spec fn count_row(class: Seq<char>, n: nat) -> Seq<char> {
    "    %% "@ + class + " ("@ + dec(n) + ")"@
}

proof fn lemma_class_section(
    labels: Seq<Seq<char>>,
    start: nat,
    class: Seq<char>,
    line: Seq<char>,
)
    requires
        flat(class),
    ensures
        whole(class_section(labels, start, class)),
        forall|i: int|
            0 <= i < labels.len() ==> has_line(
                class_section(labels, start, class),
                #[trigger] node_row((start + i) as nat, labels[i], class),
            ),
        flat(line) && has_line(class_section(labels, start, class), line) && (forall|i: int|
            0 <= i < labels.len() ==> flat(#[trigger] labels[i])) ==> line == count_row(
            class,
            labels.len(),
        ) || exists|i: int|
            0 <= i < labels.len() && line == #[trigger] node_row(
                (start + i) as nat,
                labels[i],
                class,
            ),
{
    if labels.len() == 0 {
        lemma_no_row(line);
    } else {
        let row = count_row(class, labels.len());
        let head = row.push('\n');
        let rest = node_lines(labels, start, class);
        reveal_strlit("    %% ");
        reveal_strlit(" (");
        reveal_strlit(")");
        reveal_strlit(")\n");
        assert("    %% "@ + class + " ("@ + dec(labels.len()) + ")\n"@ =~= head);
        lemma_flat_dec(labels.len());
        lemma_flat_between("    %% "@, class, " ("@, dec(labels.len()));
        lemma_flat_concat("    %% "@ + class + " ("@ + dec(labels.len()), ")"@);
        lemma_one_row(head, row);
        lemma_node_lines(labels, start, class, line);
        lemma_whole_concat(head, rest);
        lemma_two_parts(head, rest, line);
        assert forall|i: int| 0 <= i < labels.len() implies has_line(
            class_section(labels, start, class),
            #[trigger] node_row((start + i) as nat, labels[i], class),
        ) by {
            lemma_two_parts(head, rest, node_row((start + i) as nat, labels[i], class));
        }
    }
}

// ── The drawing ──────────────────────────────────────────────────────────────

/// The four sections of nodes.
spec fn sections(d: ChangesView) -> (Seq<char>, Seq<char>, Seq<char>, Seq<char>) {
    let a = d.added.len();
    let r = a + d.removed.len();
    let m = r + d.modified.len();
    (
        class_section(ids(d.added), 0, "added"@),
        class_section(ids(d.removed), a, "removed"@),
        class_section(d.modified.map_values(|m: ModifiedView| m.id), r, "modified"@),
        class_section(d.renamed.map_values(|r: RenamedView| rename_label(r)), m, "renamed"@),
    )
}

proof fn lemma_classes()
    ensures
        flat("added"@),
        flat("removed"@),
        flat("modified"@),
        flat("renamed"@),
{
    reveal_strlit("added");
    reveal_strlit("removed");
    reveal_strlit("modified");
    reveal_strlit("renamed");
}

proof fn lemma_heading_whole(from: Seq<char>, to: Seq<char>)
    ensures
        whole(heading(from, to)),
{
    let tail = "\n    classDef added fill:#9f9,stroke:#0a0,color:#000\n    classDef removed fill:#f99,stroke:#a00,color:#000\n    classDef modified fill:#fb8,stroke:#d60,color:#000\n    classDef renamed fill:#9ff,stroke:#0aa,color:#000\n"@;
    reveal_strlit(
        "\n    classDef added fill:#9f9,stroke:#0a0,color:#000\n    classDef removed fill:#f99,stroke:#a00,color:#000\n    classDef modified fill:#fb8,stroke:#d60,color:#000\n    classDef renamed fill:#9ff,stroke:#0aa,color:#000\n",
    );
    assert(tail.last() == '\n');
    assert(heading(from, to).last() == tail.last());
}

/// The lines of a drawing are those of its parts.
proof fn lemma_drawing(
    from: Seq<char>,
    to: Seq<char>,
    d: ChangesView,
    es: Seq<EntityView>,
    line: Seq<char>,
)
    ensures
        ({
            let (a, r, m, n) = sections(d);
            let parts = has_line(heading(from, to), line) || has_line(a, line) || has_line(r, line)
                || has_line(m, line) || has_line(n, line) || has_line(
                arrow_section(arrows(node_keys(d), es)),
                line,
            );
            &&& parts ==> has_line(drawing(from, to, d, es), line)
            &&& flat(line) && has_line(drawing(from, to, d, es), line) ==> parts
        }),
{
    let (a, r, m, n) = sections(d);
    let h = heading(from, to);
    let z = arrow_section(arrows(node_keys(d), es));
    lemma_classes();
    lemma_heading_whole(from, to);
    lemma_class_section(ids(d.added), 0, "added"@, line);
    lemma_class_section(ids(d.removed), d.added.len(), "removed"@, line);
    lemma_class_section(
        d.modified.map_values(|m: ModifiedView| m.id),
        d.added.len() + d.removed.len(),
        "modified"@,
        line,
    );
    lemma_class_section(
        d.renamed.map_values(|r: RenamedView| rename_label(r)),
        d.added.len() + d.removed.len() + d.modified.len(),
        "renamed"@,
        line,
    );
    lemma_whole_concat(a, r);
    lemma_whole_concat(a + r, m);
    lemma_whole_concat(a + r + m, n);
    lemma_two_parts(a, r, line);
    lemma_two_parts(a + r, m, line);
    lemma_two_parts(a + r + m, n, line);
    assert(node_sections(d) == a + r + m + n);
    lemma_whole_concat(h, node_sections(d));
    lemma_two_parts(h, node_sections(d), line);
    lemma_two_parts(h + node_sections(d), z, line);
}

/// The drawing has an arrow from one node to another for each entity of the
/// first that lists one of the second among those that it calls: from the caller
/// to the callee.
pub proof fn law_drawn_calls(
    from: Seq<char>,
    to: Seq<char>,
    d: ChangesView,
    es: Seq<EntityView>,
    q: int,
    k: int,
    i: nat,
    j: nat,
)
    requires
        0 <= q < es.len(),
        0 <= k < es[q].edges_out.len(),
        is_node_of(d, i, es[q].id),
        is_node_of(d, j, es[q].edges_out[k]),
    ensures
        has_line(drawing(from, to, d, es), arrow_row(i, j)),
{
    let list = arrows(node_keys(d), es);
    assert(calls_node(d, es[q], i, j));
    law_arrows(d, es, i, j);
    assert(list.contains((i, j)));
    lemma_arrow_section(list, arrow_row(i, j));
    lemma_drawing(from, to, d, es, arrow_row(i, j));
}

/// Each changed entity has a node: an added, removed or modified one with its
/// id, a renamed one with both, each in the class of its change and with the
/// number that arrows give it.
pub proof fn law_drawn_nodes(
    from: Seq<char>,
    to: Seq<char>,
    d: ChangesView,
    es: Seq<EntityView>,
    i: int,
)
    ensures
        0 <= i < d.added.len() ==> has_line(
            drawing(from, to, d, es),
            node_row(i as nat, d.added[i].id, "added"@),
        ),
        0 <= i < d.removed.len() ==> has_line(
            drawing(from, to, d, es),
            node_row((d.added.len() + i) as nat, d.removed[i].id, "removed"@),
        ),
        0 <= i < d.modified.len() ==> has_line(
            drawing(from, to, d, es),
            node_row(
                (d.added.len() + d.removed.len() + i) as nat,
                d.modified[i].id,
                "modified"@,
            ),
        ),
        0 <= i < d.renamed.len() ==> has_line(
            drawing(from, to, d, es),
            node_row(
                (d.added.len() + d.removed.len() + d.modified.len() + i) as nat,
                d.renamed[i].from_id + " ↪ "@ + d.renamed[i].to_id,
                "renamed"@,
            ),
        ),
{
    let a = d.added.len();
    let r = a + d.removed.len();
    let m = r + d.modified.len();
    lemma_classes();
    if 0 <= i < d.added.len() {
        let labels = ids(d.added);
        let row = node_row((0 + i) as nat, labels[i], "added"@);
        lemma_class_section(labels, 0, "added"@, row);
        assert(has_line(class_section(labels, 0, "added"@), row));
        lemma_drawing(from, to, d, es, row);
    }
    if 0 <= i < d.removed.len() {
        let labels = ids(d.removed);
        let row = node_row((a + i) as nat, labels[i], "removed"@);
        lemma_class_section(labels, a, "removed"@, row);
        assert(has_line(class_section(labels, a, "removed"@), row));
        lemma_drawing(from, to, d, es, row);
    }
    if 0 <= i < d.modified.len() {
        let labels = d.modified.map_values(|m: ModifiedView| m.id);
        let row = node_row((r + i) as nat, labels[i], "modified"@);
        lemma_class_section(labels, r, "modified"@, row);
        assert(has_line(class_section(labels, r, "modified"@), row));
        lemma_drawing(from, to, d, es, row);
    }
    if 0 <= i < d.renamed.len() {
        let labels = d.renamed.map_values(|r: RenamedView| rename_label(r));
        let row = node_row((m + i) as nat, labels[i], "renamed"@);
        lemma_class_section(labels, m, "renamed"@, row);
        assert(has_line(class_section(labels, m, "renamed"@), row));
        lemma_drawing(from, to, d, es, row);
    }
}

/// Whether all ids of a difference stand on one line.
pub open spec fn flat_changes(d: ChangesView) -> bool {
    &&& forall|i: int| 0 <= i < d.added.len() ==> flat((#[trigger] d.added[i]).id)
    &&& forall|i: int| 0 <= i < d.removed.len() ==> flat((#[trigger] d.removed[i]).id)
    &&& forall|i: int| 0 <= i < d.modified.len() ==> flat((#[trigger] d.modified[i]).id)
    &&& forall|i: int|
        0 <= i < d.renamed.len() ==> flat((#[trigger] d.renamed[i]).from_id) && flat(
            d.renamed[i].to_id,
        )
}

/// Whether a line counts the nodes of a class, or is the node of a changed
/// entity.
pub open spec fn row_of_change(d: ChangesView, line: Seq<char>) -> bool {
    let a = d.added.len();
    let r = a + d.removed.len();
    let m = r + d.modified.len();
    ||| line == count_row("added"@, d.added.len())
    ||| line == count_row("removed"@, d.removed.len())
    ||| line == count_row("modified"@, d.modified.len())
    ||| line == count_row("renamed"@, d.renamed.len())
    ||| exists|i: int|
        0 <= i < d.added.len() && line == node_row(
            i as nat,
            (#[trigger] d.added[i]).id,
            "added"@,
        )
    ||| exists|i: int|
        0 <= i < d.removed.len() && line == node_row(
            (a + i) as nat,
            (#[trigger] d.removed[i]).id,
            "removed"@,
        )
    ||| exists|i: int|
        0 <= i < d.modified.len() && line == node_row(
            (r + i) as nat,
            (#[trigger] d.modified[i]).id,
            "modified"@,
        )
    ||| exists|i: int|
        0 <= i < d.renamed.len() && line == node_row(
            (m + i) as nat,
            (#[trigger] d.renamed[i]).from_id + " ↪ "@ + d.renamed[i].to_id,
            "renamed"@,
        )
}

/// The drawing shows nothing else: each line belongs to the heading, counts the
/// nodes of a class, is the node of a changed entity, heads the arrows, or is an
/// arrow from an entity to one that it calls.
pub proof fn law_drawn_only(
    from: Seq<char>,
    to: Seq<char>,
    d: ChangesView,
    es: Seq<EntityView>,
    line: Seq<char>,
)
    requires
        flat_changes(d),
        flat(line),
        has_line(drawing(from, to, d, es), line),
    ensures
        has_line(heading(from, to), line) || row_of_change(d, line) || line
            == "    %% blast-radius edges (both endpoints in changeset)"@ || exists|
            i: nat,
            j: nat,
        | #[trigger]
            some_calls_node(d, es, i, j) && line == arrow_row(i, j),
{
    let a = d.added.len();
    let r = a + d.removed.len();
    let m = r + d.modified.len();
    let la = ids(d.added);
    let lr = ids(d.removed);
    let lm = d.modified.map_values(|m: ModifiedView| m.id);
    let ln = d.renamed.map_values(|r: RenamedView| rename_label(r));
    let list = arrows(node_keys(d), es);
    lemma_classes();
    lemma_drawing(from, to, d, es, line);
    assert forall|i: int| 0 <= i < la.len() implies flat(#[trigger] la[i]) by {
        assert(flat(d.added[i].id));
    }
    assert forall|i: int| 0 <= i < lr.len() implies flat(#[trigger] lr[i]) by {
        assert(flat(d.removed[i].id));
    }
    assert forall|i: int| 0 <= i < lm.len() implies flat(#[trigger] lm[i]) by {
        assert(flat(d.modified[i].id));
    }
    assert forall|i: int| 0 <= i < ln.len() implies flat(#[trigger] ln[i]) by {
        assert(flat(d.renamed[i].from_id) && flat(d.renamed[i].to_id));
        reveal_strlit(" ↪ ");
        lemma_flat_concat(d.renamed[i].from_id, " ↪ "@);
        lemma_flat_concat(d.renamed[i].from_id + " ↪ "@, d.renamed[i].to_id);
    }
    lemma_class_section(la, 0, "added"@, line);
    lemma_class_section(lr, a, "removed"@, line);
    lemma_class_section(lm, r, "modified"@, line);
    lemma_class_section(ln, m, "renamed"@, line);
    lemma_arrow_section(list, line);
    if has_line(heading(from, to), line) {
    } else if has_line(class_section(la, 0, "added"@), line) {
        if line != count_row("added"@, a) {
            let i = choose|i: int|
                0 <= i < la.len() && line == #[trigger] node_row((0 + i) as nat, la[i], "added"@);
            assert(la[i] == d.added[i].id);
        }
    } else if has_line(class_section(lr, a, "removed"@), line) {
        if line != count_row("removed"@, d.removed.len()) {
            let i = choose|i: int|
                0 <= i < lr.len() && line == #[trigger] node_row((a + i) as nat, lr[i], "removed"@);
            assert(lr[i] == d.removed[i].id);
        }
    } else if has_line(class_section(lm, r, "modified"@), line) {
        if line != count_row("modified"@, d.modified.len()) {
            let i = choose|i: int|
                0 <= i < lm.len() && line == #[trigger] node_row((r + i) as nat, lm[i], "modified"@);
            assert(lm[i] == d.modified[i].id);
        }
    } else if has_line(class_section(ln, m, "renamed"@), line) {
        if line != count_row("renamed"@, d.renamed.len()) {
            let i = choose|i: int|
                0 <= i < ln.len() && line == #[trigger] node_row((m + i) as nat, ln[i], "renamed"@);
            assert(ln[i] == d.renamed[i].from_id + " ↪ "@ + d.renamed[i].to_id);
        }
    } else if line != "    %% blast-radius edges (both endpoints in changeset)"@ {
        let p = choose|p: (nat, nat)| #[trigger] list.contains(p) && line == arrow_row(p.0, p.1);
        law_arrows(d, es, p.0, p.1);
        assert(some_calls_node(d, es, p.0, p.1));
    }
}

} // verus!
