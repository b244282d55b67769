//! What the views show of a catalog, line by line.

use crate::graph::catalog::{
    distinct_ids, known, law_neighbors, law_node, neighbors_of, related, AtomEntry, CatalogView,
    Direction,
};
use crate::keys::{law_sorted_keys, lemma_push_contains, sorted_keys};
use crate::render::function::{
    arrow, boxed, callee_lines, caller_lines, center_line, function_text, known_by, linked, name_of,
};
use crate::render::lines::lines;
use crate::render::module::{
    border_calls, crossing_calls, crossing_line, crossings, external_line, externals, firsts, frame,
    item_line, items, kind_of, kind_word, module_text, outer_ends, shaped,
};
use crate::render::rows::{
    flat, has_line, lemma_flat_concat, lemma_line_back, lemma_line_front, lemma_line_split,
    lemma_lines_has, lemma_lines_only, lemma_lines_whole, lemma_one_row, lemma_whole_concat, whole,
};
use crate::render::util::{escaped, id_text};
use vstd::prelude::*;

verus! {

// ── Rows ─────────────────────────────────────────────────────────────────────

/// The line of a call from `x` to `y`.
pub open spec fn call_row(x: Seq<char>, y: Seq<char>) -> Seq<char> {
    "    "@ + id_text(x) + " --> "@ + id_text(y)
}

/// The line of a node in a box.
pub open spec fn box_row(id: Seq<char>, label: Seq<char>) -> Seq<char> {
    "    "@ + id_text(id) + "[\""@ + escaped(label) + "\"]"@
}

/// The line of a round node.
pub open spec fn round_row(id: Seq<char>, label: Seq<char>) -> Seq<char> {
    "    "@ + id_text(id) + "((\""@ + escaped(label) + "\"))"@
}

/// Whether the ids, the names and the files of all atoms stand on one line.
pub open spec fn flat_atoms(atoms: Seq<AtomEntry>) -> bool {
    forall|i: int| 0 <= i < atoms.len() ==> flat_atom(#[trigger] atoms[i])
}

/// Whether the id, the name and the file of an atom stand on one line.
pub open spec fn flat_atom(a: AtomEntry) -> bool {
    &&& flat(a.id)
    &&& flat(a.name)
    &&& a.file_path is Some ==> flat(a.file_path->0)
}

pub(crate) proof fn lemma_flat_id(id: Seq<char>)
    requires
        flat(id),
    ensures
        flat(id_text(id)),
{
    let t = id_text(id);
    if t.contains('\n') {
        let i = choose|i: int| 0 <= i < t.len() && t[i] == '\n';
        assert(id[i] == '\n');
    }
}

pub(crate) proof fn lemma_flat_label(s: Seq<char>)
    requires
        flat(s),
    ensures
        flat(escaped(s)),
    decreases s.len(),
{
    if s.len() > 0 {
        let front = s.drop_last();
        assert(s =~= front + seq![s.last()]);
        lemma_flat_concat(front, seq![s.last()]);
        lemma_flat_label(front);
        if s.last() == '"' {
            reveal_strlit("&quot;");
            lemma_flat_concat(escaped(front), "&quot;"@);
        } else {
            assert(escaped(s) =~= escaped(front) + seq![s.last()]);
            lemma_flat_concat(escaped(front), seq![s.last()]);
        }
    }
}

/// The text of a call is its line.
pub(crate) proof fn lemma_arrow(x: Seq<char>, y: Seq<char>)
    ensures
        whole(arrow(x, y)),
        has_line(arrow(x, y), call_row(x, y)),
        flat(x) && flat(y) ==> forall|line: Seq<char>|
            has_line(arrow(x, y), line) ==> line == call_row(x, y),
{
    reveal_strlit("    ");
    reveal_strlit(" --> ");
    reveal_strlit("\n");
    assert(arrow(x, y) =~= call_row(x, y).push('\n'));
    if flat(x) && flat(y) {
        lemma_flat_id(x);
        lemma_flat_id(y);
        lemma_flat_concat("    "@, id_text(x));
        lemma_flat_concat("    "@ + id_text(x), " --> "@);
        lemma_flat_concat("    "@ + id_text(x) + " --> "@, id_text(y));
    }
    lemma_one_row(arrow(x, y), call_row(x, y));
}

pub(crate) proof fn lemma_boxed(id: Seq<char>, label: Seq<char>)
    ensures
        whole(boxed(id, label)),
        has_line(boxed(id, label), box_row(id, label)),
        flat(id) && flat(label) ==> forall|line: Seq<char>|
            has_line(boxed(id, label), line) ==> line == box_row(id, label),
{
    reveal_strlit("    ");
    reveal_strlit("[\"");
    reveal_strlit("\"]");
    reveal_strlit("\"]\n");
    assert(boxed(id, label) =~= box_row(id, label).push('\n'));
    if flat(id) && flat(label) {
        lemma_flat_id(id);
        lemma_flat_label(label);
        lemma_flat_concat("    "@, id_text(id));
        lemma_flat_concat("    "@ + id_text(id), "[\""@);
        lemma_flat_concat("    "@ + id_text(id) + "[\""@, escaped(label));
        lemma_flat_concat("    "@ + id_text(id) + "[\""@ + escaped(label), "\"]"@);
    }
    lemma_one_row(boxed(id, label), box_row(id, label));
}

pub(crate) proof fn lemma_center_line(id: Seq<char>, label: Seq<char>)
    ensures
        whole(center_line(id, label)),
        has_line(center_line(id, label), round_row(id, label)),
        flat(id) && flat(label) ==> forall|line: Seq<char>|
            has_line(center_line(id, label), line) ==> line == round_row(id, label),
{
    reveal_strlit("    ");
    reveal_strlit("((\"");
    reveal_strlit("\"))");
    reveal_strlit("\"))\n");
    assert(center_line(id, label) =~= round_row(id, label).push('\n'));
    if flat(id) && flat(label) {
        lemma_flat_id(id);
        lemma_flat_label(label);
        lemma_flat_concat("    "@, id_text(id));
        lemma_flat_concat("    "@ + id_text(id), "((\""@);
        lemma_flat_concat("    "@ + id_text(id) + "((\""@, escaped(label));
        lemma_flat_concat("    "@ + id_text(id) + "((\""@ + escaped(label), "\"))"@);
    }
    lemma_one_row(center_line(id, label), round_row(id, label));
}

// ── Relations ────────────────────────────────────────────────────────────────

/// Whether the catalog has a call from one known atom to another.
pub open spec fn is_call(c: CatalogView, x: Seq<char>, y: Seq<char>) -> bool {
    &&& known(c.atoms, x)
    &&& known(c.atoms, y)
    &&& related(c.relations, x, y, "calls"@)
}

/// The known neighbours are the known atoms that relations lead to or from.
pub(crate) proof fn lemma_linked(
    c: CatalogView,
    id: Seq<char>,
    d: Direction,
    kind: Seq<char>,
    other: Seq<char>,
)
    requires
        distinct_ids(c.atoms),
    ensures
        sorted_keys::<String>(linked(c, id, d, kind)).contains(other) <==> known(c.atoms, other)
            && match d {
            Direction::Outgoing => related(c.relations, id, other, kind),
            Direction::Incoming => related(c.relations, other, id, kind),
        },
{
    let list = linked(c, id, d, kind);
    law_sorted_keys::<String>(list);
    assert(list.contains(other) <==> sorted_keys::<String>(list).contains(other));
    law_neighbors(c.relations, id, other, kind);
    law_node(c.atoms, other);
    lemma_known_by(c.atoms, neighbors_of(c.relations, id, d), kind, other);
}

proof fn lemma_known_by(
    atoms: Seq<AtomEntry>,
    ns: Seq<(Seq<char>, Seq<char>)>,
    kind: Seq<char>,
    other: Seq<char>,
)
    requires
        distinct_ids(atoms),
    ensures
        known_by(atoms, ns, kind).contains(other) <==> known(atoms, other) && ns.contains(
            (other, kind),
        ),
    decreases ns.len(),
{
    if ns.len() > 0 {
        let front = ns.drop_last();
        lemma_known_by(atoms, front, kind, other);
        law_node(atoms, ns.last().0);
        lemma_push_contains(known_by(atoms, front, kind), ns.last().0);
        lemma_push_contains(front, ns.last());
        assert(front.push(ns.last()) =~= ns);
    }
}

// ── One function ─────────────────────────────────────────────────────────────

/// The parts of the view of one function.
proof fn lemma_function_parts(c: CatalogView, center: Seq<char>)
    ensures
        ({
            let head = "graph TD\n"@ + center_line(
                center,
                "fn "@ + name_of(c.atoms, center) + " (target)"@,
            );
            let ins = sorted_keys::<String>(linked(c, center, Direction::Incoming, "calls"@));
            let outs = sorted_keys::<String>(linked(c, center, Direction::Outgoing, "calls"@));
            &&& whole("graph TD\n"@)
            &&& whole(head)
            &&& whole(lines(ins, caller_lines(c.atoms, center)))
            &&& whole(lines(outs, callee_lines(c.atoms, center)))
            &&& forall|v: Seq<char>| ins.contains(v) ==> whole(
                #[trigger] caller_lines(c.atoms, center)(v),
            )
            &&& forall|v: Seq<char>| outs.contains(v) ==> whole(
                #[trigger] callee_lines(c.atoms, center)(v),
            )
        }),
{
    reveal_strlit("graph TD\n");
    let label = "fn "@ + name_of(c.atoms, center) + " (target)"@;
    let ins = sorted_keys::<String>(linked(c, center, Direction::Incoming, "calls"@));
    let outs = sorted_keys::<String>(linked(c, center, Direction::Outgoing, "calls"@));
    lemma_center_line(center, label);
    lemma_whole_concat("graph TD\n"@, center_line(center, label));
    assert forall|v: Seq<char>| ins.contains(v) implies whole(
        #[trigger] caller_lines(c.atoms, center)(v),
    ) by {
        lemma_boxed(v, name_of(c.atoms, v));
        lemma_arrow(v, center);
        lemma_whole_concat(boxed(v, name_of(c.atoms, v)), arrow(v, center));
    }
    assert forall|v: Seq<char>| outs.contains(v) implies whole(
        #[trigger] callee_lines(c.atoms, center)(v),
    ) by {
        lemma_boxed(v, name_of(c.atoms, v));
        lemma_arrow(center, v);
        lemma_whole_concat(boxed(v, name_of(c.atoms, v)), arrow(center, v));
    }
    lemma_lines_whole(ins, caller_lines(c.atoms, center));
    lemma_lines_whole(outs, callee_lines(c.atoms, center));
}

/// The view of a function has a line for each call between the function and a
/// known atom: an arrow from the caller to the callee. The atom at the other
/// end has a box with its name.
pub proof fn law_function_calls(c: CatalogView, center: Seq<char>, i: int)
    requires
        distinct_ids(c.atoms),
        0 <= i < c.atoms.len(),
    ensures
        related(c.relations, c.atoms[i].id, center, "calls"@) ==> has_line(
            function_text(c, center),
            call_row(c.atoms[i].id, center),
        ) && has_line(function_text(c, center), box_row(c.atoms[i].id, c.atoms[i].name)),
        related(c.relations, center, c.atoms[i].id, "calls"@) ==> has_line(
            function_text(c, center),
            call_row(center, c.atoms[i].id),
        ) && has_line(function_text(c, center), box_row(c.atoms[i].id, c.atoms[i].name)),
{
    let id = c.atoms[i].id;
    let name = c.atoms[i].name;
    let head = "graph TD\n"@ + center_line(
        center,
        "fn "@ + name_of(c.atoms, center) + " (target)"@,
    );
    let ins = sorted_keys::<String>(linked(c, center, Direction::Incoming, "calls"@));
    let outs = sorted_keys::<String>(linked(c, center, Direction::Outgoing, "calls"@));
    let f = caller_lines(c.atoms, center);
    let g = callee_lines(c.atoms, center);
    lemma_function_parts(c, center);
    law_node(c.atoms, id);
    lemma_boxed(id, name);
    if related(c.relations, id, center, "calls"@) {
        lemma_linked(c, center, Direction::Incoming, "calls"@, id);
        lemma_arrow(id, center);
        lemma_line_front(boxed(id, name), arrow(id, center), box_row(id, name));
        lemma_line_back(boxed(id, name), arrow(id, center), call_row(id, center));
        lemma_lines_has(ins, f, id, box_row(id, name));
        lemma_lines_has(ins, f, id, call_row(id, center));
        lemma_middle(head, lines(ins, f), lines(outs, g), box_row(id, name));
        lemma_middle(head, lines(ins, f), lines(outs, g), call_row(id, center));
    }
    if related(c.relations, center, id, "calls"@) {
        lemma_linked(c, center, Direction::Outgoing, "calls"@, id);
        lemma_arrow(center, id);
        lemma_line_front(boxed(id, name), arrow(center, id), box_row(id, name));
        lemma_line_back(boxed(id, name), arrow(center, id), call_row(center, id));
        lemma_lines_has(outs, g, id, box_row(id, name));
        lemma_lines_has(outs, g, id, call_row(center, id));
        lemma_whole_concat(head, lines(ins, f));
        lemma_line_back(head + lines(ins, f), lines(outs, g), box_row(id, name));
        lemma_line_back(head + lines(ins, f), lines(outs, g), call_row(center, id));
    }
}

/// A line of the middle of three parts is a line of the whole.
pub(crate) proof fn lemma_middle(a: Seq<char>, b: Seq<char>, c: Seq<char>, line: Seq<char>)
    requires
        whole(a),
        has_line(b, line),
    ensures
        has_line(a + b + c, line),
{
    lemma_line_back(a, b, line);
    lemma_line_front(a + b, c, line);
}

/// The view of a function shows the function as a round node with its name.
pub proof fn law_function_center(c: CatalogView, i: int)
    requires
        distinct_ids(c.atoms),
        0 <= i < c.atoms.len(),
    ensures
        has_line(
            function_text(c, c.atoms[i].id),
            round_row(c.atoms[i].id, "fn "@ + c.atoms[i].name + " (target)"@),
        ),
{
    let center = c.atoms[i].id;
    let label = "fn "@ + c.atoms[i].name + " (target)"@;
    let ins = sorted_keys::<String>(linked(c, center, Direction::Incoming, "calls"@));
    let outs = sorted_keys::<String>(linked(c, center, Direction::Outgoing, "calls"@));
    law_node(c.atoms, center);
    lemma_function_parts(c, center);
    lemma_center_line(center, label);
    lemma_middle(
        "graph TD\n"@,
        center_line(center, label),
        lines(ins, caller_lines(c.atoms, center)),
        round_row(center, label),
    );
    lemma_line_front(
        "graph TD\n"@ + center_line(center, label) + lines(ins, caller_lines(c.atoms, center)),
        lines(outs, callee_lines(c.atoms, center)),
        round_row(center, label),
    );
}

/// Whether a line stands for a call between a function and a known atom, or
/// for the atom at the other end.
pub open spec fn row_of_neighbor(
    c: CatalogView,
    center: Seq<char>,
    a: AtomEntry,
    line: Seq<char>,
) -> bool {
    ||| related(c.relations, a.id, center, "calls"@) && (line == call_row(a.id, center) || line
        == box_row(a.id, a.name))
    ||| related(c.relations, center, a.id, "calls"@) && (line == call_row(center, a.id) || line
        == box_row(a.id, a.name))
}

/// The view of a function shows nothing else: each line is the first one, that
/// of the function, or stands for a call between the function and a known atom
/// or for that atom.
pub proof fn law_function_only(c: CatalogView, k: int, line: Seq<char>)
    requires
        distinct_ids(c.atoms),
        flat_atoms(c.atoms),
        0 <= k < c.atoms.len(),
        flat(line),
        has_line(function_text(c, c.atoms[k].id), line),
    ensures
        line == "graph TD"@ || line == round_row(
            c.atoms[k].id,
            "fn "@ + c.atoms[k].name + " (target)"@,
        ) || exists|i: int|
            0 <= i < c.atoms.len() && row_of_neighbor(
                c,
                c.atoms[k].id,
                #[trigger] c.atoms[i],
                line,
            ),
{
    let center = c.atoms[k].id;
    let label = "fn "@ + c.atoms[k].name + " (target)"@;
    let ins = sorted_keys::<String>(linked(c, center, Direction::Incoming, "calls"@));
    let outs = sorted_keys::<String>(linked(c, center, Direction::Outgoing, "calls"@));
    let f = caller_lines(c.atoms, center);
    let g = callee_lines(c.atoms, center);
    let head = "graph TD\n"@ + center_line(center, label);
    assert(flat_atom(c.atoms[k]));
    law_node(c.atoms, center);
    lemma_function_parts(c, center);
    lemma_whole_concat(head, lines(ins, f));
    lemma_line_split(head + lines(ins, f), lines(outs, g), line);
    if has_line(lines(outs, g), line) {
        let v = lemma_lines_only(outs, g, line);
        lemma_linked(c, center, Direction::Outgoing, "calls"@, v);
        let i = choose|i: int| 0 <= i < c.atoms.len() && (#[trigger] c.atoms[i]).id == v;
        assert(flat_atom(c.atoms[i]));
        law_node(c.atoms, v);
        lemma_boxed(v, c.atoms[i].name);
        lemma_arrow(center, v);
        lemma_line_split(boxed(v, c.atoms[i].name), arrow(center, v), line);
        assert(row_of_neighbor(c, center, c.atoms[i], line));
    } else {
        lemma_line_split(head, lines(ins, f), line);
        if has_line(lines(ins, f), line) {
            let v = lemma_lines_only(ins, f, line);
            lemma_linked(c, center, Direction::Incoming, "calls"@, v);
            let i = choose|i: int| 0 <= i < c.atoms.len() && (#[trigger] c.atoms[i]).id == v;
            assert(flat_atom(c.atoms[i]));
            law_node(c.atoms, v);
            lemma_boxed(v, c.atoms[i].name);
            lemma_arrow(v, center);
            lemma_line_split(boxed(v, c.atoms[i].name), arrow(v, center), line);
            assert(row_of_neighbor(c, center, c.atoms[i], line));
        } else {
            lemma_line_split("graph TD\n"@, center_line(center, label), line);
            reveal_strlit("graph TD");
            reveal_strlit("graph TD\n");
            assert("graph TD\n"@ =~= "graph TD"@.push('\n'));
            lemma_one_row("graph TD\n"@, "graph TD"@);
            lemma_flat_concat("fn "@, c.atoms[k].name);
            lemma_flat_concat("fn "@ + c.atoms[k].name, " (target)"@);
            reveal_strlit("fn ");
            reveal_strlit(" (target)");
            lemma_center_line(center, label);
        }
    }
}

// ── One module ───────────────────────────────────────────────────────────────

/// The line of an item of a module.
pub open spec fn item_row(a: AtomEntry) -> Seq<char> {
    "        "@ + shaped(a.kind, id_text(a.id), escaped(kind_word(a.kind) + " "@ + a.name))
}

/// The line of a node outside a module.
pub open spec fn stadium_row(id: Seq<char>, label: Seq<char>) -> Seq<char> {
    "    "@ + id_text(id) + "([\""@ + escaped(label) + "\"])"@
}

/// Whether an atom is an item of a module.
pub open spec fn is_inside(c: CatalogView, module: Seq<char>, id: Seq<char>) -> bool {
    known(c.atoms, id) && related(c.relations, module, id, "contains"@)
}

/// Whether an atom is a function.
pub open spec fn is_function(atoms: Seq<AtomEntry>, id: Seq<char>) -> bool {
    exists|i: int|
        0 <= i < atoms.len() && (#[trigger] atoms[i]).id == id && atoms[i].kind == "function"@
}

/// Whether a call leads from a function among the items of a module to a known
/// atom outside.
pub open spec fn calls_out(
    c: CatalogView,
    module: Seq<char>,
    x: Seq<char>,
    y: Seq<char>,
) -> bool {
    &&& is_inside(c, module, x)
    &&& is_function(c.atoms, x)
    &&& !is_inside(c, module, y)
    &&& is_call(c, x, y)
}

/// Whether a call leads from a known atom outside of a module to a function
/// among its items.
pub open spec fn calls_in(c: CatalogView, module: Seq<char>, x: Seq<char>, y: Seq<char>) -> bool {
    &&& is_inside(c, module, y)
    &&& is_function(c.atoms, y)
    &&& !is_inside(c, module, x)
    &&& is_call(c, x, y)
}

proof fn lemma_crossings_has(
    item: Seq<char>,
    others: Seq<Seq<char>>,
    inside: Seq<Seq<char>>,
    d: Direction,
    p: (Seq<char>, Seq<char>),
)
    ensures
        crossings(item, others, inside, d).contains(p) <==> match d {
            Direction::Outgoing => p.0 == item && others.contains(p.1) && !inside.contains(p.1),
            Direction::Incoming => p.1 == item && others.contains(p.0) && !inside.contains(p.0),
        },
    decreases others.len(),
{
    if others.len() > 0 {
        let front = others.drop_last();
        lemma_crossings_has(item, front, inside, d, p);
        lemma_push_contains(crossings(item, front, inside, d), (item, others.last()));
        lemma_push_contains(crossings(item, front, inside, d), (others.last(), item));
        lemma_push_contains(front, others.last());
        assert(front.push(others.last()) =~= others);
    }
}

pub(crate) proof fn lemma_contains_concat<V>(a: Seq<V>, b: Seq<V>, v: V)
    ensures
        (a + b).contains(v) <==> a.contains(v) || b.contains(v),
{
    if a.contains(v) {
        let i = choose|i: int| 0 <= i < a.len() && a[i] == v;
        assert((a + b)[i] == v);
    }
    if b.contains(v) {
        let i = choose|i: int| 0 <= i < b.len() && b[i] == v;
        assert((a + b)[a.len() + i] == v);
    }
    if (a + b).contains(v) {
        let i = choose|i: int| 0 <= i < (a + b).len() && (a + b)[i] == v;
        if i < a.len() {
            assert(a[i] == v);
        } else {
            assert(b[i - a.len()] == v);
        }
    }
}

proof fn lemma_border_has(
    c: CatalogView,
    list: Seq<Seq<char>>,
    inside: Seq<Seq<char>>,
    d: Direction,
    p: (Seq<char>, Seq<char>),
)
    requires
        distinct_ids(c.atoms),
    ensures
        border_calls(c, list, inside, d).contains(p) <==> is_call(c, p.0, p.1) && match d {
            Direction::Outgoing => list.contains(p.0) && is_function(c.atoms, p.0)
                && !inside.contains(p.1),
            Direction::Incoming => list.contains(p.1) && is_function(c.atoms, p.1)
                && !inside.contains(p.0),
        },
    decreases list.len(),
{
    if list.len() > 0 {
        let front = list.drop_last();
        let item = list.last();
        let others = sorted_keys::<String>(linked(c, item, d, "calls"@));
        let far = match d {
            Direction::Outgoing => p.1,
            Direction::Incoming => p.0,
        };
        lemma_border_has(c, front, inside, d, p);
        lemma_linked(c, item, d, "calls"@, far);
        lemma_crossings_has(item, others, inside, d, p);
        lemma_contains_concat(
            border_calls(c, front, inside, d),
            crossings(item, others, inside, d),
            p,
        );
        lemma_push_contains(front, item);
        assert(front.push(item) =~= list);
        law_node(c.atoms, item);
        if is_function(c.atoms, item) {
            let i = choose|i: int|
                0 <= i < c.atoms.len() && (#[trigger] c.atoms[i]).id == item && c.atoms[i].kind
                    == "function"@;
            assert(kind_of(c.atoms, item) == Some("function"@));
            assert(known(c.atoms, item));
        } else if kind_of(c.atoms, item) == Some("function"@) {
            let i = choose|i: int| 0 <= i < c.atoms.len() && (#[trigger] c.atoms[i]).id == item;
            assert(c.atoms[i].kind == "function"@);
        }
    }
}

/// The calls that cross the border of a module.
proof fn lemma_crossing_calls(
    c: CatalogView,
    module: Seq<char>,
    x: Seq<char>,
    y: Seq<char>,
)
    requires
        distinct_ids(c.atoms),
    ensures
        crossing_calls(c, module, Direction::Outgoing).contains((x, y)) <==> calls_out(
            c,
            module,
            x,
            y,
        ),
        crossing_calls(c, module, Direction::Incoming).contains((x, y)) <==> calls_in(
            c,
            module,
            x,
            y,
        ),
{
    let list = items(c, module);
    let out = border_calls(c, list, list, Direction::Outgoing);
    let into = border_calls(c, list, list, Direction::Incoming);
    law_sorted_keys::<(String, String)>(out);
    law_sorted_keys::<(String, String)>(into);
    assert(out.contains((x, y)) <==> crossing_calls(c, module, Direction::Outgoing).contains(
        (x, y),
    ));
    assert(into.contains((x, y)) <==> crossing_calls(c, module, Direction::Incoming).contains(
        (x, y),
    ));
    lemma_border_has(c, list, list, Direction::Outgoing, (x, y));
    lemma_border_has(c, list, list, Direction::Incoming, (x, y));
    lemma_linked(c, module, Direction::Outgoing, "contains"@, x);
    lemma_linked(c, module, Direction::Outgoing, "contains"@, y);
}

proof fn lemma_firsts(s: Seq<Seq<char>>, v: Seq<char>)
    ensures
        firsts(s).contains(v) <==> s.contains(v),
    decreases s.len(),
{
    if s.len() > 0 {
        let front = s.drop_last();
        lemma_firsts(front, v);
        lemma_push_contains(front, s.last());
        lemma_push_contains(firsts(front), s.last());
        assert(front.push(s.last()) =~= s);
    }
}

/// Whether a call that crosses the border of a module connects an item with an
/// atom outside.
pub open spec fn connects(
    c: CatalogView,
    module: Seq<char>,
    inner: Seq<char>,
    outer: Seq<char>,
) -> bool {
    calls_out(c, module, inner, outer) || calls_in(c, module, outer, inner)
}

/// Whether an atom outside of a module is at the other end of a call that
/// crosses its border.
pub open spec fn is_external(c: CatalogView, module: Seq<char>, id: Seq<char>) -> bool {
    exists|x: Seq<char>| #[trigger] connects(c, module, x, id)
}

proof fn lemma_externals(c: CatalogView, module: Seq<char>, id: Seq<char>)
    requires
        distinct_ids(c.atoms),
    ensures
        externals(c, module).contains(id) <==> is_external(c, module, id),
{
    let out = crossing_calls(c, module, Direction::Outgoing);
    let into = crossing_calls(c, module, Direction::Incoming);
    let a = outer_ends(out, Direction::Outgoing);
    let b = outer_ends(into, Direction::Incoming);
    lemma_firsts(a + b, id);
    lemma_contains_concat(a, b, id);
    if a.contains(id) {
        let i = choose|i: int| 0 <= i < a.len() && a[i] == id;
        let p = out[i];
        assert(out.contains(p));
        lemma_crossing_calls(c, module, p.0, p.1);
        assert(connects(c, module, p.0, id));
    }
    if b.contains(id) {
        let i = choose|i: int| 0 <= i < b.len() && b[i] == id;
        let p = into[i];
        assert(into.contains(p));
        lemma_crossing_calls(c, module, p.0, p.1);
        assert(connects(c, module, p.1, id));
        assert(calls_out(c, module, p.1, id) || calls_in(c, module, id, p.1));
    }
    if is_external(c, module, id) {
        let x = choose|x: Seq<char>| #[trigger] connects(c, module, x, id);
        lemma_crossing_calls(c, module, x, id);
        lemma_crossing_calls(c, module, id, x);
        if out.contains((x, id)) {
            let i = choose|i: int| 0 <= i < out.len() && out[i] == (x, id);
            assert(a[i] == id);
        } else {
            let i = choose|i: int| 0 <= i < into.len() && into[i] == (id, x);
            assert(b[i] == id);
        }
    }
}

pub(crate) proof fn lemma_flat_words(kind: Seq<char>)
    ensures
        flat(kind_word(kind)),
        flat(" "@),
{
    reveal_strlit(" ");
    reveal_strlit("fn");
    reveal_strlit("struct");
    reveal_strlit("trait");
    reveal_strlit("impl");
    reveal_strlit("enum");
    reveal_strlit("type");
    reveal_strlit("const");
    reveal_strlit("static");
    reveal_strlit("macro");
    reveal_strlit("?");
}

pub(crate) proof fn lemma_flat_between(a: Seq<char>, open: Seq<char>, b: Seq<char>, close: Seq<char>)
    requires
        flat(a),
        flat(open),
        flat(b),
        flat(close),
    ensures
        flat(a + open + b + close),
{
    lemma_flat_concat(a, open);
    lemma_flat_concat(a + open, b);
    lemma_flat_concat(a + open + b, close);
}

pub(crate) proof fn lemma_flat_shaped(kind: Seq<char>, id: Seq<char>, label: Seq<char>)
    requires
        flat(id),
        flat(label),
    ensures
        flat(shaped(kind, id, label)),
{
    reveal_strlit("(");
    reveal_strlit(")");
    reveal_strlit("{{");
    reveal_strlit("}}");
    reveal_strlit("[/");
    reveal_strlit("/]");
    reveal_strlit("[(");
    reveal_strlit(")]");
    reveal_strlit("[[");
    reveal_strlit("]]");
    reveal_strlit("[\"");
    reveal_strlit("\"]");
    lemma_flat_between(id, "("@, label, ")"@);
    lemma_flat_between(id, "{{"@, label, "}}"@);
    lemma_flat_between(id, "[/"@, label, "/]"@);
    lemma_flat_between(id, "[("@, label, ")]"@);
    lemma_flat_between(id, "[["@, label, "]]"@);
    lemma_flat_between(id, "[\""@, label, "\"]"@);
}

proof fn lemma_item_line(atoms: Seq<AtomEntry>, i: int)
    requires
        distinct_ids(atoms),
        0 <= i < atoms.len(),
    ensures
        whole(item_line(atoms)(atoms[i].id)),
        has_line(item_line(atoms)(atoms[i].id), item_row(atoms[i])),
        flat_atom(atoms[i]) ==> forall|line: Seq<char>|
            #[trigger] has_line(item_line(atoms)(atoms[i].id), line) ==> line == item_row(atoms[i]),
{
    let a = atoms[i];
    law_node(atoms, a.id);
    reveal_strlit("        ");
    reveal_strlit("\n");
    assert(item_line(atoms)(a.id) =~= item_row(a).push('\n'));
    if flat_atom(a) {
        lemma_flat_words(a.kind);
        lemma_flat_concat(kind_word(a.kind), " "@);
        lemma_flat_concat(kind_word(a.kind) + " "@, a.name);
        lemma_flat_label(kind_word(a.kind) + " "@ + a.name);
        lemma_flat_id(a.id);
        lemma_flat_shaped(a.kind, id_text(a.id), escaped(kind_word(a.kind) + " "@ + a.name));
        lemma_flat_concat(
            "        "@,
            shaped(a.kind, id_text(a.id), escaped(kind_word(a.kind) + " "@ + a.name)),
        );
    }
    lemma_one_row(item_line(atoms)(a.id), item_row(a));
}

proof fn lemma_external_line(atoms: Seq<AtomEntry>, i: int)
    requires
        distinct_ids(atoms),
        0 <= i < atoms.len(),
    ensures
        whole(external_line(atoms)(atoms[i].id)),
        has_line(external_line(atoms)(atoms[i].id), stadium_row(atoms[i].id, atoms[i].name)),
        flat_atom(atoms[i]) ==> forall|line: Seq<char>|
            #[trigger] has_line(external_line(atoms)(atoms[i].id), line) ==> line == stadium_row(
                atoms[i].id,
                atoms[i].name,
            ),
{
    let a = atoms[i];
    law_node(atoms, a.id);
    reveal_strlit("    ");
    reveal_strlit("([\"");
    reveal_strlit("\"])");
    reveal_strlit("\"])\n");
    let row = stadium_row(a.id, a.name);
    assert(external_line(atoms)(a.id) =~= row.push('\n'));
    if flat_atom(a) {
        lemma_flat_id(a.id);
        lemma_flat_label(a.name);
        lemma_flat_concat("    "@, id_text(a.id));
        lemma_flat_between("    "@ + id_text(a.id), "([\""@, escaped(a.name), "\"])"@);
    }
    lemma_one_row(external_line(atoms)(a.id), row);
}

/// The file of an atom as it is shown: `?` where it is not known.
pub open spec fn shown_file(a: AtomEntry) -> Seq<char> {
    match a.file_path {
        Some(p) => p,
        None => "?"@,
    }
}

/// The line of the box of a module.
pub open spec fn subgraph_row(path: Seq<char>, name: Seq<char>) -> Seq<char> {
    "    subgraph "@ + id_text(path) + "[\""@ + escaped(name + " ("@ + path + ")"@) + "\"]"@
}

proof fn lemma_frame_text(path: Seq<char>, label: Seq<char>)
    ensures
        "graph TD\n    subgraph "@ + id_text(path) + "[\""@ + label + "\"]\n"@ == "graph TD"@.push('\n')
            + ("    subgraph "@ + id_text(path) + "[\""@ + label + "\"]"@).push('\n'),
{
    reveal_strlit("graph TD\n    subgraph ");
    reveal_strlit("graph TD");
    reveal_strlit("    subgraph ");
    reveal_strlit("\"]");
    reveal_strlit("\"]\n");
    let id = id_text(path);
    let first = "graph TD"@.push('\n');
    let sub = "    subgraph "@;
    let q = "[\""@;
    let end = "\"]"@;
    assert("graph TD\n    subgraph "@ =~= first + sub);
    assert("\"]\n"@ =~= end.push('\n'));
    lemma_frame_parts(first, sub, id, q, label, end);
}

proof fn lemma_frame_parts(
    first: Seq<char>,
    sub: Seq<char>,
    id: Seq<char>,
    q: Seq<char>,
    label: Seq<char>,
    end: Seq<char>,
)
    ensures
        first + sub + id + q + label + end.push('\n') == first + (sub + id + q + label + end).push(
            '\n',
        ),
{
    assert(first + sub + id + q + label + end.push('\n') =~= first + (sub + id + q + label
        + end).push('\n'));
}

proof fn lemma_flat_subgraph(path: Seq<char>, name: Seq<char>)
    requires
        flat(path),
        flat(name),
    ensures
        flat(subgraph_row(path, name)),
{
    reveal_strlit("    subgraph ");
    reveal_strlit("[\"");
    reveal_strlit("\"]");
    reveal_strlit(" (");
    reveal_strlit(")");
    let label = name + " ("@ + path + ")"@;
    lemma_flat_between(name, " ("@, path, ")"@);
    lemma_flat_label(label);
    lemma_flat_id(path);
    lemma_flat_concat("    subgraph "@, id_text(path));
    lemma_flat_between("    subgraph "@ + id_text(path), "[\""@, escaped(label), "\"]"@);
}

proof fn lemma_flat_shown(a: AtomEntry)
    requires
        flat_atom(a),
    ensures
        flat(shown_file(a)),
        flat(a.name),
        flat("graph TD"@),
{
    reveal_strlit("?");
    reveal_strlit("graph TD");
}

proof fn lemma_frame(c: CatalogView, k: int)
    requires
        distinct_ids(c.atoms),
        0 <= k < c.atoms.len(),
    ensures
        whole(frame(c, c.atoms[k].id)),
        has_line(frame(c, c.atoms[k].id), "graph TD"@),
        has_line(
            frame(c, c.atoms[k].id),
            subgraph_row(shown_file(c.atoms[k]), c.atoms[k].name),
        ),
        flat_atom(c.atoms[k]) ==> forall|line: Seq<char>|
            flat(line) && has_line(frame(c, c.atoms[k].id), line) ==> line == "graph TD"@ || line
                == subgraph_row(shown_file(c.atoms[k]), c.atoms[k].name),
{
    let a = c.atoms[k];
    let path = shown_file(a);
    let row = subgraph_row(path, a.name);
    let first = "graph TD"@.push('\n');
    law_node(c.atoms, a.id);
    lemma_frame_text(path, escaped(a.name + " ("@ + path + ")"@));
    assert(frame(c, a.id) == first + row.push('\n'));
    lemma_one_row(first, "graph TD"@);
    lemma_one_row(row.push('\n'), row);
    lemma_whole_concat(first, row.push('\n'));
    lemma_line_front(first, row.push('\n'), "graph TD"@);
    lemma_line_back(first, row.push('\n'), row);
    if flat_atom(a) {
        lemma_flat_shown(a);
        lemma_flat_subgraph(path, a.name);
        assert forall|line: Seq<char>| flat(line) && has_line(frame(c, a.id), line) implies line
            == "graph TD"@ || line == row by {
            lemma_line_split(first, row.push('\n'), line);
        }
    }
}

/// That all parts of the view of a module are made of whole lines.
proof fn lemma_module_parts(c: CatalogView, k: int)
    requires
        distinct_ids(c.atoms),
        0 <= k < c.atoms.len(),
    ensures
        ({
            let module = c.atoms[k].id;
            let out = crossing_calls(c, module, Direction::Outgoing);
            let into = crossing_calls(c, module, Direction::Incoming);
            &&& whole(frame(c, module))
            &&& forall|v: Seq<char>|
                items(c, module).contains(v) ==> whole(#[trigger] item_line(c.atoms)(v))
            &&& whole(lines(items(c, module), item_line(c.atoms)))
            &&& whole("    end\n"@)
            &&& forall|v: Seq<char>|
                externals(c, module).contains(v) ==> whole(#[trigger] external_line(c.atoms)(v))
            &&& whole(lines(externals(c, module), external_line(c.atoms)))
            &&& forall|p: (Seq<char>, Seq<char>)|
                out.contains(p) ==> whole(#[trigger] crossing_line()(p))
            &&& whole(lines(out, crossing_line()))
            &&& forall|p: (Seq<char>, Seq<char>)|
                into.contains(p) ==> whole(#[trigger] crossing_line()(p))
            &&& whole(lines(into, crossing_line()))
        }),
{
    let module = c.atoms[k].id;
    let out = crossing_calls(c, module, Direction::Outgoing);
    let into = crossing_calls(c, module, Direction::Incoming);
    reveal_strlit("    end\n");
    lemma_frame(c, k);
    assert forall|v: Seq<char>| items(c, module).contains(v) implies whole(
        #[trigger] item_line(c.atoms)(v),
    ) by {
        lemma_linked(c, module, Direction::Outgoing, "contains"@, v);
        let i = choose|i: int| 0 <= i < c.atoms.len() && (#[trigger] c.atoms[i]).id == v;
        lemma_item_line(c.atoms, i);
    }
    lemma_lines_whole(items(c, module), item_line(c.atoms));
    assert forall|v: Seq<char>| externals(c, module).contains(v) implies whole(
        #[trigger] external_line(c.atoms)(v),
    ) by {
        lemma_externals(c, module, v);
        let i = choose|i: int| 0 <= i < c.atoms.len() && (#[trigger] c.atoms[i]).id == v;
        lemma_external_line(c.atoms, i);
    }
    lemma_lines_whole(externals(c, module), external_line(c.atoms));
    assert forall|p: (Seq<char>, Seq<char>)| out.contains(p) || into.contains(p) implies whole(
        #[trigger] crossing_line()(p),
    ) by {
        lemma_arrow(p.0, p.1);
    }
    lemma_lines_whole(out, crossing_line());
    lemma_lines_whole(into, crossing_line());
}

/// A text of six parts has the lines of its parts.
proof fn lemma_six_parts(
    a: Seq<char>,
    b: Seq<char>,
    c: Seq<char>,
    d: Seq<char>,
    e: Seq<char>,
    f: Seq<char>,
    line: Seq<char>,
)
    requires
        whole(a),
        whole(b),
        whole(c),
        whole(d),
        whole(e),
    ensures
        has_line(a, line) || has_line(b, line) || has_line(c, line) || has_line(d, line) || has_line(
            e,
            line,
        ) || has_line(f, line) ==> has_line(a + b + c + d + e + f, line),
        flat(line) && has_line(a + b + c + d + e + f, line) ==> has_line(a, line) || has_line(
            b,
            line,
        ) || has_line(c, line) || has_line(d, line) || has_line(e, line) || has_line(f, line),
{
    lemma_whole_concat(a, b);
    lemma_whole_concat(a + b, c);
    lemma_whole_concat(a + b + c, d);
    lemma_whole_concat(a + b + c + d, e);
    lemma_two_parts(a, b, line);
    lemma_two_parts(a + b, c, line);
    lemma_two_parts(a + b + c, d, line);
    lemma_two_parts(a + b + c + d, e, line);
    lemma_two_parts(a + b + c + d + e, f, line);
}

/// A text of two parts has the lines of its parts.
pub(crate) proof fn lemma_two_parts(a: Seq<char>, b: Seq<char>, line: Seq<char>)
    requires
        whole(a),
    ensures
        has_line(a, line) || has_line(b, line) ==> has_line(a + b, line),
        flat(line) && has_line(a + b, line) ==> has_line(a, line) || has_line(b, line),
{
    if has_line(a, line) {
        lemma_line_front(a, b, line);
    }
    if has_line(b, line) {
        lemma_line_back(a, b, line);
    }
    if flat(line) && has_line(a + b, line) {
        lemma_line_split(a, b, line);
    }
}

/// The view of a module has a line for each call between a function among its
/// items and a known atom outside, in either direction: an arrow from the caller
/// to the callee. The atom outside has a node with its name.
pub proof fn law_module_calls(c: CatalogView, k: int, x: Seq<char>, y: Seq<char>)
    requires
        distinct_ids(c.atoms),
        0 <= k < c.atoms.len(),
        calls_out(c, c.atoms[k].id, x, y) || calls_in(c, c.atoms[k].id, x, y),
    ensures
        has_line(module_text(c, c.atoms[k].id), call_row(x, y)),
        forall|i: int|
            0 <= i < c.atoms.len() && (#[trigger] c.atoms[i]).id == if calls_out(
                c,
                c.atoms[k].id,
                x,
                y,
            ) {
                y
            } else {
                x
            } ==> has_line(
                module_text(c, c.atoms[k].id),
                stadium_row(c.atoms[i].id, c.atoms[i].name),
            ),
{
    let module = c.atoms[k].id;
    let out = crossing_calls(c, module, Direction::Outgoing);
    let into = crossing_calls(c, module, Direction::Incoming);
    let exts = externals(c, module);
    let f = crossing_line();
    lemma_module_parts(c, k);
    lemma_crossing_calls(c, module, x, y);
    lemma_arrow(x, y);
    assert(f((x, y)) == arrow(x, y));
    if calls_out(c, module, x, y) {
        lemma_lines_has(out, f, (x, y), call_row(x, y));
    } else {
        lemma_lines_has(into, f, (x, y), call_row(x, y));
    }
    lemma_module_line(c, k, call_row(x, y));
    let outer = if calls_out(c, module, x, y) {
        y
    } else {
        x
    };
    let inner = if calls_out(c, module, x, y) {
        x
    } else {
        y
    };
    assert(connects(c, module, inner, outer));
    lemma_externals(c, module, outer);
    assert forall|i: int| 0 <= i < c.atoms.len() && (#[trigger] c.atoms[i]).id == outer implies
        has_line(module_text(c, module), stadium_row(c.atoms[i].id, c.atoms[i].name)) by {
        lemma_external_line(c.atoms, i);
        let row = stadium_row(c.atoms[i].id, c.atoms[i].name);
        lemma_lines_has(exts, external_line(c.atoms), outer, row);
        lemma_module_line(c, k, row);
    }
}

/// The lines of the view of a module are those of its parts.
proof fn lemma_module_line(c: CatalogView, k: int, line: Seq<char>)
    requires
        distinct_ids(c.atoms),
        0 <= k < c.atoms.len(),
    ensures
        ({
            let module = c.atoms[k].id;
            let parts = has_line(frame(c, module), line) || has_line(
                lines(items(c, module), item_line(c.atoms)),
                line,
            ) || has_line("    end\n"@, line) || has_line(
                lines(externals(c, module), external_line(c.atoms)),
                line,
            ) || has_line(
                lines(crossing_calls(c, module, Direction::Outgoing), crossing_line()),
                line,
            ) || has_line(
                lines(crossing_calls(c, module, Direction::Incoming), crossing_line()),
                line,
            );
            &&& parts ==> has_line(module_text(c, module), line)
            &&& flat(line) && has_line(module_text(c, module), line) ==> parts
        }),
{
    let module = c.atoms[k].id;
    lemma_module_parts(c, k);
    lemma_six_parts(
        frame(c, module),
        lines(items(c, module), item_line(c.atoms)),
        "    end\n"@,
        lines(externals(c, module), external_line(c.atoms)),
        lines(crossing_calls(c, module, Direction::Outgoing), crossing_line()),
        lines(crossing_calls(c, module, Direction::Incoming), crossing_line()),
        line,
    );
}

/// The view of a module shows the module as a box with its name and its file,
/// and each of its items with its kind and its name.
pub proof fn law_module_items(c: CatalogView, k: int, i: int)
    requires
        distinct_ids(c.atoms),
        0 <= k < c.atoms.len(),
        0 <= i < c.atoms.len(),
    ensures
        has_line(
            module_text(c, c.atoms[k].id),
            subgraph_row(shown_file(c.atoms[k]), c.atoms[k].name),
        ),
        related(c.relations, c.atoms[k].id, c.atoms[i].id, "contains"@) ==> has_line(
            module_text(c, c.atoms[k].id),
            item_row(c.atoms[i]),
        ),
{
    let module = c.atoms[k].id;
    lemma_frame(c, k);
    lemma_module_line(c, k, subgraph_row(shown_file(c.atoms[k]), c.atoms[k].name));
    if related(c.relations, module, c.atoms[i].id, "contains"@) {
        lemma_module_parts(c, k);
        lemma_linked(c, module, Direction::Outgoing, "contains"@, c.atoms[i].id);
        lemma_item_line(c.atoms, i);
        lemma_lines_has(items(c, module), item_line(c.atoms), c.atoms[i].id, item_row(c.atoms[i]));
        lemma_module_line(c, k, item_row(c.atoms[i]));
    }
}

/// The view of a module shows nothing else: each line is the first one, a line
/// of the box, or stands for an item, for a call that crosses the border or for
/// the atom outside that it connects.
pub proof fn law_module_only(c: CatalogView, k: int, line: Seq<char>)
    requires
        distinct_ids(c.atoms),
        flat_atoms(c.atoms),
        0 <= k < c.atoms.len(),
        flat(line),
        has_line(module_text(c, c.atoms[k].id), line),
    ensures
        line == "graph TD"@ || line == "    end"@ || line == subgraph_row(
            shown_file(c.atoms[k]),
            c.atoms[k].name,
        ) || (exists|i: int|
            0 <= i < c.atoms.len() && line == item_row(#[trigger] c.atoms[i]) && related(
                c.relations,
                c.atoms[k].id,
                c.atoms[i].id,
                "contains"@,
            )) || (exists|i: int|
            0 <= i < c.atoms.len() && line == stadium_row(
                (#[trigger] c.atoms[i]).id,
                c.atoms[i].name,
            ) && is_external(c, c.atoms[k].id, c.atoms[i].id)) || (exists|
            x: Seq<char>,
            y: Seq<char>,
        |
            line == #[trigger] call_row(x, y) && (calls_out(c, c.atoms[k].id, x, y) || calls_in(
                c,
                c.atoms[k].id,
                x,
                y,
            ))),
{
    let module = c.atoms[k].id;
    let out = crossing_calls(c, module, Direction::Outgoing);
    let into = crossing_calls(c, module, Direction::Incoming);
    assert(flat_atom(c.atoms[k]));
    lemma_module_parts(c, k);
    lemma_module_line(c, k, line);
    if has_line(frame(c, module), line) {
        lemma_frame(c, k);
    } else if has_line(lines(items(c, module), item_line(c.atoms)), line) {
        let v = lemma_lines_only(items(c, module), item_line(c.atoms), line);
        lemma_linked(c, module, Direction::Outgoing, "contains"@, v);
        let i = choose|i: int| 0 <= i < c.atoms.len() && (#[trigger] c.atoms[i]).id == v;
        assert(flat_atom(c.atoms[i]));
        lemma_item_line(c.atoms, i);
        assert(line == item_row(c.atoms[i]));
    } else if has_line("    end\n"@, line) {
        reveal_strlit("    end\n");
        reveal_strlit("    end");
        assert("    end\n"@ =~= "    end"@.push('\n'));
        lemma_one_row("    end\n"@, "    end"@);
    } else if has_line(lines(externals(c, module), external_line(c.atoms)), line) {
        let v = lemma_lines_only(externals(c, module), external_line(c.atoms), line);
        lemma_externals(c, module, v);
        let i = choose|i: int| 0 <= i < c.atoms.len() && (#[trigger] c.atoms[i]).id == v;
        assert(flat_atom(c.atoms[i]));
        lemma_external_line(c.atoms, i);
        assert(line == stadium_row(c.atoms[i].id, c.atoms[i].name));
    } else {
        let p = if has_line(lines(out, crossing_line()), line) {
            lemma_lines_only(out, crossing_line(), line)
        } else {
            lemma_lines_only(into, crossing_line(), line)
        };
        lemma_crossing_calls(c, module, p.0, p.1);
        lemma_flat_call(c, p.0, p.1);
        lemma_arrow(p.0, p.1);
        assert(line == call_row(p.0, p.1));
    }
}

/// The ends of a call stand on one line each.
pub(crate) proof fn lemma_flat_call(c: CatalogView, x: Seq<char>, y: Seq<char>)
    requires
        flat_atoms(c.atoms),
        is_call(c, x, y),
    ensures
        flat(x),
        flat(y),
{
    let i = choose|i: int| 0 <= i < c.atoms.len() && (#[trigger] c.atoms[i]).id == x;
    let j = choose|j: int| 0 <= j < c.atoms.len() && (#[trigger] c.atoms[j]).id == y;
    assert(flat_atom(c.atoms[i]));
    assert(flat_atom(c.atoms[j]));
}

} // verus!
