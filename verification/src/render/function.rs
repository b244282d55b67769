//! Function-zoom view: one function with its direct callers and callees.

use crate::error::{is_invalid, Result};
use crate::graph::catalog::{neighbors_of, node, AtomEntry, Catalog, CatalogView, Direction};
use crate::keys::{lists_keys, sort_keys, sorted_keys};
use crate::render::lines::{lemma_lines_step, lines};
use crate::render::lookup::{function_target, resolve_function};
use crate::render::util::{escape_label, escaped, id_text, mermaid_id, quoted};
use crate::text::str_eq;
use vstd::prelude::*;
use vstd::string::*;

verus! {

// ── What is drawn ────────────────────────────────────────────────────────────

/// The known atoms among the neighbours by relations of one kind.
pub open spec fn known_by(
    atoms: Seq<AtomEntry>,
    neighbors: Seq<(Seq<char>, Seq<char>)>,
    kind: Seq<char>,
) -> Seq<Seq<char>>
    decreases neighbors.len(),
{
    if neighbors.len() == 0 {
        Seq::empty()
    } else {
        let front = known_by(atoms, neighbors.drop_last(), kind);
        if neighbors.last().1 == kind && node(atoms, neighbors.last().0) is Some {
            front.push(neighbors.last().0)
        } else {
            front
        }
    }
}

/// The known atoms that relations of one kind connect with an atom.
pub open spec fn linked(
    c: CatalogView,
    id: Seq<char>,
    d: Direction,
    kind: Seq<char>,
) -> Seq<Seq<char>> {
    known_by(c.atoms, neighbors_of(c.relations, id, d), kind)
}

/// The name of an atom, or `?` for an unknown one.
pub open spec fn name_of(atoms: Seq<AtomEntry>, id: Seq<char>) -> Seq<char> {
    match node(atoms, id) {
        Some(a) => a.name,
        None => "?"@,
    }
}

/// A node with a plain box.
pub open spec fn boxed(id: Seq<char>, label: Seq<char>) -> Seq<char> {
    "    "@ + id_text(id) + "[\""@ + escaped(label) + "\"]\n"@
}

/// An arrow between two nodes.
pub open spec fn arrow(from: Seq<char>, to: Seq<char>) -> Seq<char> {
    "    "@ + id_text(from) + " --> "@ + id_text(to) + "\n"@
}

/// A caller, with its arrow to the function.
pub open spec fn caller_lines(
    atoms: Seq<AtomEntry>,
    center: Seq<char>,
) -> spec_fn(Seq<char>) -> Seq<char> {
    |id: Seq<char>| boxed(id, name_of(atoms, id)) + arrow(id, center)
}

/// A callee, with the arrow to it.
pub open spec fn callee_lines(
    atoms: Seq<AtomEntry>,
    center: Seq<char>,
) -> spec_fn(Seq<char>) -> Seq<char> {
    |id: Seq<char>| boxed(id, name_of(atoms, id)) + arrow(center, id)
}

/// The round node in the middle.
pub open spec fn center_line(id: Seq<char>, label: Seq<char>) -> Seq<char> {
    "    "@ + id_text(id) + "((\""@ + escaped(label) + "\"))\n"@
}

/// The view of one function.
pub open spec fn function_text(c: CatalogView, center: Seq<char>) -> Seq<char> {
    "graph TD\n"@ + center_line(center, "fn "@ + name_of(c.atoms, center) + " (target)"@) + lines(
        sorted_keys::<String>(linked(c, center, Direction::Incoming, "calls"@)),
        caller_lines(c.atoms, center),
    ) + lines(
        sorted_keys::<String>(linked(c, center, Direction::Outgoing, "calls"@)),
        callee_lines(c.atoms, center),
    )
}

// ── Drawing ──────────────────────────────────────────────────────────────────

/// The known atoms that relations of one kind connect with an atom, in
/// ascending order.
pub(crate) fn linked_ids(catalog: &Catalog, id: &str, direction: Direction, kind: &str) -> (r: Vec<
    String,
>)
    ensures
        r.deep_view() == sorted_keys::<String>(linked(catalog@, id@, direction, kind@)),
        lists_keys::<String>(r.deep_view(), linked(catalog@, id@, direction, kind@)),
{
    let neighbors = catalog.neighbors(id, direction);
    let ghost a = catalog@.atoms;
    let ghost v = neighbors.deep_view();
    let mut out: Vec<String> = Vec::new();
    let mut i: usize = 0;
    assert(v.take(0) =~= Seq::<(Seq<char>, Seq<char>)>::empty());
    assert(out.deep_view() =~= Seq::<Seq<char>>::empty());
    while i < neighbors.len()
        invariant
            i <= neighbors.len(),
            a == catalog@.atoms,
            v == neighbors.deep_view(),
            out.deep_view() == known_by(a, v.take(i as int), kind@),
        decreases neighbors.len() - i,
    {
        let ghost had = out.deep_view();
        assert(v[i as int] == neighbors[i as int].deep_view());
        assert(v.take(i + 1).drop_last() =~= v.take(i as int));
        assert(v.take(i + 1).last() == v[i as int]);
        if str_eq(neighbors[i].1.as_str(), kind) {
            if catalog.get_node(neighbors[i].0.as_str()).is_some() {
                out.push(neighbors[i].0.clone());
                assert(out.deep_view() =~= had.push(v[i as int].0));
            }
        }
        i += 1;
    }
    assert(v.take(neighbors.len() as int) =~= v);
    sort_keys(&out)
}

/// The name of an atom, or `?` for an unknown one.
pub(crate) fn node_name<'a>(catalog: &'a Catalog, id: &str) -> (r: &'a str)
    ensures
        r@ == name_of(catalog@.atoms, id@),
{
    match catalog.get_node(id) {
        Some(a) => a.name.as_str(),
        None => "?",
    }
}

/// Appends a node with a plain box.
pub(crate) fn push_boxed(out: &mut String, id: &str, label: &str)
    ensures
        final(out)@ == old(out)@ + boxed(id@, label@),
{
    let ghost had = out@;
    out.append("    ");
    out.append(mermaid_id(id).as_str());
    out.append("[\"");
    out.append(escape_label(label).as_str());
    out.append("\"]\n");
    assert(out@ =~= had + boxed(id@, label@));
}

/// Appends an arrow.
pub(crate) fn push_arrow(out: &mut String, from: &str, to: &str)
    ensures
        final(out)@ == old(out)@ + arrow(from@, to@),
{
    let ghost had = out@;
    out.append("    ");
    out.append(mermaid_id(from).as_str());
    out.append(" --> ");
    out.append(mermaid_id(to).as_str());
    out.append("\n");
    assert(out@ =~= had + arrow(from@, to@));
}

/// Appends the round node in the middle.
pub(crate) fn push_center(out: &mut String, id: &str, label: &str)
    ensures
        final(out)@ == old(out)@ + center_line(id@, label@),
{
    let ghost had = out@;
    out.append("    ");
    out.append(mermaid_id(id).as_str());
    out.append("((\"");
    out.append(escape_label(label).as_str());
    out.append("\"))\n");
    assert(out@ =~= had + center_line(id@, label@));
}

/// Draws one function with its direct callers and callees.
pub fn draw(catalog: &Catalog, center: &str) -> (r: String)
    ensures
        r@ == function_text(catalog@, center@),
{
    let ghost c = catalog@;
    let mut out = "graph TD\n".to_owned();
    let label = "fn ".to_owned().concat(node_name(catalog, center)).concat(" (target)");
    push_center(&mut out, center, label.as_str());
    let ghost top = out@;
    let callers = linked_ids(catalog, center, Direction::Incoming, "calls");
    let ghost xs = callers.deep_view();
    let ghost f = caller_lines(c.atoms, center@);
    let mut i: usize = 0;
    assert(xs.take(0) =~= Seq::<Seq<char>>::empty());
    assert(out@ =~= top + Seq::<char>::empty());
    while i < callers.len()
        invariant
            i <= callers.len(),
            c == catalog@,
            xs == callers.deep_view(),
            f == caller_lines(c.atoms, center@),
            out@ == top + lines(xs.take(i as int), f),
        decreases callers.len() - i,
    {
        let ghost before = out@;
        proof {
            lemma_lines_step(xs, f, i as int);
            assert(xs[i as int] == callers[i as int]@);
        }
        push_boxed(&mut out, callers[i].as_str(), node_name(catalog, callers[i].as_str()));
        push_arrow(&mut out, callers[i].as_str(), center);
        assert(out@ =~= before + f(xs[i as int]));
        i += 1;
        assert(out@ =~= top + lines(xs.take(i as int), f));
    }
    assert(xs.take(callers.len() as int) =~= xs);
    let ghost mid = out@;
    let callees = linked_ids(catalog, center, Direction::Outgoing, "calls");
    let ghost ys = callees.deep_view();
    let ghost g = callee_lines(c.atoms, center@);
    let mut i: usize = 0;
    assert(ys.take(0) =~= Seq::<Seq<char>>::empty());
    assert(out@ =~= mid + Seq::<char>::empty());
    while i < callees.len()
        invariant
            i <= callees.len(),
            c == catalog@,
            ys == callees.deep_view(),
            g == callee_lines(c.atoms, center@),
            out@ == mid + lines(ys.take(i as int), g),
        decreases callees.len() - i,
    {
        let ghost before = out@;
        proof {
            lemma_lines_step(ys, g, i as int);
            assert(ys[i as int] == callees[i as int]@);
        }
        push_boxed(&mut out, callees[i].as_str(), node_name(catalog, callees[i].as_str()));
        push_arrow(&mut out, center, callees[i].as_str());
        assert(out@ =~= before + g(ys[i as int]));
        i += 1;
        assert(out@ =~= mid + lines(ys.take(i as int), g));
    }
    assert(ys.take(callees.len() as int) =~= ys);
    out
}

/// Draws the function that a target means, with its direct callers and
/// callees.
pub fn render(catalog: &Catalog, target: &str) -> (r: Result<String>)
    ensures
        match function_target(catalog@.atoms, target@, quoted(target@)) {
            Ok(id) => r matches Ok(text) && text@ == function_text(catalog@, id),
            Err(detail) => is_invalid(r, detail),
        },
{
    match resolve_function(catalog, target) {
        Ok(id) => Ok(draw(catalog, id.as_str())),
        Err(e) => Err(e),
    }
}

} // verus!
