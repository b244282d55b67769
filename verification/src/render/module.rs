//! Module-zoom view: the items of one module, the functions elsewhere that
//! call into it, and those that it calls.

use crate::error::{is_invalid, Result};
use crate::graph::catalog::{node, AtomEntry, Catalog, CatalogView, Direction};
use crate::keys::{sort_keys, sorted_keys};
use crate::render::function::{arrow, linked, linked_ids, name_of, node_name, push_arrow};
use crate::render::lines::{lemma_lines_step, lines};
use crate::render::lookup::{module_target, resolve_module};
use crate::render::util::{escape_label, escaped, id_text, mermaid_id, quoted};
use crate::text::{contains_string, str_eq};
use vstd::prelude::*;
use vstd::string::*;

verus! {

// ── Kinds ────────────────────────────────────────────────────────────────────

/// The short word for a kind.
pub open spec fn kind_word(kind: Seq<char>) -> Seq<char> {
    if kind == "function"@ {
        "fn"@
    } else if kind == "struct"@ {
        "struct"@
    } else if kind == "trait"@ {
        "trait"@
    } else if kind == "impl"@ {
        "impl"@
    } else if kind == "enum"@ {
        "enum"@
    } else if kind == "type_alias"@ {
        "type"@
    } else if kind == "const"@ {
        "const"@
    } else if kind == "static"@ {
        "static"@
    } else if kind == "macro"@ {
        "macro"@
    } else {
        "?"@
    }
}

/// The short word for a kind.
pub fn short_kind(kind: &str) -> (r: &'static str)
    ensures
        r@ == kind_word(kind@),
{
    if str_eq(kind, "function") {
        "fn"
    } else if str_eq(kind, "struct") {
        "struct"
    } else if str_eq(kind, "trait") {
        "trait"
    } else if str_eq(kind, "impl") {
        "impl"
    } else if str_eq(kind, "enum") {
        "enum"
    } else if str_eq(kind, "type_alias") {
        "type"
    } else if str_eq(kind, "const") {
        "const"
    } else if str_eq(kind, "static") {
        "static"
    } else if str_eq(kind, "macro") {
        "macro"
    } else {
        "?"
    }
}

/// A node in the shape of its kind: rounded for types, a hexagon for traits, a
/// parallelogram for impls, a cylinder for values, a double frame for macros,
/// and a box for all else.
pub open spec fn shaped(kind: Seq<char>, id: Seq<char>, label: Seq<char>) -> Seq<char> {
    if kind == "struct"@ || kind == "enum"@ || kind == "type_alias"@ {
        id + "("@ + label + ")"@
    } else if kind == "trait"@ {
        id + "{{"@ + label + "}}"@
    } else if kind == "impl"@ {
        id + "[/"@ + label + "/]"@
    } else if kind == "const"@ || kind == "static"@ {
        id + "[("@ + label + ")]"@
    } else if kind == "macro"@ {
        id + "[["@ + label + "]]"@
    } else {
        id + "[\""@ + label + "\"]"@
    }
}

/// A node in the shape of its kind.
pub fn node_shape(kind: &str, id: &str, label: &str) -> (r: String)
    ensures
        r@ == shaped(kind@, id@, label@),
{
    let (open, close) = if str_eq(kind, "struct") || str_eq(kind, "enum") || str_eq(
        kind,
        "type_alias",
    ) {
        ("(", ")")
    } else if str_eq(kind, "trait") {
        ("{{", "}}")
    } else if str_eq(kind, "impl") {
        ("[/", "/]")
    } else if str_eq(kind, "const") || str_eq(kind, "static") {
        ("[(", ")]")
    } else if str_eq(kind, "macro") {
        ("[[", "]]")
    } else {
        ("[\"", "\"]")
    };
    id.to_owned().concat(open).concat(label).concat(close)
}

// ── What is drawn ────────────────────────────────────────────────────────────

/// The items of a module: the known atoms that it contains, by id.
pub open spec fn items(c: CatalogView, module: Seq<char>) -> Seq<Seq<char>> {
    sorted_keys::<String>(linked(c, module, Direction::Outgoing, "contains"@))
}

/// The kind of an atom; none for an unknown one.
pub open spec fn kind_of(atoms: Seq<AtomEntry>, id: Seq<char>) -> Option<Seq<char>> {
    match node(atoms, id) {
        Some(a) => Some(a.kind),
        None => None,
    }
}

/// Pairs of `item` with those of `others` that are not in the module. The item
/// comes first where its calls are outgoing.
pub open spec fn crossings(
    item: Seq<char>,
    others: Seq<Seq<char>>,
    inside: Seq<Seq<char>>,
    d: Direction,
) -> Seq<(Seq<char>, Seq<char>)>
    decreases others.len(),
{
    if others.len() == 0 {
        Seq::empty()
    } else {
        let front = crossings(item, others.drop_last(), inside, d);
        if inside.contains(others.last()) {
            front
        } else {
            front.push(
                match d {
                    Direction::Outgoing => (item, others.last()),
                    Direction::Incoming => (others.last(), item),
                },
            )
        }
    }
}

/// The calls that cross the border of a module, from or to the functions among
/// the first items: pairs of caller and callee.
pub open spec fn border_calls(
    c: CatalogView,
    list: Seq<Seq<char>>,
    inside: Seq<Seq<char>>,
    d: Direction,
) -> Seq<(Seq<char>, Seq<char>)>
    decreases list.len(),
{
    if list.len() == 0 {
        Seq::empty()
    } else {
        let front = border_calls(c, list.drop_last(), inside, d);
        if kind_of(c.atoms, list.last()) == Some("function"@) {
            front + crossings(
                list.last(),
                sorted_keys::<String>(linked(c, list.last(), d, "calls"@)),
                inside,
                d,
            )
        } else {
            front
        }
    }
}

/// The calls that cross the border of a module, in ascending order.
pub open spec fn crossing_calls(c: CatalogView, module: Seq<char>, d: Direction) -> Seq<
    (Seq<char>, Seq<char>),
> {
    sorted_keys::<(String, String)>(border_calls(c, items(c, module), items(c, module), d))
}

/// The ends outside the module.
pub open spec fn outer_ends(calls: Seq<(Seq<char>, Seq<char>)>, d: Direction) -> Seq<Seq<char>> {
    calls.map_values(
        |p: (Seq<char>, Seq<char>)|
            match d {
                Direction::Outgoing => p.1,
                Direction::Incoming => p.0,
            },
    )
}

/// A list without its repeats: each element where it first stands.
pub open spec fn firsts(s: Seq<Seq<char>>) -> Seq<Seq<char>>
    decreases s.len(),
{
    if s.len() == 0 {
        Seq::empty()
    } else {
        let front = firsts(s.drop_last());
        if front.contains(s.last()) {
            front
        } else {
            front.push(s.last())
        }
    }
}

/// The functions elsewhere that the module calls or that call into it.
pub open spec fn externals(c: CatalogView, module: Seq<char>) -> Seq<Seq<char>> {
    firsts(
        outer_ends(crossing_calls(c, module, Direction::Outgoing), Direction::Outgoing)
            + outer_ends(crossing_calls(c, module, Direction::Incoming), Direction::Incoming),
    )
}

/// The line of an item.
pub open spec fn item_line(atoms: Seq<AtomEntry>) -> spec_fn(Seq<char>) -> Seq<char> {
    |id: Seq<char>|
        match node(atoms, id) {
            Some(a) => "        "@ + shaped(
                a.kind,
                id_text(id),
                escaped(kind_word(a.kind) + " "@ + a.name),
            ) + "\n"@,
            None => Seq::empty(),
        }
}

/// The line of a function elsewhere.
pub open spec fn external_line(atoms: Seq<AtomEntry>) -> spec_fn(Seq<char>) -> Seq<char> {
    |id: Seq<char>| "    "@ + id_text(id) + "([\""@ + escaped(name_of(atoms, id)) + "\"])\n"@
}

/// The line of a call.
pub open spec fn crossing_line() -> spec_fn((Seq<char>, Seq<char>)) -> Seq<char> {
    |p: (Seq<char>, Seq<char>)| arrow(p.0, p.1)
}

/// The file of an atom, or `?` where it is not known.
pub open spec fn path_of(atoms: Seq<AtomEntry>, id: Seq<char>) -> Seq<char> {
    match node(atoms, id) {
        Some(a) => match a.file_path {
            Some(p) => p,
            None => "?"@,
        },
        None => "?"@,
    }
}

/// The head of the box around the items.
pub open spec fn frame(c: CatalogView, module: Seq<char>) -> Seq<char> {
    "graph TD\n    subgraph "@ + id_text(path_of(c.atoms, module)) + "[\""@ + escaped(
        name_of(c.atoms, module) + " ("@ + path_of(c.atoms, module) + ")"@,
    ) + "\"]\n"@
}

/// The view of one module.
pub open spec fn module_text(c: CatalogView, module: Seq<char>) -> Seq<char> {
    frame(c, module) + lines(items(c, module), item_line(c.atoms)) + "    end\n"@ + lines(
        externals(c, module),
        external_line(c.atoms),
    ) + lines(crossing_calls(c, module, Direction::Outgoing), crossing_line()) + lines(
        crossing_calls(c, module, Direction::Incoming),
        crossing_line(),
    )
}

/// A call that is drawn has one end among the items of the module and the
/// other elsewhere: calls within the module are not drawn.
pub proof fn law_calls_cross(
    c: CatalogView,
    list: Seq<Seq<char>>,
    inside: Seq<Seq<char>>,
    d: Direction,
    k: int,
)
    requires
        forall|i: int| 0 <= i < list.len() ==> inside.contains(#[trigger] list[i]),
        0 <= k < border_calls(c, list, inside, d).len(),
    ensures
        inside.contains(border_calls(c, list, inside, d)[k].0) <==> d is Outgoing,
        inside.contains(border_calls(c, list, inside, d)[k].1) <==> d is Incoming,
    decreases list.len(),
{
    let before = list.drop_last();
    let front = border_calls(c, before, inside, d);
    assert forall|i: int| 0 <= i < before.len() implies inside.contains(#[trigger] before[i]) by {
        assert(before[i] == list[i]);
    }
    if k < front.len() {
        law_calls_cross(c, before, inside, d, k);
    } else {
        assert(inside.contains(list[list.len() - 1]));
        let others = sorted_keys::<String>(linked(c, list.last(), d, "calls"@));
        lemma_crossings(list.last(), others, inside, d, k - front.len());
    }
}

proof fn lemma_crossings(
    item: Seq<char>,
    others: Seq<Seq<char>>,
    inside: Seq<Seq<char>>,
    d: Direction,
    k: int,
)
    requires
        inside.contains(item),
        0 <= k < crossings(item, others, inside, d).len(),
    ensures
        inside.contains(crossings(item, others, inside, d)[k].0) <==> d is Outgoing,
        inside.contains(crossings(item, others, inside, d)[k].1) <==> d is Incoming,
    decreases others.len(),
{
    let front = crossings(item, others.drop_last(), inside, d);
    if k < front.len() {
        lemma_crossings(item, others.drop_last(), inside, d, k);
    }
}

// ── Drawing ──────────────────────────────────────────────────────────────────

/// The calls that cross the border of a module, in ascending order.
fn find_crossings(catalog: &Catalog, inside: &Vec<String>, direction: Direction) -> (r: Vec<
    (String, String),
>)
    ensures
        r.deep_view() == sorted_keys::<(String, String)>(
            border_calls(catalog@, inside.deep_view(), inside.deep_view(), direction),
        ),
{
    let ghost c = catalog@;
    let ghost ins = inside.deep_view();
    let mut out: Vec<(String, String)> = Vec::new();
    let mut i: usize = 0;
    assert(ins.take(0) =~= Seq::<Seq<char>>::empty());
    assert(out.deep_view() =~= Seq::<(Seq<char>, Seq<char>)>::empty());
    while i < inside.len()
        invariant
            i <= inside.len(),
            c == catalog@,
            ins == inside.deep_view(),
            out.deep_view() == border_calls(c, ins.take(i as int), ins, direction),
        decreases inside.len() - i,
    {
        let ghost had = out.deep_view();
        let ghost item = ins[i as int];
        assert(item == inside[i as int]@);
        assert(ins.take(i + 1).drop_last() =~= ins.take(i as int));
        assert(ins.take(i + 1).last() == item);
        let is_function = match catalog.get_node(inside[i].as_str()) {
            Some(a) => str_eq(a.kind.as_str(), "function"),
            None => false,
        };
        if is_function {
            let others = linked_ids(catalog, inside[i].as_str(), direction, "calls");
            let ghost os = others.deep_view();
            let mut j: usize = 0;
            assert(os.take(0) =~= Seq::<Seq<char>>::empty());
            assert(had =~= had + Seq::<(Seq<char>, Seq<char>)>::empty());
            while j < others.len()
                invariant
                    j <= others.len(),
                    i < inside.len(),
                    ins == inside.deep_view(),
                    item == inside[i as int]@,
                    os == others.deep_view(),
                    out.deep_view() == had + crossings(item, os.take(j as int), ins, direction),
                decreases others.len() - j,
            {
                let ghost before = out.deep_view();
                let ghost o = os[j as int];
                assert(o == others[j as int]@);
                assert(os.take(j + 1).drop_last() =~= os.take(j as int));
                assert(os.take(j + 1).last() == o);
                if !contains_string(inside, others[j].as_str()) {
                    let pair = match direction {
                        Direction::Outgoing => (inside[i].clone(), others[j].clone()),
                        Direction::Incoming => (others[j].clone(), inside[i].clone()),
                    };
                    let ghost pv = pair.deep_view();
                    out.push(pair);
                    assert(out.deep_view() =~= before.push(pv));
                }
                j += 1;
                assert(out.deep_view() =~= had + crossings(item, os.take(j as int), ins, direction));
            }
            assert(os.take(others.len() as int) =~= os);
        }
        i += 1;
    }
    assert(ins.take(inside.len() as int) =~= ins);
    sort_keys(&out)
}

/// Appends the ends outside the module that are not yet in a list.
fn extend_externals(
    out: &mut Vec<String>,
    calls: &Vec<(String, String)>,
    direction: Direction,
    seen: Ghost<Seq<Seq<char>>>,
)
    requires
        old(out).deep_view() == firsts(seen@),
    ensures
        final(out).deep_view() == firsts(seen@ + outer_ends(calls.deep_view(), direction)),
{
    let ghost ends = outer_ends(calls.deep_view(), direction);
    let mut i: usize = 0;
    assert(seen@ + ends.take(0) =~= seen@);
    while i < calls.len()
        invariant
            i <= calls.len(),
            ends == outer_ends(calls.deep_view(), direction),
            out.deep_view() == firsts(seen@ + ends.take(i as int)),
        decreases calls.len() - i,
    {
        let ghost had = out.deep_view();
        assert(calls.deep_view()[i as int] == calls[i as int].deep_view());
        let end = match direction {
            Direction::Outgoing => &calls[i].1,
            Direction::Incoming => &calls[i].0,
        };
        assert(end@ == ends[i as int]);
        assert((seen@ + ends.take(i + 1)).drop_last() =~= seen@ + ends.take(i as int));
        assert((seen@ + ends.take(i + 1)).last() == ends[i as int]);
        if !contains_string(out, end.as_str()) {
            out.push(end.clone());
            assert(out.deep_view() =~= had.push(end@));
        }
        i += 1;
    }
    assert(ends.take(calls.len() as int) =~= ends);
}

/// Appends the lines of the items.
fn push_items(out: &mut String, catalog: &Catalog, inside: &Vec<String>)
    ensures
        final(out)@ == old(out)@ + lines(inside.deep_view(), item_line(catalog@.atoms)),
{
    let ghost had = out@;
    let ghost ins = inside.deep_view();
    let ghost f = item_line(catalog@.atoms);
    let mut i: usize = 0;
    assert(ins.take(0) =~= Seq::<Seq<char>>::empty());
    assert(out@ =~= had + Seq::<char>::empty());
    while i < inside.len()
        invariant
            i <= inside.len(),
            ins == inside.deep_view(),
            f == item_line(catalog@.atoms),
            out@ == had + lines(ins.take(i as int), f),
        decreases inside.len() - i,
    {
        let ghost before = out@;
        proof {
            lemma_lines_step(ins, f, i as int);
            assert(ins[i as int] == inside[i as int]@);
        }
        if let Some(atom) = catalog.get_node(inside[i].as_str()) {
            let words = short_kind(atom.kind.as_str()).to_owned().concat(" ").concat(
                atom.name.as_str(),
            );
            let shape = node_shape(
                atom.kind.as_str(),
                mermaid_id(inside[i].as_str()).as_str(),
                escape_label(words.as_str()).as_str(),
            );
            out.append("        ");
            out.append(shape.as_str());
            out.append("\n");
            assert(out@ =~= before + f(ins[i as int]));
        } else {
            assert(out@ =~= before + f(ins[i as int]));
        }
        i += 1;
        assert(out@ =~= had + lines(ins.take(i as int), f));
    }
    assert(ins.take(inside.len() as int) =~= ins);
}

/// Appends the lines of the functions elsewhere.
fn push_externals(out: &mut String, catalog: &Catalog, list: &Vec<String>)
    ensures
        final(out)@ == old(out)@ + lines(list.deep_view(), external_line(catalog@.atoms)),
{
    let ghost had = out@;
    let ghost ls = list.deep_view();
    let ghost f = external_line(catalog@.atoms);
    let mut i: usize = 0;
    assert(ls.take(0) =~= Seq::<Seq<char>>::empty());
    assert(out@ =~= had + Seq::<char>::empty());
    while i < list.len()
        invariant
            i <= list.len(),
            ls == list.deep_view(),
            f == external_line(catalog@.atoms),
            out@ == had + lines(ls.take(i as int), f),
        decreases list.len() - i,
    {
        let ghost before = out@;
        proof {
            lemma_lines_step(ls, f, i as int);
            assert(ls[i as int] == list[i as int]@);
        }
        out.append("    ");
        out.append(mermaid_id(list[i].as_str()).as_str());
        out.append("([\"");
        out.append(escape_label(node_name(catalog, list[i].as_str())).as_str());
        out.append("\"])\n");
        assert(out@ =~= before + f(ls[i as int]));
        i += 1;
        assert(out@ =~= had + lines(ls.take(i as int), f));
    }
    assert(ls.take(list.len() as int) =~= ls);
}

/// Appends one arrow for each pair.
pub(crate) fn push_pairs(out: &mut String, pairs: &Vec<(String, String)>)
    ensures
        final(out)@ == old(out)@ + lines(pairs.deep_view(), crossing_line()),
{
    let ghost had = out@;
    let ghost ps = pairs.deep_view();
    let ghost f = crossing_line();
    let mut i: usize = 0;
    assert(ps.take(0) =~= Seq::<(Seq<char>, Seq<char>)>::empty());
    assert(out@ =~= had + Seq::<char>::empty());
    while i < pairs.len()
        invariant
            i <= pairs.len(),
            ps == pairs.deep_view(),
            f == crossing_line(),
            out@ == had + lines(ps.take(i as int), f),
        decreases pairs.len() - i,
    {
        let ghost before = out@;
        proof {
            lemma_lines_step(ps, f, i as int);
            assert(ps[i as int] == pairs[i as int].deep_view());
        }
        push_arrow(out, pairs[i].0.as_str(), pairs[i].1.as_str());
        assert(out@ =~= before + f(ps[i as int]));
        i += 1;
        assert(out@ =~= had + lines(ps.take(i as int), f));
    }
    assert(ps.take(pairs.len() as int) =~= ps);
}

/// Draws one module: its items in a box, the functions elsewhere that it calls
/// or that call into it, and these calls.
pub fn draw(catalog: &Catalog, module: &str) -> (r: String)
    ensures
        r@ == module_text(catalog@, module@),
{
    let ghost c = catalog@;
    let path = match catalog.get_node(module) {
        Some(a) => match &a.file_path {
            Some(p) => p.as_str(),
            None => "?",
        },
        None => "?",
    };
    let title = node_name(catalog, module).to_owned().concat(" (").concat(path).concat(")");
    let mut out = "graph TD\n    subgraph ".to_owned();
    out.append(mermaid_id(path).as_str());
    out.append("[\"");
    out.append(escape_label(title.as_str()).as_str());
    out.append("\"]\n");
    assert(out@ =~= frame(c, module@));
    let inside = linked_ids(catalog, module, Direction::Outgoing, "contains");
    push_items(&mut out, catalog, &inside);
    out.append("    end\n");
    let outgoing = find_crossings(catalog, &inside, Direction::Outgoing);
    let incoming = find_crossings(catalog, &inside, Direction::Incoming);
    let mut list: Vec<String> = Vec::new();
    assert(list.deep_view() =~= firsts(Seq::empty()));
    extend_externals(&mut list, &outgoing, Direction::Outgoing, Ghost(Seq::empty()));
    let ghost seen = outer_ends(outgoing.deep_view(), Direction::Outgoing);
    assert(Seq::<Seq<char>>::empty() + seen =~= seen);
    extend_externals(&mut list, &incoming, Direction::Incoming, Ghost(seen));
    push_externals(&mut out, catalog, &list);
    push_pairs(&mut out, &outgoing);
    push_pairs(&mut out, &incoming);
    out
}

/// Draws the module that a target means.
pub fn render(catalog: &Catalog, target: &str) -> (r: Result<String>)
    ensures
        match module_target(catalog@.atoms, target@, quoted(target@)) {
            Ok(id) => r matches Ok(text) && text@ == module_text(catalog@, id),
            Err(detail) => is_invalid(r, detail),
        },
{
    match resolve_module(catalog, target) {
        Ok(id) => Ok(draw(catalog, id.as_str())),
        Err(e) => Err(e),
    }
}

} // verus!
