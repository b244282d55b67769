//! Impact view: the functions from which a call chain leads to a function.

use crate::error::{is_invalid, Result};
use crate::graph::catalog::{AtomEntry, Catalog, CatalogView};
use crate::keys::{lists_keys, sort_keys, sorted_keys};
use crate::render::function::{boxed, center_line, name_of, node_name, push_boxed, push_center};
use crate::render::lines::{lemma_lines_step, lines};
use crate::render::lookup::{function_target, resolve_function};
use crate::render::module::{crossing_line, push_pairs};
use crate::render::util::quoted;
use crate::text::str_eq;
use vstd::prelude::*;
use vstd::string::*;

verus! {

/// Default depth of the walk back.
pub const DEFAULT_HOPS: u8 = 3;

// ── What is drawn ────────────────────────────────────────────────────────────

/// The calls along a path that leads from a function back to its callers:
/// pairs of a caller and the function that it calls.
pub open spec fn path_calls(path: Seq<Seq<char>>) -> Seq<(Seq<char>, Seq<char>)>
    decreases path.len(),
{
    if path.len() <= 1 {
        Seq::empty()
    } else {
        path_calls(path.drop_last()).push((path.last(), path[path.len() - 2]))
    }
}

/// The calls along several paths.
pub open spec fn paths_calls(paths: Seq<Seq<Seq<char>>>) -> Seq<(Seq<char>, Seq<char>)>
    decreases paths.len(),
{
    if paths.len() == 0 {
        Seq::empty()
    } else {
        paths_calls(paths.drop_last()) + path_calls(paths.last())
    }
}

/// The callers among a list of calls.
pub open spec fn callers_in(calls: Seq<(Seq<char>, Seq<char>)>) -> Seq<Seq<char>> {
    calls.map_values(|p: (Seq<char>, Seq<char>)| p.0)
}

/// The line of a function other than the target.
pub open spec fn impact_line(
    atoms: Seq<AtomEntry>,
    target: Seq<char>,
) -> spec_fn(Seq<char>) -> Seq<char> {
    |id: Seq<char>|
        if id == target {
            Seq::empty()
        } else {
            boxed(id, name_of(atoms, id))
        }
}

/// The impact view: the target, each caller on a path once, and each call on a
/// path once.
pub open spec fn impact_text(
    c: CatalogView,
    target: Seq<char>,
    paths: Seq<Seq<Seq<char>>>,
) -> Seq<char> {
    "graph BT\n"@ + center_line(target, "fn "@ + name_of(c.atoms, target) + " (impacted)"@) + lines(
        sorted_keys::<String>(callers_in(paths_calls(paths))),
        impact_line(c.atoms, target),
    ) + lines(sorted_keys::<(String, String)>(paths_calls(paths)), crossing_line())
}

/// Without a path of two functions only the target is drawn.
pub proof fn law_no_callers(c: CatalogView, target: Seq<char>)
    ensures
        impact_text(c, target, Seq::empty()) == "graph BT\n"@ + center_line(
            target,
            "fn "@ + name_of(c.atoms, target) + " (impacted)"@,
        ),
{
    let none = Seq::<Seq<Seq<char>>>::empty();
    let no_ids = callers_in(paths_calls(none));
    let no_calls = paths_calls(none);
    assert(no_ids =~= Seq::<Seq<char>>::empty());
    assert(lists_keys::<String>(Seq::<Seq<char>>::empty(), no_ids));
    crate::keys::law_sorted_keys_unique::<String>(Seq::<Seq<char>>::empty(), no_ids);
    assert(lists_keys::<(String, String)>(Seq::<(Seq<char>, Seq<char>)>::empty(), no_calls));
    crate::keys::law_sorted_keys_unique::<(String, String)>(
        Seq::<(Seq<char>, Seq<char>)>::empty(),
        no_calls,
    );
    assert(impact_text(c, target, none) =~= "graph BT\n"@ + center_line(
        target,
        "fn "@ + name_of(c.atoms, target) + " (impacted)"@,
    ));
}

// ── Drawing ──────────────────────────────────────────────────────────────────

/// Appends the calls along a path.
fn extend_calls(out: &mut Vec<(String, String)>, path: &Vec<String>)
    ensures
        final(out).deep_view() == old(out).deep_view() + path_calls(path.deep_view()),
{
    let ghost had = out.deep_view();
    let ghost p = path.deep_view();
    if path.len() == 0 {
        assert(out.deep_view() =~= had + path_calls(p));
        return;
    }
    let mut i: usize = 1;
    assert(p.take(1).len() == 1);
    assert(out.deep_view() =~= had + path_calls(p.take(1)));
    while i < path.len()
        invariant
            1 <= i <= path.len(),
            p == path.deep_view(),
            out.deep_view() == had + path_calls(p.take(i as int)),
        decreases path.len() - i,
    {
        let ghost before = out.deep_view();
        assert(p.take(i + 1).drop_last() =~= p.take(i as int));
        assert(p.take(i + 1).last() == path[i as int]@);
        assert(p.take(i + 1)[i - 1] == path[i - 1]@);
        out.push((path[i].clone(), path[i - 1].clone()));
        assert(out.deep_view() =~= before.push((path[i as int]@, path[i - 1]@)));
        i += 1;
        assert(out.deep_view() =~= had + path_calls(p.take(i as int)));
    }
    assert(p.take(path.len() as int) =~= p);
}

/// The calls along several paths.
fn collect_calls(paths: &Vec<Vec<String>>) -> (r: Vec<(String, String)>)
    ensures
        r.deep_view() == paths_calls(paths.deep_view()),
{
    let ghost v = paths.deep_view();
    let mut out: Vec<(String, String)> = Vec::new();
    let mut i: usize = 0;
    assert(v.take(0) =~= Seq::<Seq<Seq<char>>>::empty());
    assert(out.deep_view() =~= Seq::<(Seq<char>, Seq<char>)>::empty());
    while i < paths.len()
        invariant
            i <= paths.len(),
            v == paths.deep_view(),
            out.deep_view() == paths_calls(v.take(i as int)),
        decreases paths.len() - i,
    {
        assert(v[i as int] == paths[i as int].deep_view());
        assert(v.take(i + 1).drop_last() =~= v.take(i as int));
        assert(v.take(i + 1).last() == v[i as int]);
        extend_calls(&mut out, &paths[i]);
        i += 1;
    }
    assert(v.take(paths.len() as int) =~= v);
    out
}

/// The callers among a list of calls.
fn collect_callers(calls: &Vec<(String, String)>) -> (r: Vec<String>)
    ensures
        r.deep_view() == callers_in(calls.deep_view()),
{
    let ghost want = callers_in(calls.deep_view());
    let mut out: Vec<String> = Vec::new();
    let mut i: usize = 0;
    assert(out.deep_view() =~= want.take(0));
    while i < calls.len()
        invariant
            i <= calls.len(),
            want == callers_in(calls.deep_view()),
            out.deep_view() == want.take(i as int),
        decreases calls.len() - i,
    {
        let ghost had = out.deep_view();
        out.push(calls[i].0.clone());
        assert(out.deep_view() =~= had.push(calls[i as int].0@));
        i += 1;
        assert(out.deep_view() =~= want.take(i as int));
    }
    assert(want.take(calls.len() as int) =~= want);
    out
}

/// Draws a function and the call chains that lead to it. Each path starts at
/// the function and goes from callee to caller.
pub fn draw(catalog: &Catalog, target: &str, paths: &Vec<Vec<String>>) -> (r: String)
    ensures
        r@ == impact_text(catalog@, target@, paths.deep_view()),
{
    let ghost c = catalog@;
    let mut out = "graph BT\n".to_owned();
    let label = "fn ".to_owned().concat(node_name(catalog, target)).concat(" (impacted)");
    push_center(&mut out, target, label.as_str());
    let ghost top = out@;
    let calls = collect_calls(paths);
    let callers = collect_callers(&calls);
    let ids = sort_keys(&callers);
    let ghost v = ids.deep_view();
    let ghost f = impact_line(c.atoms, target@);
    let mut i: usize = 0;
    assert(v.take(0) =~= Seq::<Seq<char>>::empty());
    assert(out@ =~= top + Seq::<char>::empty());
    while i < ids.len()
        invariant
            i <= ids.len(),
            c == catalog@,
            v == ids.deep_view(),
            f == impact_line(c.atoms, target@),
            out@ == top + lines(v.take(i as int), f),
        decreases ids.len() - i,
    {
        let ghost before = out@;
        proof {
            lemma_lines_step(v, f, i as int);
            assert(v[i as int] == ids[i as int]@);
        }
        if !str_eq(ids[i].as_str(), target) {
            push_boxed(&mut out, ids[i].as_str(), node_name(catalog, ids[i].as_str()));
            assert(out@ =~= before + f(v[i as int]));
        } else {
            assert(out@ =~= before + f(v[i as int]));
        }
        i += 1;
        assert(out@ =~= top + lines(v.take(i as int), f));
    }
    assert(v.take(ids.len() as int) =~= v);
    let edges = sort_keys(&calls);
    push_pairs(&mut out, &edges);
    out
}

/// Draws the function that a target means and the call chains in `paths` that
/// lead to it.
pub fn render(catalog: &Catalog, target: &str, paths: &Vec<Vec<String>>) -> (r: Result<String>)
    ensures
        match function_target(catalog@.atoms, target@, quoted(target@)) {
            Ok(id) => r matches Ok(text) && text@ == impact_text(catalog@, id, paths.deep_view()),
            Err(detail) => is_invalid(r, detail),
        },
{
    match resolve_function(catalog, target) {
        Ok(id) => Ok(draw(catalog, id.as_str(), paths)),
        Err(e) => Err(e),
    }
}

} // verus!
