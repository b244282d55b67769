//! What the impact view shows of a graph, line by line.

use crate::graph::catalog::{distinct_ids, known, law_node, AtomEntry, CatalogView};
use crate::graph::memory::calls;
use crate::graph::reach::{closer, law_walk_reaches, law_walk_records, list_at, walk, within};
use crate::keys::{law_sorted_keys, lemma_push_contains, sorted_keys};
use crate::model::EdgeView;
use crate::render::detail::{steps, steps_of, walk_steps};
use crate::render::function::{center_line, name_of};
use crate::render::impact::{callers_in, impact_line, impact_text, path_calls, paths_calls};
use crate::render::laws::{
    box_row, call_row, flat_atom, flat_atoms, lemma_arrow, lemma_boxed, lemma_center_line,
    lemma_contains_concat, lemma_two_parts, round_row,
};
use crate::render::lines::lines;
use crate::render::module::crossing_line;
use crate::render::rows::{
    flat, has_line, lemma_flat_concat, lemma_lines_has, lemma_lines_only, lemma_lines_whole,
    lemma_no_row, lemma_one_row, lemma_whole_concat, whole,
};
use vstd::prelude::*;

verus! {

// ── Paths ────────────────────────────────────────────────────────────────────

/// Whether a path goes from a function directly back to one that calls it.
pub open spec fn goes_back(path: Seq<Seq<char>>, callee: Seq<char>, caller: Seq<char>) -> bool {
    exists|j: int| 0 <= j < path.len() - 1 && #[trigger] path[j] == callee && path[j + 1] == caller
}

/// Whether one of several paths does.
pub open spec fn some_goes_back(
    paths: Seq<Seq<Seq<char>>>,
    callee: Seq<char>,
    caller: Seq<char>,
) -> bool {
    exists|i: int| 0 <= i < paths.len() && goes_back(#[trigger] paths[i], callee, caller)
}

proof fn lemma_path_calls(path: Seq<Seq<char>>, x: Seq<char>, y: Seq<char>)
    ensures
        path_calls(path).contains((x, y)) <==> goes_back(path, y, x),
    decreases path.len(),
{
    if path.len() > 1 {
        let front = path.drop_last();
        let n = path.len() - 2;
        lemma_path_calls(front, x, y);
        lemma_push_contains(path_calls(front), (path.last(), path[n]));
        if goes_back(front, y, x) {
            let j = choose|j: int|
                0 <= j < front.len() - 1 && #[trigger] front[j] == y && front[j + 1] == x;
            assert(path[j] == y && path[j + 1] == x);
        }
        if goes_back(path, y, x) {
            let j = choose|j: int|
                0 <= j < path.len() - 1 && #[trigger] path[j] == y && path[j + 1] == x;
            if j < n {
                assert(front[j] == y && front[j + 1] == x);
            }
        }
        if (path.last(), path[n]) == (x, y) {
            assert(path[n] == y && path[n + 1] == x);
        }
    }
}

proof fn lemma_paths_calls(paths: Seq<Seq<Seq<char>>>, x: Seq<char>, y: Seq<char>)
    ensures
        paths_calls(paths).contains((x, y)) <==> some_goes_back(paths, y, x),
    decreases paths.len(),
{
    if paths.len() > 0 {
        let front = paths.drop_last();
        let last = paths[paths.len() - 1];
        lemma_paths_calls(front, x, y);
        lemma_path_calls(last, x, y);
        lemma_contains_concat(paths_calls(front), path_calls(last), (x, y));
        if some_goes_back(front, y, x) {
            let i = choose|i: int| 0 <= i < front.len() && goes_back(#[trigger] front[i], y, x);
            assert(paths[i] == front[i]);
        }
        if some_goes_back(paths, y, x) {
            let i = choose|i: int| 0 <= i < paths.len() && goes_back(#[trigger] paths[i], y, x);
            if i < front.len() {
                assert(front[i] == paths[i]);
            }
        }
    }
}

/// Whether a function is on a path behind another one.
pub open spec fn is_caller(paths: Seq<Seq<Seq<char>>>, x: Seq<char>) -> bool {
    exists|y: Seq<char>| #[trigger] some_goes_back(paths, y, x)
}

proof fn lemma_callers(paths: Seq<Seq<Seq<char>>>, x: Seq<char>)
    ensures
        callers_in(paths_calls(paths)).contains(x) <==> is_caller(paths, x),
{
    let cs = paths_calls(paths);
    let ids = callers_in(cs);
    if ids.contains(x) {
        let i = choose|i: int| 0 <= i < ids.len() && ids[i] == x;
        assert(cs.contains(cs[i]));
        lemma_paths_calls(paths, cs[i].0, cs[i].1);
        assert(some_goes_back(paths, cs[i].1, x));
    }
    if is_caller(paths, x) {
        let y = choose|y: Seq<char>| #[trigger] some_goes_back(paths, y, x);
        lemma_paths_calls(paths, x, y);
        let i = choose|i: int| 0 <= i < cs.len() && cs[i] == (x, y);
        assert(ids[i] == x);
    }
}

// ── Parts ────────────────────────────────────────────────────────────────────

/// The lines of the impact view are those of its parts.
proof fn lemma_impact_parts(
    c: CatalogView,
    target: Seq<char>,
    paths: Seq<Seq<Seq<char>>>,
    line: Seq<char>,
)
    ensures
        ({
            let ids = sorted_keys::<String>(callers_in(paths_calls(paths)));
            let cs = sorted_keys::<(String, String)>(paths_calls(paths));
            let label = "fn "@ + name_of(c.atoms, target) + " (impacted)"@;
            let parts = line == "graph BT"@ || has_line(center_line(target, label), line)
                || has_line(lines(ids, impact_line(c.atoms, target)), line) || has_line(
                lines(cs, crossing_line()),
                line,
            );
            &&& forall|v: Seq<char>| whole(#[trigger] impact_line(c.atoms, target)(v))
            &&& forall|p: (Seq<char>, Seq<char>)| whole(#[trigger] crossing_line()(p))
            &&& parts ==> has_line(impact_text(c, target, paths), line)
            &&& flat(line) && has_line(impact_text(c, target, paths), line) ==> parts
        }),
{
    let ids = sorted_keys::<String>(callers_in(paths_calls(paths)));
    let cs = sorted_keys::<(String, String)>(paths_calls(paths));
    let label = "fn "@ + name_of(c.atoms, target) + " (impacted)"@;
    let f = impact_line(c.atoms, target);
    let g = crossing_line();
    assert forall|v: Seq<char>| whole(#[trigger] f(v)) by {
        lemma_boxed(v, name_of(c.atoms, v));
        lemma_no_row(line);
    }
    assert forall|p: (Seq<char>, Seq<char>)| whole(#[trigger] g(p)) by {
        lemma_arrow(p.0, p.1);
    }
    lemma_lines_whole(ids, f);
    lemma_lines_whole(cs, g);
    reveal_strlit("graph BT");
    reveal_strlit("graph BT\n");
    assert("graph BT\n"@ =~= "graph BT"@.push('\n'));
    lemma_one_row("graph BT\n"@, "graph BT"@);
    let a = "graph BT\n"@;
    let b = center_line(target, label);
    lemma_center_line(target, label);
    lemma_whole_concat(a, b);
    lemma_whole_concat(a + b, lines(ids, f));
    lemma_two_parts(a, b, line);
    lemma_two_parts(a + b, lines(ids, f), line);
    lemma_two_parts(a + b + lines(ids, f), lines(cs, g), line);
}

/// The impact view has a line for each step of a path that goes back from a
/// function to one that calls it: an arrow from the caller to the callee. The
/// caller has a box with its name, and the target is a round node.
pub proof fn law_impact_steps(
    c: CatalogView,
    target: Seq<char>,
    paths: Seq<Seq<Seq<char>>>,
    i: int,
    j: int,
)
    requires
        0 <= i < paths.len(),
        0 <= j < paths[i].len() - 1,
    ensures
        has_line(impact_text(c, target, paths), call_row(paths[i][j + 1], paths[i][j])),
        paths[i][j + 1] != target ==> has_line(
            impact_text(c, target, paths),
            box_row(paths[i][j + 1], name_of(c.atoms, paths[i][j + 1])),
        ),
{
    let y = paths[i][j];
    let x = paths[i][j + 1];
    let ids = sorted_keys::<String>(callers_in(paths_calls(paths)));
    let cs = sorted_keys::<(String, String)>(paths_calls(paths));
    assert(goes_back(paths[i], y, x));
    assert(some_goes_back(paths, y, x));
    lemma_paths_calls(paths, x, y);
    lemma_callers(paths, x);
    law_sorted_keys::<String>(callers_in(paths_calls(paths)));
    law_sorted_keys::<(String, String)>(paths_calls(paths));
    assert(ids.contains(x) <==> callers_in(paths_calls(paths)).contains(x));
    assert(cs.contains((x, y)) <==> paths_calls(paths).contains((x, y)));
    lemma_impact_parts(c, target, paths, call_row(x, y));
    lemma_arrow(x, y);
    assert(crossing_line()((x, y)) == crate::render::function::arrow(x, y));
    lemma_lines_has(cs, crossing_line(), (x, y), call_row(x, y));
    if x != target {
        let row = box_row(x, name_of(c.atoms, x));
        lemma_impact_parts(c, target, paths, row);
        lemma_boxed(x, name_of(c.atoms, x));
        lemma_lines_has(ids, impact_line(c.atoms, target), x, row);
    }
}

/// Whether all ids on the paths stand on one line each.
pub open spec fn flat_paths(paths: Seq<Seq<Seq<char>>>) -> bool {
    forall|i: int, j: int| 0 <= i < paths.len() && 0 <= j < paths[i].len() ==> flat(
        #[trigger] paths[i][j],
    )
}

/// The impact view shows nothing else: each line is the first one, that of the
/// target, or stands for a step of a path or for the caller of one.
pub proof fn law_impact_only(
    c: CatalogView,
    k: int,
    paths: Seq<Seq<Seq<char>>>,
    line: Seq<char>,
)
    requires
        distinct_ids(c.atoms),
        flat_atoms(c.atoms),
        0 <= k < c.atoms.len(),
        flat_paths(paths),
        flat(line),
        has_line(impact_text(c, c.atoms[k].id, paths), line),
    ensures
        line == "graph BT"@ || line == round_row(
            c.atoms[k].id,
            "fn "@ + c.atoms[k].name + " (impacted)"@,
        ) || (exists|x: Seq<char>, y: Seq<char>| #[trigger]
            some_goes_back(paths, y, x) && (line == call_row(x, y) || x != c.atoms[k].id && line
                == box_row(x, name_of(c.atoms, x)))),
{
    let target = c.atoms[k].id;
    let ids = sorted_keys::<String>(callers_in(paths_calls(paths)));
    let cs = sorted_keys::<(String, String)>(paths_calls(paths));
    let label = "fn "@ + c.atoms[k].name + " (impacted)"@;
    assert(flat_atom(c.atoms[k]));
    law_node(c.atoms, target);
    law_sorted_keys::<String>(callers_in(paths_calls(paths)));
    law_sorted_keys::<(String, String)>(paths_calls(paths));
    lemma_impact_parts(c, target, paths, line);
    if line == "graph BT"@ {
    } else if has_line(center_line(target, label), line) {
        reveal_strlit("fn ");
        reveal_strlit(" (impacted)");
        lemma_flat_concat("fn "@, c.atoms[k].name);
        lemma_flat_concat("fn "@ + c.atoms[k].name, " (impacted)"@);
        lemma_center_line(target, label);
    } else if has_line(lines(ids, impact_line(c.atoms, target)), line) {
        let x = lemma_lines_only(ids, impact_line(c.atoms, target), line);
        assert(callers_in(paths_calls(paths)).contains(x));
        lemma_callers(paths, x);
        let y = choose|y: Seq<char>| #[trigger] some_goes_back(paths, y, x);
        lemma_no_row(line);
        lemma_flat_step(paths, y, x);
        lemma_flat_name(c.atoms, x);
        lemma_boxed(x, name_of(c.atoms, x));
        assert(some_goes_back(paths, y, x));
    } else {
        let p = lemma_lines_only(cs, crossing_line(), line);
        assert(paths_calls(paths).contains(p));
        lemma_paths_calls(paths, p.0, p.1);
        lemma_flat_step(paths, p.1, p.0);
        lemma_arrow(p.0, p.1);
        assert(some_goes_back(paths, p.1, p.0));
    }
}

proof fn lemma_flat_step(paths: Seq<Seq<Seq<char>>>, y: Seq<char>, x: Seq<char>)
    requires
        flat_paths(paths),
        some_goes_back(paths, y, x),
    ensures
        flat(x),
        flat(y),
{
    let i = choose|i: int| 0 <= i < paths.len() && goes_back(#[trigger] paths[i], y, x);
    let j = choose|j: int|
        0 <= j < paths[i].len() - 1 && #[trigger] paths[i][j] == y && paths[i][j + 1] == x;
    assert(flat(paths[i][j]));
    assert(flat(paths[i][j + 1]));
}

proof fn lemma_flat_name(atoms: Seq<AtomEntry>, id: Seq<char>)
    requires
        distinct_ids(atoms),
        flat_atoms(atoms),
    ensures
        flat(name_of(atoms, id)),
{
    law_node(atoms, id);
    if known(atoms, id) {
        let i = choose|i: int| 0 <= i < atoms.len() && (#[trigger] atoms[i]).id == id;
        assert(flat_atom(atoms[i]));
    } else {
        reveal_strlit("?");
    }
}

// ── The walk back ────────────────────────────────────────────────────────────

/// The steps of a walk are the calls that it records.
proof fn lemma_steps(
    preds: Map<Seq<char>, Seq<Seq<char>>>,
    callers: Seq<Seq<char>>,
    x: Seq<char>,
    y: Seq<char>,
)
    ensures
        some_goes_back(steps(preds, callers), y, x) <==> callers.contains(x) && list_at(
            preds,
            x,
        ).contains(y),
        forall|i: int|
            0 <= i < steps(preds, callers).len() ==> (#[trigger] steps(preds, callers)[i]).len()
                == 2,
    decreases callers.len(),
{
    if callers.len() > 0 {
        let front = callers.drop_last();
        let last = callers.last();
        let nodes = list_at(preds, last);
        let a = steps(preds, front);
        let b = steps_of(last, nodes);
        let all = steps(preds, callers);
        lemma_steps(preds, front, x, y);
        lemma_push_contains(front, last);
        assert(front.push(last) =~= callers);
        assert forall|i: int| 0 <= i < all.len() implies (#[trigger] all[i]).len() == 2 by {
            if i < a.len() {
                assert(all[i] == a[i]);
            } else {
                assert(all[i] == b[i - a.len()]);
            }
        }
        if some_goes_back(all, y, x) {
            let i = choose|i: int| 0 <= i < all.len() && goes_back(#[trigger] all[i], y, x);
            let j = choose|j: int|
                0 <= j < all[i].len() - 1 && #[trigger] all[i][j] == y && all[i][j + 1] == x;
            if i < a.len() {
                assert(a[i] == all[i]);
                assert(goes_back(a[i], y, x));
            } else {
                assert(all[i] == seq![nodes[i - a.len()], last]);
                assert(j == 0);
                assert(nodes.contains(nodes[i - a.len()]));
            }
        }
        if some_goes_back(a, y, x) {
            let i = choose|i: int| 0 <= i < a.len() && goes_back(#[trigger] a[i], y, x);
            assert(all[i] == a[i]);
        }
        if x == last && nodes.contains(y) {
            let k = choose|k: int| 0 <= k < nodes.len() && nodes[k] == y;
            let path = all[a.len() + k];
            assert(path == b[k]);
            let n: int = 0;
            assert(path[n] == y && path[n + 1] == x);
            assert(goes_back(path, y, x));
        }
    } else {
        assert(!some_goes_back(steps(preds, callers), y, x));
    }
}

/// The impact view shows the calls that lead to the target, each as an arrow
/// from the caller to the function that it calls: those of a call chain of at
/// most `hops` calls, of which none leads away from the target.
pub proof fn law_impact_calls(
    c: CatalogView,
    es: Seq<EdgeView>,
    target: Seq<char>,
    hops: nat,
    x: Seq<char>,
    y: Seq<char>,
)
    requires
        calls(es, x, y),
        x != target,
        x != y,
        hops > 0,
        within(es, target, y, (hops - 1) as nat),
        !closer(es, target, x, y),
    ensures
        has_line(impact_text(c, target, walk_steps(walk(es, target, hops))), call_row(x, y)),
{
    let w = walk(es, target, hops);
    let paths = walk_steps(w);
    law_walk_reaches(es, target, hops);
    law_walk_records(es, target, hops, x, y);
    lemma_steps(w.preds, w.reached, x, y);
    assert(w.reached.contains(x));
    let i = choose|i: int| 0 <= i < paths.len() && goes_back(#[trigger] paths[i], y, x);
    let j = choose|j: int|
        0 <= j < paths[i].len() - 1 && #[trigger] paths[i][j] == y && paths[i][j + 1] == x;
    law_impact_steps(c, target, paths, i, j);
}

/// The impact view shows each function from which a call chain of at most
/// `hops` calls leads to the target, with its name.
pub proof fn law_impact_callers(
    c: CatalogView,
    es: Seq<EdgeView>,
    target: Seq<char>,
    hops: nat,
    i: int,
)
    requires
        distinct_ids(c.atoms),
        0 <= i < c.atoms.len(),
        c.atoms[i].id != target,
        within(es, target, c.atoms[i].id, hops),
    ensures
        has_line(
            impact_text(c, target, walk_steps(walk(es, target, hops))),
            box_row(c.atoms[i].id, c.atoms[i].name),
        ),
{
    let x = c.atoms[i].id;
    let w = walk(es, target, hops);
    let paths = walk_steps(w);
    law_walk_reaches(es, target, hops);
    law_node(c.atoms, x);
    assert(w.reached.contains(x));
    let k = choose|k: int| 0 <= k < w.reached.len() && w.reached[k] == x;
    assert(w.preds.contains_key(w.reached[k]));
    let y = w.preds[x][0];
    assert(list_at(w.preds, x).contains(y));
    lemma_steps(w.preds, w.reached, x, y);
    let q = choose|q: int| 0 <= q < paths.len() && goes_back(#[trigger] paths[q], y, x);
    let j = choose|j: int|
        0 <= j < paths[q].len() - 1 && #[trigger] paths[q][j] == y && paths[q][j + 1] == x;
    law_impact_steps(c, target, paths, q, j);
}

/// The impact view shows the target as a round node with its name.
pub proof fn law_impact_target(c: CatalogView, k: int, paths: Seq<Seq<Seq<char>>>)
    requires
        distinct_ids(c.atoms),
        0 <= k < c.atoms.len(),
    ensures
        has_line(
            impact_text(c, c.atoms[k].id, paths),
            round_row(c.atoms[k].id, "fn "@ + c.atoms[k].name + " (impacted)"@),
        ),
{
    let target = c.atoms[k].id;
    let label = "fn "@ + c.atoms[k].name + " (impacted)"@;
    law_node(c.atoms, target);
    lemma_center_line(target, label);
    lemma_impact_parts(c, target, paths, round_row(target, label));
}

/// Whether the ends of all edges stand on one line.
pub open spec fn flat_edges(es: Seq<EdgeView>) -> bool {
    forall|k: int| 0 <= k < es.len() ==> flat((#[trigger] es[k]).from) && flat(es[k].to)
}

/// The impact view shows no other arrows and functions: each line is the first
/// one, that of the target, an arrow for a call of the graph from its caller to
/// the function called, or the node of the caller. From both ends a call chain
/// of at most `hops` calls leads to the target, and the target is no caller.
pub proof fn law_impact_lines(
    c: CatalogView,
    es: Seq<EdgeView>,
    k: int,
    hops: nat,
    line: Seq<char>,
)
    requires
        distinct_ids(c.atoms),
        flat_atoms(c.atoms),
        flat_edges(es),
        0 <= k < c.atoms.len(),
        flat(line),
        has_line(
            impact_text(c, c.atoms[k].id, walk_steps(walk(es, c.atoms[k].id, hops))),
            line,
        ),
    ensures
        line == "graph BT"@ || line == round_row(
            c.atoms[k].id,
            "fn "@ + c.atoms[k].name + " (impacted)"@,
        ) || (exists|x: Seq<char>, y: Seq<char>| #[trigger]
            calls(es, x, y) && x != c.atoms[k].id && within(es, c.atoms[k].id, x, hops) && within(
                es,
                c.atoms[k].id,
                y,
                hops,
            ) && (line == call_row(x, y) || line == box_row(x, name_of(c.atoms, x)))),
{
    let target = c.atoms[k].id;
    let w = walk(es, target, hops);
    let paths = walk_steps(w);
    assert forall|i: int, j: int| 0 <= i < paths.len() && 0 <= j < paths[i].len() implies flat(
        #[trigger] paths[i][j],
    ) by {
        lemma_steps(w.preds, w.reached, Seq::empty(), Seq::empty());
        let n: int = 0;
        let y = paths[i][n];
        let x = paths[i][n + 1];
        assert(goes_back(paths[i], y, x));
        assert(some_goes_back(paths, y, x));
        lemma_steps(w.preds, w.reached, x, y);
        law_walk_records(es, target, hops, x, y);
        let e = choose|e: int|
            0 <= e < es.len() && (#[trigger] es[e]).from == x && es[e].to == y && es[e].kind
                == crate::model::EdgeKind::Calls;
        assert(flat(es[e].from) && flat(es[e].to));
    }
    law_impact_only(c, k, paths, line);
    if line != "graph BT"@ && line != round_row(target, "fn "@ + c.atoms[k].name + " (impacted)"@) {
        let (x, y) = choose|x: Seq<char>, y: Seq<char>| #[trigger]
            some_goes_back(paths, y, x) && (line == call_row(x, y) || x != c.atoms[k].id && line
                == box_row(x, name_of(c.atoms, x)));
        lemma_steps(w.preds, w.reached, x, y);
        law_walk_records(es, target, hops, x, y);
        assert(calls(es, x, y));
    }
}

} // verus!
