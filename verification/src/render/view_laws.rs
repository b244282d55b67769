//! What the views show of a store, and which atom a target means.

use crate::chars::occurs;
use crate::graph::catalog::{distinct_ids, law_mirrors, mirrors, AtomEntry, CatalogView};
use crate::graph::memory::{calls, StoreView};
use crate::graph::reach::{closer, within};
use crate::model::{EdgeKind, EdgeView};
use crate::render::count_laws::{
    crate_row, has_crate, has_kind, has_module, is_first_module, law_overview_modules,
    law_project_crates, module_row,
};
use crate::render::detail::{view_outcome, Detail};
use crate::render::impact::DEFAULT_HOPS;
use crate::render::impact_laws::{
    flat_edges, law_impact_calls, law_impact_callers, law_impact_lines,
};
use crate::render::laws::{
    box_row, call_row, calls_in, calls_out, flat_atoms, is_inside, law_function_calls,
    law_module_calls, round_row,
};
use crate::render::level::Level;
use crate::render::level_text;
use crate::render::lookup::{function_target, is_kind, module_at, module_target, named};
use crate::render::rows::{flat, has_line};
use crate::render::util::{crate_of, id_text, quoted};
use vstd::prelude::*;

verus! {

// ── Names of nodes ───────────────────────────────────────────────────────────

/// The node id of a name keeps its alphanumeric characters and its `_`, and has
/// `_` for every other one.
pub proof fn law_id_chars(name: Seq<char>, i: int)
    requires
        0 <= i < name.len(),
    ensures
        id_text(name).len() == name.len(),
        crate::render::util::char_is_alphanumeric(name[i]) || name[i] == '_' ==> id_text(name)[i]
            == name[i],
        !crate::render::util::char_is_alphanumeric(name[i]) ==> id_text(name)[i] == '_',
{
}

proof fn lemma_first_slash(s: Seq<char>, n: Seq<char>, i: int)
    requires
        0 <= i <= n.len() < s.len(),
        forall|k: int| 0 <= k < n.len() ==> #[trigger] s[k] != '/',
        s[n.len() as int] == '/',
    ensures
        crate::chars::find_from(s, "/"@, i) == Some(n.len() as int),
    decreases n.len() - i,
{
    reveal_strlit("/");
    if i < n.len() {
        assert(s.subrange(i, i + 1)[0] == s[i]);
        lemma_first_slash(s, n, i + 1);
    } else {
        assert(s.subrange(i, i + 1) =~= "/"@);
    }
}

/// The crate of a file is the directory below `crates/`, or else the first
/// directory of its path.
pub proof fn law_crate_of(name: Seq<char>, rest: Seq<char>)
    requires
        !name.contains('/'),
    ensures
        crate_of("crates/"@ + name + "/"@ + rest) == name,
        name != "crates"@ ==> crate_of(name + "/"@ + rest) == name,
{
    reveal_strlit("crates/");
    reveal_strlit("crates");
    reveal_strlit("/");
    let tail = name + "/"@ + rest;
    assert forall|k: int| 0 <= k < name.len() implies #[trigger] tail[k] != '/' by {
        assert(name.contains(name[k]));
    }
    lemma_first_slash(tail, name, 0);
    assert(tail.take(name.len() as int) =~= name);
    let path = "crates/"@ + name + "/"@ + rest;
    assert(path.subrange(0, 7) =~= "crates/"@);
    assert(path.skip(7) =~= tail);
    if name != "crates"@ && crate::chars::starts(tail, "crates/"@) {
        assert forall|k: int| 0 <= k < 7 implies tail[k] == #[trigger] "crates/"@[k] by {
            assert(tail.subrange(0, 7)[k] == tail[k]);
        }
        assert(tail[6] == "crates/"@[6]);
        assert(name.len() <= 6);
        if name.len() < 6 {
            assert(tail[name.len() as int] == "crates/"@[name.len() as int]);
        }
        assert(name =~= "crates"@) by {
            assert forall|k: int| 0 <= k < 6 implies name[k] == #[trigger] "crates"@[k] by {
                assert(tail[k] == "crates/"@[k]);
            }
        }
    }
}

// ── Targets ──────────────────────────────────────────────────────────────────

/// Whether an atom is of a kind and has a name.
pub open spec fn is_named(kind: Seq<char>, name: Seq<char>) -> spec_fn(AtomEntry) -> bool {
    |a: AtomEntry| a.kind == kind && a.name == name
}

proof fn lemma_named(atoms: Seq<AtomEntry>, kind: Seq<char>, name: Seq<char>)
    ensures
        named(atoms, kind, name).len() == atoms.filter(is_named(kind, name)).len(),
        forall|k: int|
            0 <= k < named(atoms, kind, name).len() ==> atoms.filter(is_named(kind, name))[k].id
                == #[trigger] named(atoms, kind, name)[k],
    decreases atoms.len(),
{
    reveal(Seq::filter);
    if atoms.len() > 0 {
        lemma_named(atoms.drop_last(), kind, name);
    }
}

proof fn lemma_module_at(atoms: Seq<AtomEntry>, path: Seq<char>)
    ensures
        module_at(atoms, path) is Some <==> has_module(atoms, path),
        forall|i: int| #[trigger]
            is_first_module(atoms, path, i) ==> module_at(atoms, path) == Some(atoms[i].id),
    decreases atoms.len(),
{
    if atoms.len() > 0 {
        let front = atoms.drop_last();
        lemma_module_at(front, path);
        if has_module(front, path) {
            let i = choose|i: int|
                0 <= i < front.len() && (#[trigger] front[i]).kind == "module"@
                    && front[i].file_path == Some(path);
            assert(atoms[i] == front[i]);
        }
        if has_module(atoms, path) {
            let i = choose|i: int|
                0 <= i < atoms.len() && (#[trigger] atoms[i]).kind == "module"@
                    && atoms[i].file_path == Some(path);
            if i < front.len() {
                assert(front[i] == atoms[i]);
            }
        }
        assert forall|i: int| #[trigger] is_first_module(atoms, path, i) implies module_at(
            atoms,
            path,
        ) == Some(atoms[i].id) by {
            if i < front.len() {
                assert(front[i] == atoms[i]);
                assert forall|j: int|
                    0 <= j < i && (#[trigger] front[j]).kind == "module"@ implies front[j].file_path
                    != Some(path) by {
                    assert(front[j] == atoms[j]);
                }
                assert(is_first_module(front, path, i));
            } else if has_module(front, path) {
                let j = choose|j: int|
                    0 <= j < front.len() && (#[trigger] front[j]).kind == "module"@
                        && front[j].file_path == Some(path);
                assert(atoms[j] == front[j]);
            }
        }
    }
}

proof fn lemma_is_kind(atoms: Seq<AtomEntry>, id: Seq<char>, kind: Seq<char>)
    requires
        distinct_ids(atoms),
    ensures
        is_kind(atoms, id, kind) <==> has_kind(atoms, id, kind),
{
    crate::graph::catalog::law_node(atoms, id);
    if is_kind(atoms, id, kind) {
        let i = choose|i: int| 0 <= i < atoms.len() && (#[trigger] atoms[i]).id == id;
        assert(atoms[i].kind == kind);
    }
}

/// A target means the function with that id, or else the only one with that
/// name. It means none where it is empty, where no function has that name, and
/// where several have.
pub proof fn law_function_target(atoms: Seq<AtomEntry>, target: Seq<char>, shown: Seq<char>)
    requires
        distinct_ids(atoms),
    ensures
        function_target(atoms, target, shown) is Ok <==> target.len() > 0 && (has_kind(
            atoms,
            target,
            "function"@,
        ) || atoms.filter(is_named("function"@, target)).len() == 1),
        function_target(atoms, target, shown) is Ok && has_kind(atoms, target, "function"@)
            ==> function_target(atoms, target, shown)->Ok_0 == target,
        function_target(atoms, target, shown) is Ok && !has_kind(atoms, target, "function"@)
            ==> function_target(atoms, target, shown)->Ok_0 == atoms.filter(
            is_named("function"@, target),
        )[0].id,
{
    lemma_is_kind(atoms, target, "function"@);
    lemma_named(atoms, "function"@, target);
    let ids = named(atoms, "function"@, target);
    if ids.len() == 1 {
        assert(atoms.filter(is_named("function"@, target))[0].id == ids[0]);
    }
}

/// A target means the module with that id; or else, where it holds a `/`, the
/// first module of that file; or else the only one with that name.
pub proof fn law_module_target(atoms: Seq<AtomEntry>, target: Seq<char>, shown: Seq<char>)
    requires
        distinct_ids(atoms),
    ensures
        module_target(atoms, target, shown) is Ok <==> target.len() > 0 && (has_kind(
            atoms,
            target,
            "module"@,
        ) || (occurs(target, "/"@) && has_module(atoms, target)) || atoms.filter(
            is_named("module"@, target),
        ).len() == 1),
        module_target(atoms, target, shown) is Ok && has_kind(atoms, target, "module"@)
            ==> module_target(atoms, target, shown)->Ok_0 == target,
        module_target(atoms, target, shown) is Ok && !has_kind(atoms, target, "module"@) && occurs(
            target,
            "/"@,
        ) ==> forall|i: int| #[trigger]
            is_first_module(atoms, target, i) ==> module_target(atoms, target, shown)->Ok_0
                == atoms[i].id,
        module_target(atoms, target, shown) is Ok && !has_kind(atoms, target, "module"@) && !(occurs(
            target,
            "/"@,
        ) && has_module(atoms, target)) ==> module_target(atoms, target, shown)->Ok_0
            == atoms.filter(is_named("module"@, target))[0].id,
{
    lemma_is_kind(atoms, target, "module"@);
    lemma_named(atoms, "module"@, target);
    lemma_module_at(atoms, target);
    let ids = named(atoms, "module"@, target);
    if ids.len() == 1 {
        assert(atoms.filter(is_named("module"@, target))[0].id == ids[0]);
    }
    if exists|i: int| #[trigger] is_first_module(atoms, target, i) {
        let i = choose|i: int| #[trigger] is_first_module(atoms, target, i);
        assert(has_module(atoms, target));
    }
}

// ── Views of a store ─────────────────────────────────────────────────────────

proof fn lemma_atom_index(c: CatalogView, s: StoreView, id: Seq<char>) -> (i: int)
    requires
        s.wf(),
        mirrors(c, s),
        s.atoms.contains_key(id),
    ensures
        0 <= i < c.atoms.len(),
        c.atoms[i].id == id,
        c.atoms[i].name == s.atoms[id].name,
        c.atoms[i].kind == s.atoms[id].kind,
        distinct_ids(c.atoms),
{
    law_mirrors(c, s);
    assert(crate::graph::catalog::known(c.atoms, id));
    choose|i: int| 0 <= i < c.atoms.len() && (#[trigger] c.atoms[i]).id == id
}

/// The view of a function of a store has an arrow for each call between the
/// function and an atom of the store, from the caller to the callee, and a box
/// with the name of that atom.
pub proof fn law_view_function(
    s: StoreView,
    c: CatalogView,
    target: Seq<char>,
    id: Seq<char>,
    other: Seq<char>,
)
    requires
        s.wf(),
        mirrors(c, s),
        function_target(c.atoms, target, quoted(target)) == Ok::<Seq<char>, Seq<char>>(id),
        s.atoms.contains_key(other),
    ensures
        view_outcome(Detail::Function, c, s.edges, Some(target)) is Ok,
        ({
            let text = view_outcome(Detail::Function, c, s.edges, Some(target))->Ok_0;
            &&& calls(s.edges, other, id) ==> has_line(text, call_row(other, id)) && has_line(
                text,
                box_row(other, s.atoms[other].name),
            )
            &&& calls(s.edges, id, other) ==> has_line(text, call_row(id, other)) && has_line(
                text,
                box_row(other, s.atoms[other].name),
            )
        }),
{
    let i = lemma_atom_index(c, s, other);
    law_mirrors(c, s);
    law_function_calls(c, id, i);
}

/// The view of a module of a store has an arrow for each call that crosses the
/// border of the module: from one of its functions to an atom outside, or the
/// other way round.
pub proof fn law_view_module(
    s: StoreView,
    c: CatalogView,
    target: Seq<char>,
    id: Seq<char>,
    x: Seq<char>,
    y: Seq<char>,
)
    requires
        s.wf(),
        mirrors(c, s),
        module_target(c.atoms, target, quoted(target)) == Ok::<Seq<char>, Seq<char>>(id),
        s.atoms.contains_key(x),
        s.atoms.contains_key(y),
        calls(s.edges, x, y),
        contains_edge(s, id, x) != contains_edge(s, id, y),
        s.atoms[if contains_edge(s, id, x) {
            x
        } else {
            y
        }].kind == "function"@,
    ensures
        view_outcome(Detail::Module, c, s.edges, Some(target)) is Ok,
        has_line(view_outcome(Detail::Module, c, s.edges, Some(target))->Ok_0, call_row(x, y)),
{
    let i = lemma_atom_index(c, s, x);
    let j = lemma_atom_index(c, s, y);
    law_mirrors(c, s);
    crate::render::lookup::law_target_found(c.atoms, target, quoted(target));
    lemma_is_kind(c.atoms, id, "module"@);
    let k = choose|k: int|
        0 <= k < c.atoms.len() && (#[trigger] c.atoms[k]).id == id && c.atoms[k].kind
            == "module"@;
    assert(contains_edge(s, id, x) <==> is_inside(c, id, x)) by {
        assert(crate::graph::catalog::related(c.relations, id, x, "contains"@)
            <==> contains_edge(s, id, x));
    }
    assert(contains_edge(s, id, y) <==> is_inside(c, id, y)) by {
        assert(crate::graph::catalog::related(c.relations, id, y, "contains"@)
            <==> contains_edge(s, id, y));
    }
    assert(c.atoms[i].id == x && c.atoms[j].id == y);
    assert(calls_out(c, id, x, y) || calls_in(c, id, x, y));
    law_module_calls(c, k, x, y);
}

/// Whether an edge of a store says that one id contains another.
pub open spec fn contains_edge(s: StoreView, outer: Seq<char>, inner: Seq<char>) -> bool {
    exists|k: int|
        0 <= k < s.edges.len() && (#[trigger] s.edges[k]).from == outer && s.edges[k].to == inner
            && s.edges[k].kind == EdgeKind::Contains
}

/// The impact view of a function of a store shows each function from which at
/// most three calls lead to it, with its name, and the calls on the way: an
/// arrow from the caller to the callee.
pub proof fn law_view_impact(
    s: StoreView,
    c: CatalogView,
    target: Seq<char>,
    id: Seq<char>,
    x: Seq<char>,
    y: Seq<char>,
)
    requires
        s.wf(),
        mirrors(c, s),
        function_target(c.atoms, target, quoted(target)) == Ok::<Seq<char>, Seq<char>>(id),
        x != id,
    ensures
        view_outcome(Detail::Impact, c, s.edges, Some(target)) is Ok,
        ({
            let text = view_outcome(Detail::Impact, c, s.edges, Some(target))->Ok_0;
            &&& s.atoms.contains_key(x) && within(s.edges, id, x, 3) ==> has_line(
                text,
                box_row(x, s.atoms[x].name),
            )
            &&& calls(s.edges, x, y) && x != y && within(s.edges, id, y, 2) && !closer(
                s.edges,
                id,
                x,
                y,
            ) ==> has_line(text, call_row(x, y))
        }),
{
    assert(DEFAULT_HOPS == 3);
    let hops = DEFAULT_HOPS as nat;
    if s.atoms.contains_key(x) && within(s.edges, id, x, 3) {
        let i = lemma_atom_index(c, s, x);
        law_impact_callers(c, s.edges, id, hops, i);
    }
    if calls(s.edges, x, y) && x != y && within(s.edges, id, y, 2) && !closer(s.edges, id, x, y) {
        law_impact_calls(c, s.edges, id, hops, x, y);
    }
}

/// Each arrow of the impact view stands for a call of the store, from the caller
/// to the callee.
pub proof fn law_view_impact_only(
    s: StoreView,
    c: CatalogView,
    target: Seq<char>,
    id: Seq<char>,
    line: Seq<char>,
)
    requires
        s.wf(),
        mirrors(c, s),
        function_target(c.atoms, target, quoted(target)) == Ok::<Seq<char>, Seq<char>>(id),
        flat_atoms(c.atoms),
        flat_edges(s.edges),
        flat(line),
        has_line(view_outcome(Detail::Impact, c, s.edges, Some(target))->Ok_0, line),
    ensures
        line == "graph BT"@ || line == round_row(id, "fn "@ + s.atoms[id].name + " (impacted)"@) || (
        exists|x: Seq<char>, y: Seq<char>| #[trigger]
            calls(s.edges, x, y) && x != id && within(s.edges, id, x, 3) && within(
                s.edges,
                id,
                y,
                3,
            ) && (line == call_row(x, y) || line == box_row(
                x,
                crate::render::function::name_of(c.atoms, x),
            ))),
{
    assert(DEFAULT_HOPS == 3);
    law_mirrors(c, s);
    crate::render::lookup::law_target_found(c.atoms, target, quoted(target));
    lemma_is_kind(c.atoms, id, "function"@);
    let k = choose|k: int|
        0 <= k < c.atoms.len() && (#[trigger] c.atoms[k]).id == id && c.atoms[k].kind
            == "function"@;
    law_impact_lines(c, s.edges, k, DEFAULT_HOPS as nat, line);
}

/// The view of a project is made of crates and that of the level below of
/// modules, with the counted calls between them.
pub proof fn law_view_levels(
    c: CatalogView,
    es: Seq<EdgeView>,
    target: Option<Seq<char>>,
    name: Seq<char>,
    path: Seq<char>,
    i: int,
)
    requires
        distinct_ids(c.atoms),
        has_crate(c.atoms, name),
        is_first_module(c.atoms, path, i),
    ensures
        view_outcome(Detail::Project, c, es, target) is Ok,
        view_outcome(Detail::Overview, c, es, target) is Ok,
        has_line(view_outcome(Detail::Project, c, es, target)->Ok_0, crate_row(c, name)),
        has_line(
            view_outcome(Detail::Overview, c, es, target)->Ok_0,
            module_row(c, path, c.atoms[i].name),
        ),
        has_line(level_text(Level::Project, c), crate_row(c, name)),
        has_line(level_text(Level::Overview, c), module_row(c, path, c.atoms[i].name)),
{
    law_project_crates(c, name);
    law_overview_modules(c, path, i);
}

/// The views of one module and of one function are refused without a target, and
/// the two others are drawn whether there is one or not.
pub proof fn law_view_targets(
    detail: Detail,
    c: CatalogView,
    es: Seq<EdgeView>,
    target: Seq<char>,
)
    ensures
        view_outcome(detail, c, es, None) is Err <==> detail is Module || detail is Function
            || detail is Impact,
        !(detail is Module || detail is Function || detail is Impact) ==> view_outcome(
            detail,
            c,
            es,
            None,
        ) == view_outcome(detail, c, es, Some(target)),
{
}

} // verus!
