//! Views of a store at each level of detail, with and without a target.

use crate::error::{is_invalid, AstToMermaidError, Result};
use crate::graph::catalog::{mirrors, Catalog, CatalogView};
use crate::graph::memory::{calls, Store};
use crate::graph::reach::{lemma_rounds_sound, list_at, sound, walk, Walk};
use crate::model::{EdgeView, EntityId};
use crate::render::function::function_text;
use crate::render::impact::{impact_text, DEFAULT_HOPS};
use crate::render::lookup::{function_target, module_target, resolve_function};
use crate::render::module::module_text;
use crate::render::overview::overview_text;
use crate::render::project::project_text;
use crate::render::util::{debug_quoted, quoted};
use crate::render::{function, impact, module, overview, project};
use crate::text::str_eq;
use vstd::prelude::*;
use vstd::string::*;

verus! {

/// How much of a store a view shows.
#[derive(Debug, Clone, Copy, PartialEq, Eq, Hash, Structural)]
pub enum Detail {
    /// One node per crate, calls across crates.
    Project,
    /// One node per module, calls across modules.
    Overview,
    /// One module, with its callers and callees outside.
    Module,
    /// One function, with its direct callers and callees.
    Function,
    /// The functions from which calls lead to one function.
    Impact,
}

impl Detail {
    /// The canonical lower-case name.
    pub open spec fn text(self) -> Seq<char> {
        match self {
            Detail::Project => "project"@,
            Detail::Overview => "overview"@,
            Detail::Module => "module"@,
            Detail::Function => "function"@,
            Detail::Impact => "impact"@,
        }
    }

    /// The level with the given name.
    pub open spec fn parsed(s: Seq<char>) -> Option<Detail> {
        if s == "project"@ {
            Some(Detail::Project)
        } else if s == "overview"@ {
            Some(Detail::Overview)
        } else if s == "module"@ {
            Some(Detail::Module)
        } else if s == "function"@ {
            Some(Detail::Function)
        } else if s == "impact"@ {
            Some(Detail::Impact)
        } else {
            None
        }
    }

    /// What the error of an unknown level says, given the name as quoted.
    pub open spec fn unknown(shown: Seq<char>) -> Seq<char> {
        "unknown render level: "@ + shown
            + " (expected: project | overview | module | function | impact)"@
    }

    /// Whether the view of this level is drawn around a target.
    pub open spec fn targeted(self) -> bool {
        self is Module || self is Function || self is Impact
    }

    /// Lower-case canonical name as used on the command line.
    pub fn as_str(self) -> (r: &'static str)
        ensures
            r@ == self.text(),
    {
        match self {
            Detail::Project => "project",
            Detail::Overview => "overview",
            Detail::Module => "module",
            Detail::Function => "function",
            Detail::Impact => "impact",
        }
    }

    /// Whether the view of this level is drawn around a target.
    pub fn requires_target(self) -> (r: bool)
        ensures
            r == self.targeted(),
    {
        match self {
            Detail::Project | Detail::Overview => false,
            Detail::Module | Detail::Function | Detail::Impact => true,
        }
    }

    /// The level with the given name.
    pub fn from_str(s: &str) -> (r: Result<Detail>)
        ensures
            match Detail::parsed(s@) {
                Some(detail) => r matches Ok(d) && d == detail,
                None => is_invalid(r, Detail::unknown(quoted(s@))),
            },
    {
        let shown = debug_quoted(s);
        Detail::from_name(s, shown.as_str())
    }

    /// The level with the given name; `shown` is the name as an error shows it.
    pub fn from_name(s: &str, shown: &str) -> (r: Result<Detail>)
        ensures
            match Detail::parsed(s@) {
                Some(detail) => r matches Ok(d) && d == detail,
                None => is_invalid(r, Detail::unknown(shown@)),
            },
    {
        if str_eq(s, "project") {
            Ok(Detail::Project)
        } else if str_eq(s, "overview") {
            Ok(Detail::Overview)
        } else if str_eq(s, "module") {
            Ok(Detail::Module)
        } else if str_eq(s, "function") {
            Ok(Detail::Function)
        } else if str_eq(s, "impact") {
            Ok(Detail::Impact)
        } else {
            Err(
                AstToMermaidError::InvalidInput(
                    "unknown render level: ".to_owned().concat(shown).concat(
                        " (expected: project | overview | module | function | impact)",
                    ),
                ),
            )
        }
    }
}

/// Printing a level of detail and parsing it again gives it back.
pub proof fn law_detail_parsed_of_text(v: Detail)
    ensures
        Detail::parsed(v.text()) == Some(v),
{
    reveal_strlit("project");
    reveal_strlit("overview");
    reveal_strlit("module");
    reveal_strlit("function");
    reveal_strlit("impact");
    assert("project"@[0] == 'p' && "overview"@[0] == 'o' && "module"@[0] == 'm' && "function"@[0]
        == 'f' && "impact"@[0] == 'i');
}

// ── The calls of a walk back ─────────────────────────────────────────────────

/// The calls of one caller, each as a path from the function called back to
/// the caller.
pub open spec fn steps_of(caller: Seq<char>, nodes: Seq<Seq<char>>) -> Seq<Seq<Seq<char>>> {
    nodes.map_values(|n: Seq<char>| seq![n, caller])
}

/// The calls of several callers.
pub open spec fn steps(
    preds: Map<Seq<char>, Seq<Seq<char>>>,
    callers: Seq<Seq<char>>,
) -> Seq<Seq<Seq<char>>>
    decreases callers.len(),
{
    if callers.len() == 0 {
        Seq::empty()
    } else {
        steps(preds, callers.drop_last()) + steps_of(callers.last(), list_at(preds, callers.last()))
    }
}

/// The calls that a walk back saw.
pub open spec fn walk_steps(w: Walk) -> Seq<Seq<Seq<char>>> {
    steps(w.preds, w.reached)
}

/// Each step of a walk back is a call of the graph.
pub proof fn law_steps_are_calls(es: Seq<EdgeView>, target: Seq<char>, hops: nat, i: int)
    requires
        0 <= i < walk_steps(walk(es, target, hops)).len(),
    ensures
        walk_steps(walk(es, target, hops))[i].len() == 2,
        calls(
            es,
            walk_steps(walk(es, target, hops))[i][1],
            walk_steps(walk(es, target, hops))[i][0],
        ),
{
    let w = walk(es, target, hops);
    lemma_rounds_sound(es, target, hops);
    lemma_steps_are_calls(es, target, w, w.reached, i);
}

proof fn lemma_steps_are_calls(
    es: Seq<EdgeView>,
    target: Seq<char>,
    w: Walk,
    callers: Seq<Seq<char>>,
    i: int,
)
    requires
        sound(es, target, w),
        0 <= i < steps(w.preds, callers).len(),
    ensures
        steps(w.preds, callers)[i].len() == 2,
        calls(es, steps(w.preds, callers)[i][1], steps(w.preds, callers)[i][0]),
    decreases callers.len(),
{
    let front = steps(w.preds, callers.drop_last());
    let nodes = list_at(w.preds, callers.last());
    if i < front.len() {
        lemma_steps_are_calls(es, target, w, callers.drop_last(), i);
    } else {
        let k = i - front.len();
        assert(steps(w.preds, callers)[i] == seq![nodes[k], callers.last()]);
        assert(w.preds[callers.last()][k] == nodes[k]);
    }
}

/// One call as a path.
fn step(node: &EntityId, caller: &EntityId) -> (r: Vec<String>)
    ensures
        r.deep_view() == seq![node@, caller@],
{
    let mut out: Vec<String> = Vec::new();
    out.push(node.to_string());
    out.push(caller.to_string());
    assert(out.deep_view() =~= seq![node@, caller@]);
    out
}

/// The calls that a walk of `hops` steps back from a function sees, each as a
/// path from the function called back to its caller.
pub fn reverse_steps(store: &Store, target: &EntityId, hops: u8) -> (r: Vec<Vec<String>>)
    ensures
        r.deep_view() == walk_steps(walk(store@.edges, target@, hops as nat)),
{
    let (preds, reached) = store.reverse_call_walk(target, hops);
    let ghost v = reached.deep_view();
    let mut out: Vec<Vec<String>> = Vec::new();
    let mut i: usize = 0;
    assert(v.take(0) =~= Seq::<Seq<char>>::empty());
    assert(out.deep_view() =~= Seq::<Seq<Seq<char>>>::empty());
    while i < reached.len()
        invariant
            i <= reached.len(),
            v == reached.deep_view(),
            out.deep_view() == steps(preds@, v.take(i as int)),
        decreases reached.len() - i,
    {
        let ghost had = out.deep_view();
        let ghost nodes = list_at(preds@, v[i as int]);
        let ghost want = steps_of(v[i as int], nodes);
        assert(v[i as int] == reached[i as int]@);
        assert(v.take(i + 1).drop_last() =~= v.take(i as int));
        assert(v.take(i + 1).last() == v[i as int]);
        if let Some(list) = preds.get(&reached[i]) {
            let mut k: usize = 0;
            assert(out.deep_view() =~= had + want.take(0));
            while k < list.len()
                invariant
                    k <= list.len(),
                    i < reached.len(),
                    v == reached.deep_view(),
                    v[i as int] == reached[i as int]@,
                    list.deep_view() == nodes,
                    want == steps_of(v[i as int], nodes),
                    out.deep_view() == had + want.take(k as int),
                decreases list.len() - k,
            {
                let ghost now = out.deep_view();
                assert(nodes[k as int] == list[k as int]@);
                out.push(step(&list[k], &reached[i]));
                assert(out.deep_view() =~= now.push(want[k as int]));
                k += 1;
                assert(out.deep_view() =~= had + want.take(k as int));
            }
            assert(want.take(list.len() as int) =~= want);
        } else {
            assert(want =~= Seq::<Seq<Seq<char>>>::empty());
            assert(out.deep_view() =~= had + want);
        }
        i += 1;
    }
    assert(v.take(reached.len() as int) =~= v);
    out
}

// ── Drawing ──────────────────────────────────────────────────────────────────

/// What a view of a store comes to: a text, or what the error says.
pub open spec fn view_outcome(
    detail: Detail,
    c: CatalogView,
    es: Seq<EdgeView>,
    target: Option<Seq<char>>,
) -> std::result::Result<Seq<char>, Seq<char>> {
    match detail {
        Detail::Project => Ok(project_text(c)),
        Detail::Overview => Ok(overview_text(c)),
        _ => match target {
            None => Err("level="@ + detail.text() + " requires --target"@),
            Some(t) => match detail {
                Detail::Module => match module_target(c.atoms, t, quoted(t)) {
                    Ok(id) => Ok(module_text(c, id)),
                    Err(e) => Err(e),
                },
                Detail::Function => match function_target(c.atoms, t, quoted(t)) {
                    Ok(id) => Ok(function_text(c, id)),
                    Err(e) => Err(e),
                },
                _ => match function_target(c.atoms, t, quoted(t)) {
                    Ok(id) => Ok(
                        impact_text(c, id, walk_steps(walk(es, id, DEFAULT_HOPS as nat))),
                    ),
                    Err(e) => Err(e),
                },
            },
        },
    }
}

/// Whether a result is the outcome of drawing.
pub open spec fn is_outcome(
    r: Result<String>,
    o: std::result::Result<Seq<char>, Seq<char>>,
) -> bool {
    match o {
        Ok(text) => r matches Ok(t) && t@ == text,
        Err(detail) => is_invalid(r, detail),
    }
}

/// Draws a view of a store.
pub fn render_view(detail: Detail, store: &Store, target: Option<&str>) -> (r: Result<String>)
    ensures
        exists|c: CatalogView| #[trigger]
            mirrors(c, store@) && is_outcome(
                r,
                view_outcome(
                    detail,
                    c,
                    store@.edges,
                    match target {
                        Some(t) => Some(t@),
                        None => None,
                    },
                ),
            ),
{
    let catalog = Catalog::of_store(store);
    assert(mirrors(catalog@, store@));
    match detail {
        Detail::Project => Ok(project::render(&catalog)),
        Detail::Overview => Ok(overview::render(&catalog)),
        _ => match target {
            None => Err(
                AstToMermaidError::InvalidInput(
                    "level=".to_owned().concat(detail.as_str()).concat(" requires --target"),
                ),
            ),
            Some(t) => match detail {
                Detail::Module => module::render(&catalog, t),
                Detail::Function => function::render(&catalog, t),
                _ => match resolve_function(&catalog, t) {
                    Ok(id) => {
                        let paths = reverse_steps(store, &EntityId::new(id.as_str()), DEFAULT_HOPS);
                        Ok(impact::draw(&catalog, id.as_str(), &paths))
                    },
                    Err(e) => Err(e),
                },
            },
        },
    }
}

} // verus!
