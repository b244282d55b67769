//! Resolving a target that a user named to an atom.

use crate::chars::{contains, dec, occurs, push_decimal};
use crate::error::{is_invalid, AstToMermaidError, Result};
use crate::graph::catalog::{distinct_ids, lemma_position_of, node, Atom, AtomEntry, Catalog};
use crate::render::util::{debug_quoted, quoted};
use crate::text::{join_strings, joined_by, str_eq};
use vstd::prelude::*;
use vstd::string::*;

verus! {

// ── What a target means ──────────────────────────────────────────────────────

/// Whether an atom of the given kind has the given id.
pub open spec fn is_kind(atoms: Seq<AtomEntry>, id: Seq<char>, kind: Seq<char>) -> bool {
    node(atoms, id) matches Some(a) && a.kind == kind
}

/// The ids of the atoms of a kind with the given name.
pub open spec fn named(atoms: Seq<AtomEntry>, kind: Seq<char>, name: Seq<char>) -> Seq<Seq<char>>
    decreases atoms.len(),
{
    if atoms.len() == 0 {
        Seq::empty()
    } else {
        let front = named(atoms.drop_last(), kind, name);
        if atoms.last().kind == kind && atoms.last().name == name {
            front.push(atoms.last().id)
        } else {
            front
        }
    }
}

/// The id of the first module of a file.
pub open spec fn module_at(atoms: Seq<AtomEntry>, path: Seq<char>) -> Option<Seq<char>>
    decreases atoms.len(),
{
    if atoms.len() == 0 {
        None
    } else {
        match module_at(atoms.drop_last(), path) {
            Some(id) => Some(id),
            None => if atoms.last().kind == "module"@ && atoms.last().file_path == Some(path) {
                Some(atoms.last().id)
            } else {
                None
            },
        }
    }
}

/// The one id of a list, or what an error says of none or several: with the
/// target as `shown`, and the candidates as `listed`.
pub open spec fn only_one(
    matches: Seq<Seq<char>>,
    what: Seq<char>,
    shown: Seq<char>,
    listed: Seq<char>,
) -> std::result::Result<Seq<char>, Seq<char>> {
    if matches.len() == 0 {
        Err("no "@ + what + " found matching "@ + shown)
    } else if matches.len() == 1 {
        Ok(matches[0])
    } else {
        Err(
            "ambiguous "@ + what + " target "@ + shown + ": "@ + dec(matches.len())
                + " candidates ("@ + listed + ")"@,
        )
    }
}

/// The module that a target means: the one with that id, the first one of that
/// file where the target holds a `/`, or else the only one of that name.
/// `shown` is the target as an error shows it.
pub open spec fn module_target(
    atoms: Seq<AtomEntry>,
    target: Seq<char>,
    shown: Seq<char>,
) -> std::result::Result<Seq<char>, Seq<char>> {
    let matches = named(atoms, "module"@, target);
    if target.len() == 0 {
        Err("module target cannot be empty"@)
    } else if is_kind(atoms, target, "module"@) {
        Ok(target)
    } else if occurs(target, "/"@) && module_at(atoms, target) is Some {
        Ok(module_at(atoms, target)->0)
    } else {
        only_one(matches, "module"@, shown, joined_by(matches, ", "@))
    }
}

/// The candidates that an error lists: the first three, and a mark where there
/// are more.
pub open spec fn first_three(matches: Seq<Seq<char>>) -> Seq<char> {
    if matches.len() > 3 {
        joined_by(matches.take(3), ", "@) + ", ..."@
    } else {
        joined_by(matches, ", "@)
    }
}

/// The function that a target means: the one with that id, or else the only
/// one of that name. `shown` is the target as an error shows it.
pub open spec fn function_target(
    atoms: Seq<AtomEntry>,
    target: Seq<char>,
    shown: Seq<char>,
) -> std::result::Result<Seq<char>, Seq<char>> {
    let matches = named(atoms, "function"@, target);
    if target.len() == 0 {
        Err("function target cannot be empty"@)
    } else if is_kind(atoms, target, "function"@) {
        Ok(target)
    } else {
        only_one(matches, "function"@, shown, first_three(matches))
    }
}

/// Whether a result is what a target means.
pub open spec fn is_target(
    r: Result<String>,
    meant: std::result::Result<Seq<char>, Seq<char>>,
) -> bool {
    match meant {
        Ok(id) => r matches Ok(s) && s@ == id,
        Err(detail) => is_invalid(r, detail),
    }
}

/// What a target means is an atom of the asked kind.
pub proof fn law_target_found(atoms: Seq<AtomEntry>, target: Seq<char>, shown: Seq<char>)
    requires
        distinct_ids(atoms),
    ensures
        module_target(atoms, target, shown) matches Ok(id) ==> is_kind(atoms, id, "module"@),
        function_target(atoms, target, shown) matches Ok(id) ==> is_kind(atoms, id, "function"@),
{
    if named(atoms, "module"@, target).len() == 1 {
        lemma_named_kind(atoms, "module"@, target, 0);
    }
    if named(atoms, "function"@, target).len() == 1 {
        lemma_named_kind(atoms, "function"@, target, 0);
    }
    if module_at(atoms, target) is Some {
        lemma_module_at_index(atoms, target);
        let i = choose|i: int|
            0 <= i < atoms.len() && (#[trigger] atoms[i]).id == module_at(atoms, target)->0
                && atoms[i].kind == "module"@;
        lemma_position_of(atoms, atoms[i].id);
    }
}

proof fn lemma_named_index(atoms: Seq<AtomEntry>, kind: Seq<char>, name: Seq<char>, k: int)
    requires
        0 <= k < named(atoms, kind, name).len(),
    ensures
        exists|i: int|
            0 <= i < atoms.len() && (#[trigger] atoms[i]).id == named(atoms, kind, name)[k]
                && atoms[i].kind == kind,
    decreases atoms.len(),
{
    let front = atoms.drop_last();
    if k < named(front, kind, name).len() {
        lemma_named_index(front, kind, name, k);
        let i = choose|i: int|
            0 <= i < front.len() && (#[trigger] front[i]).id == named(front, kind, name)[k]
                && front[i].kind == kind;
        assert(atoms[i] == front[i]);
    } else {
        assert(atoms[atoms.len() - 1].id == named(atoms, kind, name)[k]);
    }
}

proof fn lemma_named_kind(atoms: Seq<AtomEntry>, kind: Seq<char>, name: Seq<char>, k: int)
    requires
        distinct_ids(atoms),
        0 <= k < named(atoms, kind, name).len(),
    ensures
        is_kind(atoms, named(atoms, kind, name)[k], kind),
{
    lemma_named_index(atoms, kind, name, k);
    let i = choose|i: int|
        0 <= i < atoms.len() && (#[trigger] atoms[i]).id == named(atoms, kind, name)[k]
            && atoms[i].kind == kind;
    lemma_position_of(atoms, atoms[i].id);
}

proof fn lemma_module_at_index(atoms: Seq<AtomEntry>, path: Seq<char>)
    requires
        module_at(atoms, path) is Some,
    ensures
        exists|i: int|
            0 <= i < atoms.len() && (#[trigger] atoms[i]).id == module_at(atoms, path)->0
                && atoms[i].kind == "module"@,
    decreases atoms.len(),
{
    let front = atoms.drop_last();
    if module_at(front, path) is Some {
        lemma_module_at_index(front, path);
        let i = choose|i: int|
            0 <= i < front.len() && (#[trigger] front[i]).id == module_at(front, path)->0
                && front[i].kind == "module"@;
        assert(atoms[i] == front[i]);
    } else {
        assert(atoms[atoms.len() - 1].id == module_at(atoms, path)->0);
    }
}

// ── Resolving ────────────────────────────────────────────────────────────────

/// Whether an atom of the given kind has the given id.
fn has_kind(catalog: &Catalog, id: &str, kind: &str) -> (r: bool)
    ensures
        r == is_kind(catalog@.atoms, id@, kind@),
{
    match catalog.get_node(id) {
        Some(a) => str_eq(a.kind.as_str(), kind),
        None => false,
    }
}

/// The ids of the atoms of a kind with the given name.
fn find_named(atoms: &Vec<Atom>, kind: &str, name: &str) -> (r: Vec<String>)
    ensures
        r.deep_view() == named(atoms.deep_view(), kind@, name@),
{
    let ghost v = atoms.deep_view();
    let mut out: Vec<String> = Vec::new();
    let mut i: usize = 0;
    assert(v.take(0) =~= Seq::<AtomEntry>::empty());
    assert(out.deep_view() =~= Seq::<Seq<char>>::empty());
    while i < atoms.len()
        invariant
            i <= atoms.len(),
            v == atoms.deep_view(),
            out.deep_view() == named(v.take(i as int), kind@, name@),
        decreases atoms.len() - i,
    {
        let ghost had = out.deep_view();
        assert(v[i as int] == atoms[i as int].deep_view());
        assert(v.take(i + 1).drop_last() =~= v.take(i as int));
        assert(v.take(i + 1).last() == v[i as int]);
        if str_eq(atoms[i].kind.as_str(), kind) && str_eq(atoms[i].name.as_str(), name) {
            out.push(atoms[i].id.clone());
            assert(out.deep_view() =~= had.push(v[i as int].id));
        }
        i += 1;
    }
    assert(v.take(atoms.len() as int) =~= v);
    out
}

/// The id of the first module of a file.
fn find_module_at(atoms: &Vec<Atom>, path: &str) -> (r: Option<String>)
    ensures
        match r {
            Some(id) => module_at(atoms.deep_view(), path@) == Some(id@),
            None => module_at(atoms.deep_view(), path@) is None,
        },
{
    let ghost v = atoms.deep_view();
    let mut i: usize = 0;
    assert(v.take(0) =~= Seq::<AtomEntry>::empty());
    while i < atoms.len()
        invariant
            i <= atoms.len(),
            v == atoms.deep_view(),
            module_at(v.take(i as int), path@) is None,
        decreases atoms.len() - i,
    {
        assert(v[i as int] == atoms[i as int].deep_view());
        assert(v.take(i + 1).drop_last() =~= v.take(i as int));
        assert(v.take(i + 1).last() == v[i as int]);
        if str_eq(atoms[i].kind.as_str(), "module") {
            if let Some(p) = &atoms[i].file_path {
                if str_eq(p.as_str(), path) {
                    let id = atoms[i].id.clone();
                    proof {
                        lemma_module_at_prefix(v, path@, i + 1);
                    }
                    return Some(id);
                }
            }
        }
        i += 1;
    }
    assert(v.take(atoms.len() as int) =~= v);
    None
}

/// A module found in the front of a list is found in the whole list.
proof fn lemma_module_at_prefix(atoms: Seq<AtomEntry>, path: Seq<char>, n: int)
    requires
        0 <= n <= atoms.len(),
        module_at(atoms.take(n), path) is Some,
    ensures
        module_at(atoms, path) == module_at(atoms.take(n), path),
    decreases atoms.len() - n,
{
    if n < atoms.len() {
        assert(atoms.take(n + 1).drop_last() =~= atoms.take(n));
        lemma_module_at_prefix(atoms, path, n + 1);
    } else {
        assert(atoms.take(n) =~= atoms);
    }
}

/// The one id of a list, or the error for none or several.
fn pick_one(matches: &Vec<String>, what: &str, shown: &str, listed: &str) -> (r: Result<String>)
    ensures
        is_target(r, only_one(matches.deep_view(), what@, shown@, listed@)),
{
    assert(matches.deep_view().len() == matches.len());
    if matches.len() == 0 {
        let text = "no ".to_owned().concat(what).concat(" found matching ").concat(shown);
        return Err(AstToMermaidError::InvalidInput(text));
    }
    if matches.len() == 1 {
        assert(matches.deep_view()[0] == matches[0]@);
        return Ok(matches[0].clone());
    }
    let mut text = "ambiguous ".to_owned().concat(what).concat(" target ").concat(shown).concat(
        ": ",
    );
    push_decimal(&mut text, matches.len() as u64);
    text.append(" candidates (");
    text.append(listed);
    text.append(")");
    Err(AstToMermaidError::InvalidInput(text))
}

/// The module that a target means; `shown` is the target as an error shows it.
pub fn find_module(catalog: &Catalog, target: &str, shown: &str) -> (r: Result<String>)
    ensures
        is_target(r, module_target(catalog@.atoms, target@, shown@)),
{
    if target.is_empty() {
        return Err(AstToMermaidError::InvalidInput("module target cannot be empty".to_owned()));
    }
    if has_kind(catalog, target, "module") {
        return Ok(target.to_owned());
    }
    if contains(target, "/") {
        if let Some(id) = find_module_at(catalog.atoms(), target) {
            return Ok(id);
        }
    }
    let matches = find_named(catalog.atoms(), "module", target);
    let listed = join_strings(&matches, ", ");
    pick_one(&matches, "module", shown, listed.as_str())
}

/// Resolves a target to a module: by id, by file path, or by a name that only
/// one module has.
pub fn resolve_module(catalog: &Catalog, target: &str) -> (r: Result<String>)
    ensures
        is_target(r, module_target(catalog@.atoms, target@, quoted(target@))),
{
    let shown = debug_quoted(target);
    find_module(catalog, target, shown.as_str())
}

/// The function that a target means; `shown` is the target as an error shows
/// it.
pub fn find_function(catalog: &Catalog, target: &str, shown: &str) -> (r: Result<String>)
    ensures
        is_target(r, function_target(catalog@.atoms, target@, shown@)),
{
    if target.is_empty() {
        return Err(AstToMermaidError::InvalidInput("function target cannot be empty".to_owned()));
    }
    if has_kind(catalog, target, "function") {
        return Ok(target.to_owned());
    }
    let matches = find_named(catalog.atoms(), "function", target);
    let ghost ms = matches.deep_view();
    assert(ms.len() == matches.len());
    let listed = if matches.len() > 3 {
        let mut firsts: Vec<String> = Vec::new();
        firsts.push(matches[0].clone());
        firsts.push(matches[1].clone());
        firsts.push(matches[2].clone());
        assert(firsts.deep_view() =~= ms.take(3));
        join_strings(&firsts, ", ").concat(", ...")
    } else {
        join_strings(&matches, ", ")
    };
    pick_one(&matches, "function", shown, listed.as_str())
}

/// Resolves a target to a function: by id, or by a name that only one function
/// has.
pub fn resolve_function(catalog: &Catalog, target: &str) -> (r: Result<String>)
    ensures
        is_target(r, function_target(catalog@.atoms, target@, quoted(target@))),
{
    let shown = debug_quoted(target);
    find_function(catalog, target, shown.as_str())
}

} // verus!
