//! Module-level overview: one node for each module with the counts of its
//! items, and the calls between modules.

use crate::chars::{dec, push_decimal};
use crate::graph::catalog::{node, Atom, AtomEntry, Catalog, CatalogView, RelationEntry};
use crate::keys::{index_names, lemma_distinct, lists_keys, sort_keys, sorted_keys};
use crate::render::lines::{call_line, lemma_lines_step, lines, push_call_lines};
use crate::render::util::{escape_label, escaped, id_text, mermaid_id};
use crate::text::str_eq;
use vstd::hash_map::StringHashMap;
use vstd::prelude::*;
use vstd::string::*;

verus! {

// ── Counts ───────────────────────────────────────────────────────────────────

/// How many items of each kind a module has.
#[derive(Debug, Clone, Copy, PartialEq, Eq)]
pub struct ModuleCounts {
    pub functions: usize,
    pub structs: usize,
    pub traits: usize,
}

/// What [`ModuleCounts`] are.
pub struct ModuleCountsView {
    pub functions: nat,
    pub structs: nat,
    pub traits: nat,
}

impl ModuleCountsView {
    /// No items.
    pub open spec fn zero() -> Self {
        Self { functions: 0, structs: 0, traits: 0 }
    }

    /// The counts with one more item; kinds without a count change nothing.
    pub open spec fn bumped(self, kind: Seq<char>) -> Self {
        if kind == "function"@ {
            Self { functions: self.functions + 1, ..self }
        } else if kind == "struct"@ {
            Self { structs: self.structs + 1, ..self }
        } else if kind == "trait"@ {
            Self { traits: self.traits + 1, ..self }
        } else {
            self
        }
    }

    /// Whether no count is above `n`.
    pub open spec fn at_most(self, n: nat) -> bool {
        self.functions <= n && self.structs <= n && self.traits <= n
    }

    /// The label of a module with these counts: structs and traits are
    /// mentioned where there are any of either.
    pub open spec fn label(self, name: Seq<char>) -> Seq<char> {
        if self.structs > 0 || self.traits > 0 {
            name + " — "@ + dec(self.functions) + " fn, "@ + dec(self.structs) + " struct, "@ + dec(
                self.traits,
            ) + " trait"@
        } else {
            name + " — "@ + dec(self.functions) + " fn"@
        }
    }
}

impl View for ModuleCounts {
    type V = ModuleCountsView;

    open spec fn view(&self) -> ModuleCountsView {
        ModuleCountsView {
            functions: self.functions as nat,
            structs: self.structs as nat,
            traits: self.traits as nat,
        }
    }
}

impl Default for ModuleCounts {
    fn default() -> (r: Self)
        ensures
            r@ == ModuleCountsView::zero(),
    {
        Self { functions: 0, structs: 0, traits: 0 }
    }
}

impl ModuleCounts {
    /// Counts one more item of a kind.
    pub fn bump(&mut self, kind: &str)
        requires
            old(self)@.at_most((usize::MAX - 1) as nat),
        ensures
            final(self)@ == old(self)@.bumped(kind@),
    {
        if str_eq(kind, "function") {
            self.functions += 1;
        } else if str_eq(kind, "struct") {
            self.structs += 1;
        } else if str_eq(kind, "trait") {
            self.traits += 1;
        }
    }

    /// The label of a module with these counts.
    pub fn label(&self, name: &str) -> (r: String)
        ensures
            r@ == self@.label(name@),
    {
        let mut out = name.to_owned().concat(" — ");
        push_decimal(&mut out, self.functions as u64);
        if self.structs > 0 || self.traits > 0 {
            out.append(" fn, ");
            push_decimal(&mut out, self.structs as u64);
            out.append(" struct, ");
            push_decimal(&mut out, self.traits as u64);
            out.append(" trait");
        } else {
            out.append(" fn");
        }
        out
    }
}

// ── What is drawn ────────────────────────────────────────────────────────────

/// The file of a module whose file is known.
pub open spec fn module_file(a: AtomEntry) -> Option<Seq<char>> {
    if a.kind == "module"@ {
        a.file_path
    } else {
        None
    }
}

/// The files of the modules, one for each module.
pub open spec fn module_paths(atoms: Seq<AtomEntry>) -> Seq<Seq<char>>
    decreases atoms.len(),
{
    if atoms.len() == 0 {
        Seq::empty()
    } else {
        let front = module_paths(atoms.drop_last());
        match module_file(atoms.last()) {
            Some(p) => front.push(p),
            None => front,
        }
    }
}

/// The name of the first module of a file.
pub open spec fn module_name_at(atoms: Seq<AtomEntry>, path: Seq<char>) -> Option<Seq<char>>
    decreases atoms.len(),
{
    if atoms.len() == 0 {
        None
    } else {
        match module_name_at(atoms.drop_last(), path) {
            Some(name) => Some(name),
            None => if module_file(atoms.last()) == Some(path) {
                Some(atoms.last().name)
            } else {
                None
            },
        }
    }
}

/// The file of the module and the kind of the item that a relation connects,
/// if it says that a module contains an item.
pub open spec fn contained(atoms: Seq<AtomEntry>, r: RelationEntry) -> Option<
    (Seq<char>, Seq<char>),
> {
    match (node(atoms, r.from), node(atoms, r.to)) {
        (Some(m), Some(item)) => match module_file(m) {
            Some(p) => if r.kind == "contains"@ {
                Some((p, item.kind))
            } else {
                None
            },
            None => None,
        },
        _ => None,
    }
}

/// The counts of the items in the modules of one file.
pub open spec fn items_of(
    atoms: Seq<AtomEntry>,
    rs: Seq<RelationEntry>,
    path: Seq<char>,
) -> ModuleCountsView
    decreases rs.len(),
{
    if rs.len() == 0 {
        ModuleCountsView::zero()
    } else {
        let front = items_of(atoms, rs.drop_last(), path);
        match contained(atoms, rs.last()) {
            Some(item) => if item.0 == path {
                front.bumped(item.1)
            } else {
                front
            },
            None => front,
        }
    }
}

/// The file of a function whose file is known.
pub open spec fn function_path(a: AtomEntry) -> Option<Seq<char>> {
    if a.kind == "function"@ {
        a.file_path
    } else {
        None
    }
}

/// The files that a relation connects, if it is a call between functions of
/// different files.
pub open spec fn file_call(atoms: Seq<AtomEntry>, r: RelationEntry) -> Option<
    (Seq<char>, Seq<char>),
> {
    match (node(atoms, r.from), node(atoms, r.to)) {
        (Some(a), Some(b)) => match (function_path(a), function_path(b)) {
            (Some(from), Some(to)) => if r.kind == "calls"@ && from != to {
                Some((from, to))
            } else {
                None
            },
            _ => None,
        },
        _ => None,
    }
}

/// The calls between files.
pub open spec fn file_calls(atoms: Seq<AtomEntry>, rs: Seq<RelationEntry>) -> Seq<
    (Seq<char>, Seq<char>),
>
    decreases rs.len(),
{
    if rs.len() == 0 {
        Seq::empty()
    } else {
        let front = file_calls(atoms, rs.drop_last());
        match file_call(atoms, rs.last()) {
            Some(pair) => front.push(pair),
            None => front,
        }
    }
}

/// Calls within a file are not drawn: the ends of each call that is lie in
/// different files.
pub proof fn law_calls_between_files(atoms: Seq<AtomEntry>, rs: Seq<RelationEntry>)
    ensures
        forall|k: int|
            0 <= k < file_calls(atoms, rs).len() ==> (#[trigger] file_calls(atoms, rs)[k]).0
                != file_calls(atoms, rs)[k].1,
    decreases rs.len(),
{
    if rs.len() > 0 {
        law_calls_between_files(atoms, rs.drop_last());
        let front = file_calls(atoms, rs.drop_last());
        let all = file_calls(atoms, rs);
        assert forall|k: int| 0 <= k < all.len() implies (#[trigger] all[k]).0 != all[k].1 by {
            if k < front.len() {
                assert(all[k] == front[k]);
            }
        }
    }
}

/// The node of the modules of one file.
pub open spec fn module_line(c: CatalogView) -> spec_fn(Seq<char>) -> Seq<char> {
    |path: Seq<char>|
        "    "@ + id_text(path) + "[\""@ + escaped(
            items_of(c.atoms, c.relations, path).label(module_name_at(c.atoms, path)->0),
        ) + "\"]\n"@
}

/// The module-level overview.
pub open spec fn overview_text(c: CatalogView) -> Seq<char> {
    "graph TD\n"@ + lines(sorted_keys::<String>(module_paths(c.atoms)), module_line(c)) + lines(
        sorted_keys::<(String, String)>(file_calls(c.atoms, c.relations)),
        call_line(file_calls(c.atoms, c.relations), Seq::empty()),
    )
}

proof fn lemma_items_bounded(atoms: Seq<AtomEntry>, rs: Seq<RelationEntry>, path: Seq<char>)
    ensures
        items_of(atoms, rs, path).at_most(rs.len()),
    decreases rs.len(),
{
    if rs.len() > 0 {
        lemma_items_bounded(atoms, rs.drop_last(), path);
    }
}

proof fn lemma_named(atoms: Seq<AtomEntry>, path: Seq<char>)
    requires
        module_paths(atoms).contains(path),
    ensures
        module_name_at(atoms, path) is Some,
    decreases atoms.len(),
{
    if atoms.len() > 0 {
        let front = module_paths(atoms.drop_last());
        let i = choose|i: int| 0 <= i < module_paths(atoms).len() && module_paths(atoms)[i] == path;
        if i < front.len() {
            assert(front[i] == path);
            lemma_named(atoms.drop_last(), path);
        }
    }
}

// ── Drawing ──────────────────────────────────────────────────────────────────

/// The file of an atom of the given kind whose file is known.
fn file_path_of<'a>(atom: &'a Atom, kind: &str) -> (r: Option<&'a str>)
    ensures
        match r {
            Some(p) => atom.kind@ == kind@ && atom.deep_view().file_path == Some(p@),
            None => atom.kind@ != kind@ || atom.deep_view().file_path is None,
        },
{
    if !str_eq(atom.kind.as_str(), kind) {
        return None;
    }
    match &atom.file_path {
        Some(p) => Some(p.as_str()),
        None => None,
    }
}

/// The files of the modules, and the name of the first module of each.
fn collect_modules(atoms: &Vec<Atom>) -> (r: (Vec<String>, StringHashMap<String>))
    ensures
        r.0.deep_view() == module_paths(atoms.deep_view()),
        forall|p: Seq<char>| #[trigger]
            r.1@.contains_key(p) <==> module_name_at(atoms.deep_view(), p) is Some,
        forall|p: Seq<char>| #[trigger]
            r.1@.contains_key(p) ==> module_name_at(atoms.deep_view(), p) == Some(r.1@[p]@),
{
    let ghost v = atoms.deep_view();
    let mut paths: Vec<String> = Vec::new();
    let mut names: StringHashMap<String> = StringHashMap::new();
    let mut i: usize = 0;
    assert(v.take(0) =~= Seq::<AtomEntry>::empty());
    assert(paths.deep_view() =~= Seq::<Seq<char>>::empty());
    while i < atoms.len()
        invariant
            i <= atoms.len(),
            v == atoms.deep_view(),
            paths.deep_view() == module_paths(v.take(i as int)),
            forall|p: Seq<char>| #[trigger]
                names@.contains_key(p) <==> module_name_at(v.take(i as int), p) is Some,
            forall|p: Seq<char>| #[trigger]
                names@.contains_key(p) ==> module_name_at(v.take(i as int), p) == Some(
                    names@[p]@,
                ),
        decreases atoms.len() - i,
    {
        let ghost had = paths.deep_view();
        assert(v[i as int] == atoms[i as int].deep_view());
        assert(v.take(i + 1).drop_last() =~= v.take(i as int));
        assert(v.take(i + 1).last() == v[i as int]);
        if let Some(p) = file_path_of(&atoms[i], "module") {
            paths.push(p.to_owned());
            assert(paths.deep_view() =~= had.push(p@));
            if !names.contains_key(p) {
                names.insert(p.to_owned(), atoms[i].name.clone());
            }
        }
        i += 1;
    }
    assert(v.take(atoms.len() as int) =~= v);
    (paths, names)
}

/// The file of the module and the kind of the item that a relation connects.
fn item_between(catalog: &Catalog, from: &str, to: &str, kind: &str) -> (r: Option<
    (String, String),
>)
    ensures
        match r {
            Some(p) => contained(
                catalog@.atoms,
                (RelationEntry { from: from@, to: to@, kind: kind@ }),
            ) == Some(p.deep_view()),
            None => contained(
                catalog@.atoms,
                (RelationEntry { from: from@, to: to@, kind: kind@ }),
            ) is None,
        },
{
    if !str_eq(kind, "contains") {
        return None;
    }
    match (catalog.get_node(from), catalog.get_node(to)) {
        (Some(m), Some(item)) => match file_path_of(m, "module") {
            Some(p) => Some((p.to_owned(), item.kind.clone())),
            None => None,
        },
        _ => None,
    }
}

/// The counts of the items of each of the files in `paths`.
fn count_items(catalog: &Catalog, paths: &Vec<String>) -> (r: Vec<ModuleCounts>)
    requires
        paths.deep_view().no_duplicates(),
    ensures
        r.len() == paths.len(),
        forall|k: int|
            0 <= k < r.len() ==> (#[trigger] r@[k])@ == items_of(
                catalog@.atoms,
                catalog@.relations,
                paths.deep_view()[k],
            ),
{
    let rs = catalog.relations();
    let ghost a = catalog@.atoms;
    let ghost v = rs.deep_view();
    let ghost ps = paths.deep_view();
    let index = index_names(paths);
    let mut counts: Vec<ModuleCounts> = Vec::new();
    let mut k: usize = 0;
    assert(v.take(0) =~= Seq::<RelationEntry>::empty());
    while k < paths.len()
        invariant
            k <= paths.len(),
            counts.len() == k,
            v.take(0) == Seq::<RelationEntry>::empty(),
            forall|m: int|
                0 <= m < k ==> (#[trigger] counts@[m])@ == items_of(a, v.take(0), ps[m]),
        decreases paths.len() - k,
    {
        counts.push(ModuleCounts::default());
        k += 1;
    }
    let mut i: usize = 0;
    while i < rs.len()
        invariant
            i <= rs.len(),
            a == catalog@.atoms,
            v == rs.deep_view(),
            ps == paths.deep_view(),
            ps.no_duplicates(),
            counts.len() == paths.len(),
            forall|s: Seq<char>| #[trigger] index@.contains_key(s) <==> ps.contains(s),
            forall|s: Seq<char>| #[trigger]
                index@.contains_key(s) ==> index@[s] < paths.len() && ps[index@[s] as int] == s,
            forall|m: int|
                0 <= m < counts.len() ==> (#[trigger] counts@[m])@ == items_of(
                    a,
                    v.take(i as int),
                    ps[m],
                ),
        decreases rs.len() - i,
    {
        let ghost before = counts@;
        let ghost e = v[i as int];
        assert(e == rs[i as int].deep_view());
        assert(v.take(i + 1).drop_last() =~= v.take(i as int));
        assert(v.take(i + 1).last() == e);
        let item = item_between(
            catalog,
            rs[i].from.as_str(),
            rs[i].to.as_str(),
            rs[i].kind.as_str(),
        );
        if let Some(item) = item {
            let known: Option<usize> = match index.get(item.0.as_str()) {
                Some(p) => Some(*p),
                None => None,
            };
            if let Some(p) = known {
                proof {
                    lemma_items_bounded(a, v.take(i as int), ps[p as int]);
                }
                let mut bumped = counts[p];
                bumped.bump(item.1.as_str());
                counts.set(p, bumped);
                proof {
                    assert forall|m: int| 0 <= m < counts.len() implies (
                    #[trigger] counts@[m])@ == items_of(a, v.take(i + 1), ps[m]) by {
                        if m != p {
                            assert(counts@[m] == before[m]);
                            assert(ps[m] != ps[p as int]);
                        }
                    }
                }
            } else {
                proof {
                    assert(!index@.contains_key(item.0@));
                    assert forall|m: int| 0 <= m < counts.len() implies (
                    #[trigger] counts@[m])@ == items_of(a, v.take(i + 1), ps[m]) by {
                        assert(ps.contains(ps[m]));
                    }
                }
            }
        }
        i += 1;
    }
    assert(v.take(rs.len() as int) =~= v);
    counts
}

/// The files that a relation connects.
fn call_between(catalog: &Catalog, from: &str, to: &str, kind: &str) -> (r: Option<
    (String, String),
>)
    ensures
        match r {
            Some(p) => file_call(
                catalog@.atoms,
                (RelationEntry { from: from@, to: to@, kind: kind@ }),
            ) == Some(p.deep_view()),
            None => file_call(
                catalog@.atoms,
                (RelationEntry { from: from@, to: to@, kind: kind@ }),
            ) is None,
        },
{
    if !str_eq(kind, "calls") {
        return None;
    }
    match (catalog.get_node(from), catalog.get_node(to)) {
        (Some(a), Some(b)) => match (file_path_of(a, "function"), file_path_of(b, "function")) {
            (Some(x), Some(y)) => if str_eq(x, y) {
                None
            } else {
                Some((x.to_owned(), y.to_owned()))
            },
            _ => None,
        },
        _ => None,
    }
}

/// The calls between files.
fn collect_calls(catalog: &Catalog) -> (r: Vec<(String, String)>)
    ensures
        r.deep_view() == file_calls(catalog@.atoms, catalog@.relations),
{
    let rs = catalog.relations();
    let ghost a = catalog@.atoms;
    let ghost v = rs.deep_view();
    let mut out: Vec<(String, String)> = Vec::new();
    let mut i: usize = 0;
    assert(v.take(0) =~= Seq::<RelationEntry>::empty());
    assert(out.deep_view() =~= Seq::<(Seq<char>, Seq<char>)>::empty());
    while i < rs.len()
        invariant
            i <= rs.len(),
            v == rs.deep_view(),
            a == catalog@.atoms,
            out.deep_view() == file_calls(a, v.take(i as int)),
        decreases rs.len() - i,
    {
        let ghost had = out.deep_view();
        assert(v[i as int] == rs[i as int].deep_view());
        assert(v.take(i + 1).drop_last() =~= v.take(i as int));
        assert(v.take(i + 1).last() == v[i as int]);
        let call = call_between(
            catalog,
            rs[i].from.as_str(),
            rs[i].to.as_str(),
            rs[i].kind.as_str(),
        );
        if let Some(pair) = call {
            let ghost pv = pair.deep_view();
            out.push(pair);
            assert(out.deep_view() =~= had.push(pv));
        }
        i += 1;
    }
    assert(v.take(rs.len() as int) =~= v);
    out
}

/// Draws the overview: one node for each file with modules, with the counts of
/// their items, and one edge for each pair of files with calls between their
/// functions, labelled with the number of calls.
pub fn render(catalog: &Catalog) -> (r: String)
    ensures
        r@ == overview_text(catalog@),
{
    let ghost c = catalog@;
    let (all_paths, names) = collect_modules(catalog.atoms());
    let paths = sort_keys(&all_paths);
    let ghost ps = paths.deep_view();
    proof {
        lemma_distinct(ps);
    }
    let counts = count_items(catalog, &paths);
    let ghost f = module_line(c);
    let mut out = "graph TD\n".to_owned();
    let ghost top = out@;
    let mut i: usize = 0;
    assert(ps.take(0) =~= Seq::<Seq<char>>::empty());
    assert(out@ =~= top + Seq::<char>::empty());
    while i < paths.len()
        invariant
            i <= paths.len(),
            ps == paths.deep_view(),
            c == catalog@,
            f == module_line(c),
            lists_keys::<String>(ps, module_paths(c.atoms)),
            counts.len() == paths.len(),
            forall|k: int|
                0 <= k < counts.len() ==> (#[trigger] counts@[k])@ == items_of(
                    c.atoms,
                    c.relations,
                    ps[k],
                ),
            forall|p: Seq<char>| #[trigger]
                names@.contains_key(p) <==> module_name_at(c.atoms, p) is Some,
            forall|p: Seq<char>| #[trigger]
                names@.contains_key(p) ==> module_name_at(c.atoms, p) == Some(names@[p]@),
            out@ == top + lines(ps.take(i as int), f),
        decreases paths.len() - i,
    {
        let ghost before = out@;
        let ghost path = ps[i as int];
        proof {
            lemma_lines_step(ps, f, i as int);
            assert(path == paths[i as int]@);
            assert(counts@[i as int]@ == items_of(c.atoms, c.relations, path));
            assert(ps.contains(path));
            assert(module_paths(c.atoms).contains(path));
            lemma_named(c.atoms, path);
            assert(names@.contains_key(path));
        }
        if let Some(name) = names.get(paths[i].as_str()) {
            let label = counts[i].label(name.as_str());
            out.append("    ");
            out.append(mermaid_id(paths[i].as_str()).as_str());
            out.append("[\"");
            out.append(escape_label(label.as_str()).as_str());
            out.append("\"]\n");
            assert(out@ =~= before + f(path));
        }
        i += 1;
        assert(out@ =~= top + lines(ps.take(i as int), f));
    }
    assert(ps.take(paths.len() as int) =~= ps);
    let calls = collect_calls(catalog);
    proof {
        reveal_strlit("");
        assert(""@ =~= Seq::<char>::empty());
    }
    push_call_lines(&mut out, &calls, "");
    out
}

} // verus!
