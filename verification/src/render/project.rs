//! Project-level view: one node for each crate with its counts, and the calls
//! between crates.
//!
//! In a workspace with a `crates/` directory the crate is the directory below
//! it; elsewhere it is the leading segment of the path.

use crate::chars::{dec, push_decimal};
use crate::graph::catalog::{node, Atom, AtomEntry, Catalog, CatalogView, RelationEntry};
use crate::keys::{index_names, lemma_distinct, lists_keys, sort_keys, sorted_keys};
use crate::render::lines::{call_line, lemma_lines_step, lines, push_call_lines};
use crate::render::util::{crate_name, crate_of, escape_label, escaped, id_text, mermaid_id};
use crate::text::str_eq;
use vstd::prelude::*;
use vstd::string::*;

verus! {

// ── Counts ───────────────────────────────────────────────────────────────────

/// How many entities of each kind a crate has.
#[derive(Debug, Clone, Copy, PartialEq, Eq)]
pub struct CrateCounts {
    pub modules: usize,
    pub functions: usize,
    pub structs: usize,
    pub traits: usize,
    pub impls: usize,
    pub enums: usize,
}

/// What [`CrateCounts`] are.
pub struct CrateCountsView {
    pub modules: nat,
    pub functions: nat,
    pub structs: nat,
    pub traits: nat,
    pub impls: nat,
    pub enums: nat,
}

impl CrateCountsView {
    /// No entities.
    pub open spec fn zero() -> Self {
        Self { modules: 0, functions: 0, structs: 0, traits: 0, impls: 0, enums: 0 }
    }

    /// The counts with one more entity; kinds without a count change nothing.
    pub open spec fn bumped(self, kind: Seq<char>) -> Self {
        if kind == "module"@ {
            Self { modules: self.modules + 1, ..self }
        } else if kind == "function"@ {
            Self { functions: self.functions + 1, ..self }
        } else if kind == "struct"@ {
            Self { structs: self.structs + 1, ..self }
        } else if kind == "trait"@ {
            Self { traits: self.traits + 1, ..self }
        } else if kind == "impl"@ {
            Self { impls: self.impls + 1, ..self }
        } else if kind == "enum"@ {
            Self { enums: self.enums + 1, ..self }
        } else {
            self
        }
    }

    /// Whether no count is above `n`.
    pub open spec fn at_most(self, n: nat) -> bool {
        self.modules <= n && self.functions <= n && self.structs <= n && self.traits <= n
            && self.impls <= n && self.enums <= n
    }

    /// The label of a crate with these counts.
    pub open spec fn label(self, name: Seq<char>) -> Seq<char> {
        name + " — "@ + dec(self.modules) + " mod, "@ + dec(self.functions) + " fn, "@ + dec(
            self.structs,
        ) + " struct"@
    }
}

impl View for CrateCounts {
    type V = CrateCountsView;

    open spec fn view(&self) -> CrateCountsView {
        CrateCountsView {
            modules: self.modules as nat,
            functions: self.functions as nat,
            structs: self.structs as nat,
            traits: self.traits as nat,
            impls: self.impls as nat,
            enums: self.enums as nat,
        }
    }
}

impl Default for CrateCounts {
    fn default() -> (r: Self)
        ensures
            r@ == CrateCountsView::zero(),
    {
        Self { modules: 0, functions: 0, structs: 0, traits: 0, impls: 0, enums: 0 }
    }
}

impl CrateCounts {
    /// Counts one more entity of a kind.
    pub fn bump(&mut self, kind: &str)
        requires
            old(self)@.at_most((usize::MAX - 1) as nat),
        ensures
            final(self)@ == old(self)@.bumped(kind@),
    {
        if str_eq(kind, "module") {
            self.modules += 1;
        } else if str_eq(kind, "function") {
            self.functions += 1;
        } else if str_eq(kind, "struct") {
            self.structs += 1;
        } else if str_eq(kind, "trait") {
            self.traits += 1;
        } else if str_eq(kind, "impl") {
            self.impls += 1;
        } else if str_eq(kind, "enum") {
            self.enums += 1;
        }
    }

    /// The label of a crate with these counts.
    pub fn label(&self, name: &str) -> (r: String)
        ensures
            r@ == self@.label(name@),
    {
        let mut out = name.to_owned().concat(" — ");
        push_decimal(&mut out, self.modules as u64);
        out.append(" mod, ");
        push_decimal(&mut out, self.functions as u64);
        out.append(" fn, ");
        push_decimal(&mut out, self.structs as u64);
        out.append(" struct");
        out
    }
}

// ── What is drawn ────────────────────────────────────────────────────────────

/// Whether entities of a kind are counted.
pub open spec fn counted_kind(kind: Seq<char>) -> bool {
    kind == "module"@ || kind == "function"@ || kind == "struct"@ || kind == "trait"@ || kind
        == "impl"@ || kind == "enum"@
}

/// The crate of an atom whose file is known.
pub open spec fn atom_crate(a: AtomEntry) -> Option<Seq<char>> {
    match a.file_path {
        Some(p) => Some(crate_of(p)),
        None => None,
    }
}

/// The crates of the atoms that are counted, one for each atom.
pub open spec fn atom_crates(atoms: Seq<AtomEntry>) -> Seq<Seq<char>>
    decreases atoms.len(),
{
    if atoms.len() == 0 {
        Seq::empty()
    } else {
        let front = atom_crates(atoms.drop_last());
        match atom_crate(atoms.last()) {
            Some(c) => if counted_kind(atoms.last().kind) {
                front.push(c)
            } else {
                front
            },
            None => front,
        }
    }
}

/// The counts of one crate.
pub open spec fn counts_of(atoms: Seq<AtomEntry>, name: Seq<char>) -> CrateCountsView
    decreases atoms.len(),
{
    if atoms.len() == 0 {
        CrateCountsView::zero()
    } else {
        let front = counts_of(atoms.drop_last(), name);
        if atom_crate(atoms.last()) == Some(name) {
            front.bumped(atoms.last().kind)
        } else {
            front
        }
    }
}

/// The crates that a relation connects, if it is a call from a function of one
/// crate to an atom of another.
pub open spec fn crate_call(atoms: Seq<AtomEntry>, r: RelationEntry) -> Option<
    (Seq<char>, Seq<char>),
> {
    match (node(atoms, r.from), node(atoms, r.to)) {
        (Some(a), Some(b)) => match (atom_crate(a), atom_crate(b)) {
            (Some(from), Some(to)) => if r.kind == "calls"@ && a.kind == "function"@ && from != to {
                Some((from, to))
            } else {
                None
            },
            _ => None,
        },
        _ => None,
    }
}

/// The calls between crates.
pub open spec fn crate_calls(atoms: Seq<AtomEntry>, rs: Seq<RelationEntry>) -> Seq<
    (Seq<char>, Seq<char>),
>
    decreases rs.len(),
{
    if rs.len() == 0 {
        Seq::empty()
    } else {
        let front = crate_calls(atoms, rs.drop_last());
        match crate_call(atoms, rs.last()) {
            Some(pair) => front.push(pair),
            None => front,
        }
    }
}

/// Calls within a crate are not drawn: the ends of each call that is lie in
/// different crates.
pub proof fn law_calls_between_crates(atoms: Seq<AtomEntry>, rs: Seq<RelationEntry>)
    ensures
        forall|k: int|
            0 <= k < crate_calls(atoms, rs).len() ==> (#[trigger] crate_calls(atoms, rs)[k]).0
                != crate_calls(atoms, rs)[k].1,
    decreases rs.len(),
{
    if rs.len() > 0 {
        law_calls_between_crates(atoms, rs.drop_last());
        let front = crate_calls(atoms, rs.drop_last());
        let all = crate_calls(atoms, rs);
        assert forall|k: int| 0 <= k < all.len() implies (#[trigger] all[k]).0 != all[k].1 by {
            if k < front.len() {
                assert(all[k] == front[k]);
            }
        }
    }
}

/// The node of a crate.
pub open spec fn crate_line(atoms: Seq<AtomEntry>) -> spec_fn(Seq<char>) -> Seq<char> {
    |name: Seq<char>|
        "    "@ + id_text(name) + "[\""@ + escaped(counts_of(atoms, name).label(name)) + "\"]\n"@
}

/// The project-level view.
pub open spec fn project_text(c: CatalogView) -> Seq<char> {
    "graph TD\n"@ + lines(sorted_keys::<String>(atom_crates(c.atoms)), crate_line(c.atoms)) + lines(
        sorted_keys::<(String, String)>(crate_calls(c.atoms, c.relations)),
        call_line(crate_calls(c.atoms, c.relations), " calls"@),
    )
}

proof fn lemma_counts_bounded(atoms: Seq<AtomEntry>, name: Seq<char>)
    ensures
        counts_of(atoms, name).at_most(atoms.len()),
    decreases atoms.len(),
{
    if atoms.len() > 0 {
        lemma_counts_bounded(atoms.drop_last(), name);
    }
}

// ── Drawing ──────────────────────────────────────────────────────────────────

/// Whether entities of a kind are counted.
fn is_counted_kind(kind: &str) -> (r: bool)
    ensures
        r == counted_kind(kind@),
{
    str_eq(kind, "module") || str_eq(kind, "function") || str_eq(kind, "struct") || str_eq(
        kind,
        "trait",
    ) || str_eq(kind, "impl") || str_eq(kind, "enum")
}

/// The crate of an atom whose file is known.
fn crate_of_atom(atom: &Atom) -> (r: Option<String>)
    ensures
        match r {
            Some(c) => atom_crate(atom.deep_view()) == Some(c@),
            None => atom_crate(atom.deep_view()) is None,
        },
{
    match &atom.file_path {
        Some(p) => Some(crate_name(p.as_str())),
        None => None,
    }
}

/// The crates of the atoms that are counted.
fn collect_crates(atoms: &Vec<Atom>) -> (r: Vec<String>)
    ensures
        r.deep_view() == atom_crates(atoms.deep_view()),
{
    let ghost v = atoms.deep_view();
    let mut out: Vec<String> = Vec::new();
    let mut i: usize = 0;
    assert(v.take(0) =~= Seq::<AtomEntry>::empty());
    assert(out.deep_view() =~= Seq::<Seq<char>>::empty());
    while i < atoms.len()
        invariant
            i <= atoms.len(),
            v == atoms.deep_view(),
            out.deep_view() == atom_crates(v.take(i as int)),
        decreases atoms.len() - i,
    {
        let ghost had = out.deep_view();
        assert(v[i as int] == atoms[i as int].deep_view());
        assert(v.take(i + 1).drop_last() =~= v.take(i as int));
        assert(v.take(i + 1).last() == v[i as int]);
        if let Some(c) = crate_of_atom(&atoms[i]) {
            if is_counted_kind(atoms[i].kind.as_str()) {
                let ghost cv = c@;
                out.push(c);
                assert(out.deep_view() =~= had.push(cv));
            }
        }
        i += 1;
    }
    assert(v.take(atoms.len() as int) =~= v);
    out
}

/// The counts of each of the crates in `names`.
fn count_crates(atoms: &Vec<Atom>, names: &Vec<String>) -> (r: Vec<CrateCounts>)
    requires
        lists_keys::<String>(names.deep_view(), atom_crates(atoms.deep_view())),
    ensures
        r.len() == names.len(),
        forall|k: int|
            0 <= k < r.len() ==> (#[trigger] r@[k])@ == counts_of(
                atoms.deep_view(),
                names.deep_view()[k],
            ),
{
    let ghost v = atoms.deep_view();
    let ghost ns = names.deep_view();
    proof {
        lemma_distinct(ns);
    }
    let index = index_names(names);
    let mut counts: Vec<CrateCounts> = Vec::new();
    let mut k: usize = 0;
    assert(v.take(0) =~= Seq::<AtomEntry>::empty());
    while k < names.len()
        invariant
            k <= names.len(),
            counts.len() == k,
            v.take(0) == Seq::<AtomEntry>::empty(),
            forall|m: int|
                0 <= m < k ==> (#[trigger] counts@[m])@ == counts_of(v.take(0), ns[m]),
        decreases names.len() - k,
    {
        counts.push(CrateCounts::default());
        k += 1;
    }
    let mut i: usize = 0;
    while i < atoms.len()
        invariant
            i <= atoms.len(),
            v == atoms.deep_view(),
            ns == names.deep_view(),
            ns.no_duplicates(),
            counts.len() == names.len(),
            lists_keys::<String>(ns, atom_crates(v)),
            forall|s: Seq<char>| #[trigger] index@.contains_key(s) <==> ns.contains(s),
            forall|s: Seq<char>| #[trigger]
                index@.contains_key(s) ==> index@[s] < names.len() && ns[index@[s] as int] == s,
            forall|m: int|
                0 <= m < counts.len() ==> (#[trigger] counts@[m])@ == counts_of(
                    v.take(i as int),
                    ns[m],
                ),
        decreases atoms.len() - i,
    {
        let ghost before = counts@;
        let ghost e = v[i as int];
        assert(e == atoms[i as int].deep_view());
        assert(v.take(i + 1).drop_last() =~= v.take(i as int));
        assert(v.take(i + 1).last() == e);
        let name = crate_of_atom(&atoms[i]);
        if let Some(c) = name {
            let known: Option<usize> = match index.get(c.as_str()) {
                Some(p) => Some(*p),
                None => None,
            };
            if let Some(p) = known {
                proof {
                    lemma_counts_bounded(v.take(i as int), ns[p as int]);
                }
                let mut bumped = counts[p];
                bumped.bump(atoms[i].kind.as_str());
                counts.set(p, bumped);
                proof {
                    assert forall|m: int| 0 <= m < counts.len() implies (
                    #[trigger] counts@[m])@ == counts_of(v.take(i + 1), ns[m]) by {
                        if m != p {
                            assert(counts@[m] == before[m]);
                            assert(ns[m] != ns[p as int]);
                        }
                    }
                }
            } else {
                proof {
                    assert(!index@.contains_key(c@));
                    assert forall|m: int| 0 <= m < counts.len() implies (
                    #[trigger] counts@[m])@ == counts_of(v.take(i + 1), ns[m]) by {
                        assert(ns.contains(ns[m]));
                    }
                }
            }
        }
        i += 1;
    }
    assert(v.take(atoms.len() as int) =~= v);
    counts
}

/// The calls between crates.
fn collect_calls(catalog: &Catalog) -> (r: Vec<(String, String)>)
    ensures
        r.deep_view() == crate_calls(catalog@.atoms, catalog@.relations),
{
    let rs = catalog.relations();
    let ghost a = catalog@.atoms;
    let ghost v = rs.deep_view();
    let mut out: Vec<(String, String)> = Vec::new();
    let mut i: usize = 0;
    assert(v.take(0) =~= Seq::<RelationEntry>::empty());
    assert(out.deep_view() =~= Seq::<(Seq<char>, Seq<char>)>::empty());
    while i < rs.len()
        invariant
            i <= rs.len(),
            v == rs.deep_view(),
            a == catalog@.atoms,
            out.deep_view() == crate_calls(a, v.take(i as int)),
        decreases rs.len() - i,
    {
        let ghost had = out.deep_view();
        assert(v[i as int] == rs[i as int].deep_view());
        assert(v.take(i + 1).drop_last() =~= v.take(i as int));
        assert(v.take(i + 1).last() == v[i as int]);
        if let Some(pair) = call_between(catalog, rs[i].from.as_str(), rs[i].to.as_str(), rs[i].kind.as_str()) {
            let ghost pv = pair.deep_view();
            out.push(pair);
            assert(out.deep_view() =~= had.push(pv));
        }
        i += 1;
    }
    assert(v.take(rs.len() as int) =~= v);
    out
}

/// The crates that a relation connects.
fn call_between(catalog: &Catalog, from: &str, to: &str, kind: &str) -> (r: Option<
    (String, String),
>)
    ensures
        match r {
            Some(p) => crate_call(
                catalog@.atoms,
                (RelationEntry { from: from@, to: to@, kind: kind@ }),
            ) == Some(p.deep_view()),
            None => crate_call(
                catalog@.atoms,
                (RelationEntry { from: from@, to: to@, kind: kind@ }),
            ) is None,
        },
{
    if !str_eq(kind, "calls") {
        return None;
    }
    match (catalog.get_node(from), catalog.get_node(to)) {
        (Some(a), Some(b)) => {
            if !str_eq(a.kind.as_str(), "function") {
                return None;
            }
            match (crate_of_atom(a), crate_of_atom(b)) {
                (Some(x), Some(y)) => if str_eq(x.as_str(), y.as_str()) {
                    None
                } else {
                    Some((x, y))
                },
                _ => None,
            }
        },
        _ => None,
    }
}

/// Draws the project-level view: one node for each crate with the number of
/// its modules, functions and structs, and one edge for each pair of crates
/// with calls from one to the other, labelled with their number.
pub fn render(catalog: &Catalog) -> (r: String)
    ensures
        r@ == project_text(catalog@),
{
    let atoms = catalog.atoms();
    let ghost v = atoms.deep_view();
    let crates = collect_crates(atoms);
    let names = sort_keys(&crates);
    let counts = count_crates(atoms, &names);
    let ghost ns = names.deep_view();
    let ghost f = crate_line(v);
    let mut out = "graph TD\n".to_owned();
    let ghost top = out@;
    let mut i: usize = 0;
    assert(ns.take(0) =~= Seq::<Seq<char>>::empty());
    assert(out@ =~= top + Seq::<char>::empty());
    while i < names.len()
        invariant
            i <= names.len(),
            ns == names.deep_view(),
            f == crate_line(v),
            counts.len() == names.len(),
            forall|k: int|
                0 <= k < counts.len() ==> (#[trigger] counts@[k])@ == counts_of(v, ns[k]),
            out@ == top + lines(ns.take(i as int), f),
        decreases names.len() - i,
    {
        let ghost before = out@;
        proof {
            lemma_lines_step(ns, f, i as int);
            assert(ns[i as int] == names[i as int]@);
            assert(counts@[i as int]@ == counts_of(v, ns[i as int]));
        }
        let label = counts[i].label(names[i].as_str());
        out.append("    ");
        out.append(mermaid_id(names[i].as_str()).as_str());
        out.append("[\"");
        out.append(escape_label(label.as_str()).as_str());
        out.append("\"]\n");
        assert(out@ =~= before + f(ns[i as int]));
        i += 1;
        assert(out@ =~= top + lines(ns.take(i as int), f));
    }
    assert(ns.take(names.len() as int) =~= ns);
    let calls = collect_calls(catalog);
    push_call_lines(&mut out, &calls, " calls");
    out
}

} // verus!
