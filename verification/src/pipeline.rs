//! From sources to a report: parsing, indexing, and drawing.

use crate::bundle::entities::{
    collect_entities, entity_ids, entries_of, records_of, EntityRecord,
};
use crate::bundle::index::{build_index, BundleIndex, Stats, SCHEMA_VERSION};
use crate::error::{is_invalid, AstToMermaidError, Result};
use crate::graph::catalog::{mirrors, Catalog, CatalogView};
use crate::graph::memory::{Store, StoreView};
use crate::hash::{hex, hex_sha256, sha256_of};
use crate::keys::sorted_keys;
use crate::model::{AtomView, Edge, EdgeView};
use crate::parser::code::{law_parsed, parse_outcome, CodeParser};
use crate::parser::language::Language;
use crate::parser::laws::all_in_file;
use crate::parser::unit::{with_atoms, ParseUnit, UnitView};
use crate::render::{level_text, overview, project, Level};
use crate::text::str_eq;
use vstd::prelude::*;
use vstd::string::*;
use vstd::utf8::encode_utf8;

verus! {

// ── Options and reports ──────────────────────────────────────────────────────

/// What a store is kept for.
#[derive(Debug, Clone, PartialEq, Eq)]
pub struct Scope {
    pub namespace: String,
    pub repo: String,
    pub branch: String,
}

/// Options of an analysis.
#[derive(Debug, Clone)]
pub struct AnalyzeOptions {
    /// Mermaid view to render.
    pub level: Level,
    /// Module or function that a view is drawn around.
    pub target: Option<String>,
    /// Names of directories to skip, besides those that always are.
    pub exclude: Vec<String>,
    /// What the store is kept for.
    pub scope: Scope,
}

impl Default for AnalyzeOptions {
    fn default() -> (r: Self)
        ensures
            r.level == Level::Project,
            r.target is None,
            r.exclude@.len() == 0,
            r.scope.namespace@ == "local"@,
            r.scope.repo@ == "local"@,
            r.scope.branch@ == "main"@,
    {
        AnalyzeOptions {
            level: Level::Project,
            target: None,
            exclude: Vec::new(),
            scope: Scope {
                namespace: "local".to_owned(),
                repo: "local".to_owned(),
                branch: "main".to_owned(),
            },
        }
    }
}

/// What an analysis returns.
#[derive(Debug, Clone, PartialEq, Eq)]
pub struct AnalyzeReport {
    /// Rendered Mermaid source.
    pub mermaid: String,
    /// Files that were parsed.
    pub files_parsed: usize,
    /// Atoms indexed across all files.
    pub atoms_indexed: usize,
    /// Calls across modules that were resolved.
    pub edges_resolved: usize,
}

/// Refuses a root that does not exist.
pub fn check_root(root: &str, found: bool) -> (r: Result<()>)
    ensures
        found ==> r is Ok,
        !found ==> is_invalid(r, "path does not exist: "@ + root@),
{
    if found {
        Ok(())
    } else {
        Err(AstToMermaidError::InvalidInput("path does not exist: ".to_owned().concat(root)))
    }
}

// ── Sources ──────────────────────────────────────────────────────────────────

/// A source file that was read.
#[derive(Debug)]
pub struct Source {
    /// Path relative to the root.
    pub path: String,
    pub language: Language,
    pub content: Vec<u8>,
}

/// What a [`Source`] holds.
#[verifier::ext_equal]
pub struct SourceView {
    pub path: Seq<char>,
    pub language: Language,
    pub content: Seq<u8>,
}

impl DeepView for Source {
    type V = SourceView;

    open spec fn deep_view(&self) -> SourceView {
        SourceView { path: self.path@, language: self.language, content: self.content@ }
    }
}

/// What parsing a source comes to, with a depth limit of recursive walks.
pub open spec fn source_outcome(s: SourceView, limit: nat) -> std::result::Result<
    UnitView,
    Seq<char>,
> {
    parse_outcome(s.language, limit, s.content, s.path)
}

/// A store with what a unit holds.
pub open spec fn with_unit(s: StoreView, u: UnitView) -> StoreView {
    StoreView { atoms: with_atoms(s.atoms, u.atoms), edges: s.edges + u.edges }
}

/// What indexing sources comes to: the store and the number of atoms that the
/// units hold, or what the error says of the first source that does not parse.
pub open spec fn index_outcome(ss: Seq<SourceView>, limit: nat) -> std::result::Result<
    (StoreView, nat),
    Seq<char>,
>
    decreases ss.len(),
{
    if ss.len() == 0 {
        Ok((StoreView { atoms: Map::empty(), edges: Seq::empty() }, 0))
    } else {
        match index_outcome(ss.drop_last(), limit) {
            Err(e) => Err(e),
            Ok((store, n)) => match source_outcome(ss.last(), limit) {
                Err(e) => Err("parse "@ + ss.last().path + ": "@ + ("invalid input: "@ + e)),
                Ok(u) => Ok((with_unit(store, u), n + u.atoms.len())),
            },
        }
    }
}

/// A number as far as it can be counted.
pub open spec fn counted(n: nat) -> usize {
    if n <= usize::MAX {
        n as usize
    } else {
        usize::MAX
    }
}

/// Sources that were parsed and indexed.
pub struct Indexed {
    pub store: Store,
    /// Number of sources.
    pub files_parsed: usize,
    /// Number of atoms that the parser gave, as far as it can be counted.
    pub atoms_indexed: usize,
}

impl Indexed {
    /// Nothing.
    pub fn new() -> (r: Self)
        ensures
            r.store@ == (StoreView { atoms: Map::empty(), edges: Seq::empty() }),
            r.files_parsed == 0,
            r.atoms_indexed == 0,
    {
        Indexed { store: Store::new(), files_parsed: 0, atoms_indexed: 0 }
    }

    /// Adds what one source was parsed to.
    pub fn add_unit(&mut self, unit: ParseUnit)
        requires
            old(self).files_parsed < usize::MAX,
        ensures
            final(self).store@ == with_unit(old(self).store@, unit.deep_view()),
            final(self).files_parsed == old(self).files_parsed + 1,
            final(self).atoms_indexed == counted(
                old(self).atoms_indexed as nat + unit.deep_view().atoms.len(),
            ),
    {
        assert(unit.atoms.len() == unit.deep_view().atoms.len());
        self.atoms_indexed = match self.atoms_indexed.checked_add(unit.atoms.len()) {
            Some(n) => n,
            None => usize::MAX,
        };
        self.files_parsed += 1;
        unit.apply_to(&mut self.store);
    }
}

/// Adds edges to a store.
fn add_edges(store: &mut Store, edges: &Vec<Edge>)
    ensures
        final(store)@ == (StoreView {
            atoms: old(store)@.atoms,
            edges: old(store)@.edges + edges.deep_view(),
        }),
{
    let ghost had = store@;
    let ghost v = edges.deep_view();
    let mut i: usize = 0;
    assert(store@.edges =~= had.edges + v.take(0));
    while i < edges.len()
        invariant
            i <= edges.len(),
            v == edges.deep_view(),
            store@.atoms == had.atoms,
            store@.edges == had.edges + v.take(i as int),
        decreases edges.len() - i,
    {
        assert(v[i as int] == edges[i as int].deep_view());
        store.add_edge(edges[i].clone());
        i += 1;
        assert(store@.edges =~= had.edges + v.take(i as int));
    }
    assert(v.take(edges.len() as int) =~= v);
}

/// Parses and indexes sources in order, and stops at the first that does not
/// parse. `limit` is the depth limit of recursive walks.
pub fn index_sources(sources: &Vec<Source>, limit: usize) -> (r: Result<Indexed>)
    ensures
        match index_outcome(sources.deep_view(), limit as nat) {
            Ok((store, n)) => r matches Ok(x) && x.store@ == store && x.files_parsed
                == sources.len() && x.atoms_indexed == counted(n),
            Err(e) => is_invalid(r, e),
        },
{
    let ghost ss = sources.deep_view();
    let mut indexed = Indexed::new();
    let ghost mut n: nat = 0;
    let mut i: usize = 0;
    assert(ss.take(0) =~= Seq::<SourceView>::empty());
    while i < sources.len()
        invariant
            i <= sources.len(),
            ss == sources.deep_view(),
            index_outcome(ss.take(i as int), limit as nat) == Ok::<(StoreView, nat), Seq<char>>(
                (indexed.store@, n),
            ),
            indexed.files_parsed == i,
            indexed.atoms_indexed == counted(n),
        decreases sources.len() - i,
    {
        let s = &sources[i];
        assert(ss[i as int] == s.deep_view());
        assert(ss.take(i + 1).drop_last() =~= ss.take(i as int));
        assert(ss.take(i + 1).last() == ss[i as int]);
        let parser = match s.language {
            Language::Rust => CodeParser::rust(),
            Language::Python => CodeParser::python(),
            Language::Dart => CodeParser::dart(),
        };
        match parser.with_depth_limit(limit).parse(s.content.as_slice(), s.path.as_str()) {
            Err(e) => {
                proof {
                    lemma_index_error(ss, limit as nat, i as int);
                }
                return Err(
                    AstToMermaidError::InvalidInput(
                        "parse ".to_owned().concat(s.path.as_str()).concat(": ").concat(
                            e.to_string().as_str(),
                        ),
                    ),
                );
            },
            Ok(unit) => {
                proof {
                    n = n + unit.deep_view().atoms.len();
                }
                indexed.add_unit(unit);
            },
        }
        i += 1;
    }
    assert(ss.take(sources.len() as int) =~= ss);
    Ok(indexed)
}

/// Once indexing fails it stays failed.
proof fn lemma_index_error(ss: Seq<SourceView>, limit: nat, i: int)
    requires
        0 <= i < ss.len(),
        index_outcome(ss.take(i + 1), limit) is Err,
    ensures
        index_outcome(ss, limit) == index_outcome(ss.take(i + 1), limit),
    decreases ss.len() - i,
{
    if i + 1 == ss.len() {
        assert(ss.take(i + 1) =~= ss);
    } else {
        assert(ss.take(i + 2).drop_last() =~= ss.take(i + 1));
        lemma_index_error(ss, limit, i + 1);
    }
}

/// Sources that parse are indexed one after the other: more sources only add
/// to what the first ones gave.
pub proof fn law_index_extends(ss: Seq<SourceView>, s: SourceView, limit: nat)
    requires
        index_outcome(ss, limit) is Ok,
        source_outcome(s, limit) is Ok,
    ensures
        index_outcome(ss.push(s), limit) == Ok::<(StoreView, nat), Seq<char>>(
            (
                with_unit(index_outcome(ss, limit)->Ok_0.0, source_outcome(s, limit)->Ok_0),
                index_outcome(ss, limit)->Ok_0.1 + source_outcome(s, limit)->Ok_0.atoms.len(),
            ),
        ),
{
    assert(ss.push(s).drop_last() =~= ss);
}

proof fn lemma_with_atoms(m: Map<Seq<char>, AtomView>, atoms: Seq<AtomView>)
    ensures
        forall|id: Seq<char>| #[trigger]
            with_atoms(m, atoms).dom().contains(id) ==> (m.dom().contains(id) && with_atoms(
                m,
                atoms,
            )[id] == m[id]) || (atoms.contains(with_atoms(m, atoms)[id]) && with_atoms(
                m,
                atoms,
            )[id].id == id),
        forall|id: Seq<char>| #[trigger]
            m.dom().contains(id) ==> with_atoms(m, atoms).dom().contains(id),
        forall|q: int|
            0 <= q < atoms.len() ==> with_atoms(m, atoms).dom().contains((#[trigger] atoms[q]).id),
    decreases atoms.len(),
{
    if atoms.len() > 0 {
        let front = atoms.drop_last();
        lemma_with_atoms(m, front);
        assert(atoms[atoms.len() - 1] == atoms.last());
        assert forall|id: Seq<char>| #[trigger]
            with_atoms(m, atoms).dom().contains(id) implies (m.dom().contains(id) && with_atoms(
            m,
            atoms,
        )[id] == m[id]) || (atoms.contains(with_atoms(m, atoms)[id]) && with_atoms(m, atoms)[id].id
            == id) by {
            if id != atoms.last().id {
                assert(with_atoms(m, front).dom().contains(id));
                if front.contains(with_atoms(m, front)[id]) {
                    let q = choose|q: int|
                        0 <= q < front.len() && front[q] == with_atoms(m, front)[id];
                    assert(atoms[q] == with_atoms(m, atoms)[id]);
                }
            }
        }
        assert forall|q: int| 0 <= q < atoms.len() implies with_atoms(m, atoms).dom().contains(
            (#[trigger] atoms[q]).id,
        ) by {
            if q < front.len() {
                assert(front[q] == atoms[q]);
            }
        }
    }
}

/// Of two atoms with one id the later one is kept.
pub proof fn law_last_atom_kept(m: Map<Seq<char>, AtomView>, atoms: Seq<AtomView>, q: int)
    requires
        0 <= q < atoms.len(),
        forall|k: int| q < k < atoms.len() ==> (#[trigger] atoms[k]).id != atoms[q].id,
    ensures
        with_atoms(m, atoms).dom().contains(atoms[q].id),
        with_atoms(m, atoms)[atoms[q].id] == atoms[q],
    decreases atoms.len(),
{
    let front = atoms.drop_last();
    if q < front.len() {
        assert(atoms[atoms.len() - 1].id != atoms[q].id);
        assert forall|k: int| q < k < front.len() implies (#[trigger] front[k]).id != front[q].id by {
            assert(front[k] == atoms[k]);
        }
        law_last_atom_kept(m, front, q);
    }
}

/// Indexing fails if and only if a source does not parse.
pub proof fn law_index_fails(ss: Seq<SourceView>, limit: nat)
    ensures
        index_outcome(ss, limit) is Err <==> exists|i: int|
            0 <= i < ss.len() && source_outcome(#[trigger] ss[i], limit) is Err,
    decreases ss.len(),
{
    if ss.len() > 0 {
        let front = ss.drop_last();
        law_index_fails(front, limit);
        if index_outcome(front, limit) is Err {
            let i = choose|i: int|
                0 <= i < front.len() && source_outcome(#[trigger] front[i], limit) is Err;
            assert(source_outcome(ss[i], limit) is Err);
        } else if source_outcome(ss.last(), limit) is Err {
            assert(source_outcome(ss[ss.len() - 1], limit) is Err);
        } else {
            assert forall|i: int| 0 <= i < ss.len() implies source_outcome(
                #[trigger] ss[i],
                limit,
            ) is Ok by {
                if i < front.len() {
                    assert(front[i] == ss[i]);
                }
            }
        }
    }
}

/// What any of the sources holds is in the index: its relations, and an atom for
/// each of its ids.
pub proof fn law_index_complete(ss: Seq<SourceView>, limit: nat, i: int)
    requires
        index_outcome(ss, limit) is Ok,
        0 <= i < ss.len(),
    ensures
        source_outcome(ss[i], limit) is Ok,
        forall|q: int|
            0 <= q < source_outcome(ss[i], limit)->Ok_0.edges.len() ==> index_outcome(
                ss,
                limit,
            )->Ok_0.0.edges.contains(#[trigger] source_outcome(ss[i], limit)->Ok_0.edges[q]),
        forall|q: int|
            0 <= q < source_outcome(ss[i], limit)->Ok_0.atoms.len() ==> index_outcome(
                ss,
                limit,
            )->Ok_0.0.atoms.dom().contains(
                (#[trigger] source_outcome(ss[i], limit)->Ok_0.atoms[q]).id,
            ),
    decreases ss.len(),
{
    let front = ss.drop_last();
    let (store, n) = index_outcome(front, limit)->Ok_0;
    let last = source_outcome(ss.last(), limit)->Ok_0;
    let all = index_outcome(ss, limit)->Ok_0.0;
    lemma_with_atoms(store.atoms, last.atoms);
    if i < front.len() {
        assert(front[i] == ss[i]);
        law_index_complete(front, limit, i);
        let u = source_outcome(ss[i], limit)->Ok_0;
        assert forall|q: int| 0 <= q < u.edges.len() implies all.edges.contains(
            #[trigger] u.edges[q],
        ) by {
            assert(store.edges.contains(u.edges[q]));
            let k = choose|k: int| 0 <= k < store.edges.len() && store.edges[k] == u.edges[q];
            assert(all.edges[k] == u.edges[q]);
        }
    } else {
        assert forall|q: int| 0 <= q < last.edges.len() implies all.edges.contains(
            #[trigger] last.edges[q],
        ) by {
            assert(all.edges[store.edges.len() + q] == last.edges[q]);
        }
    }
}

/// Whether some source that parses holds a relation.
pub open spec fn holds_edge(ss: Seq<SourceView>, limit: nat, e: EdgeView) -> bool {
    exists|i: int|
        0 <= i < ss.len() && source_outcome(#[trigger] ss[i], limit) is Ok && source_outcome(
            ss[i],
            limit,
        )->Ok_0.edges.contains(e)
}

/// Whether some source that parses holds an atom.
pub open spec fn holds_atom(ss: Seq<SourceView>, limit: nat, a: AtomView) -> bool {
    exists|i: int|
        0 <= i < ss.len() && source_outcome(#[trigger] ss[i], limit) is Ok && source_outcome(
            ss[i],
            limit,
        )->Ok_0.atoms.contains(a)
}

/// The index holds nothing but what the sources hold, each atom under its id.
pub proof fn law_index_only(ss: Seq<SourceView>, limit: nat)
    requires
        index_outcome(ss, limit) is Ok,
    ensures
        forall|k: int|
            0 <= k < index_outcome(ss, limit)->Ok_0.0.edges.len() ==> holds_edge(
                ss,
                limit,
                #[trigger] index_outcome(ss, limit)->Ok_0.0.edges[k],
            ),
        forall|id: Seq<char>| #[trigger]
            index_outcome(ss, limit)->Ok_0.0.atoms.dom().contains(id) ==> holds_atom(
                ss,
                limit,
                index_outcome(ss, limit)->Ok_0.0.atoms[id],
            ) && index_outcome(ss, limit)->Ok_0.0.atoms[id].id == id,
    decreases ss.len(),
{
    if ss.len() > 0 {
        let front = ss.drop_last();
        let (store, n) = index_outcome(front, limit)->Ok_0;
        let last = source_outcome(ss.last(), limit)->Ok_0;
        let all = index_outcome(ss, limit)->Ok_0.0;
        law_index_only(front, limit);
        lemma_with_atoms(store.atoms, last.atoms);
        assert(ss[ss.len() - 1] == ss.last());
        assert forall|k: int| 0 <= k < all.edges.len() implies holds_edge(
            ss,
            limit,
            #[trigger] all.edges[k],
        ) by {
            if k < store.edges.len() {
                assert(holds_edge(front, limit, store.edges[k]));
                let i = choose|i: int|
                    0 <= i < front.len() && source_outcome(#[trigger] front[i], limit) is Ok
                        && source_outcome(front[i], limit)->Ok_0.edges.contains(all.edges[k]);
                assert(source_outcome(ss[i], limit)->Ok_0.edges.contains(all.edges[k]));
            } else {
                assert(last.edges[k - store.edges.len()] == all.edges[k]);
                assert(source_outcome(ss[ss.len() - 1], limit)->Ok_0.edges.contains(all.edges[k]));
            }
        }
        assert forall|id: Seq<char>| #[trigger] all.atoms.dom().contains(id) implies holds_atom(
            ss,
            limit,
            all.atoms[id],
        ) && all.atoms[id].id == id by {
            if last.atoms.contains(all.atoms[id]) && all.atoms[id].id == id {
                assert(source_outcome(ss[ss.len() - 1], limit)->Ok_0.atoms.contains(all.atoms[id]));
            } else {
                assert(store.atoms.dom().contains(id));
                let i = choose|i: int|
                    0 <= i < front.len() && source_outcome(#[trigger] front[i], limit) is Ok
                        && source_outcome(front[i], limit)->Ok_0.atoms.contains(all.atoms[id]);
                assert(source_outcome(ss[i], limit)->Ok_0.atoms.contains(all.atoms[id]));
            }
        }
    }
}

// ── Snapshots ────────────────────────────────────────────────────────────────

/// The listing of a working tree: a line for each file, with its path and its
/// digest.
pub open spec fn tree_listing(sources: Seq<SourceView>) -> Seq<char>
    decreases sources.len(),
{
    if sources.len() == 0 {
        Seq::empty()
    } else {
        tree_listing(sources.drop_last()) + sources.last().path + "\0"@ + hex(
            sha256_of(sources.last().content),
        ) + "\n"@
    }
}

/// The id of the snapshot of a working tree: a digest of its listing.
pub fn worktree_id(sources: &Vec<Source>) -> (r: String)
    ensures
        r@ == "wt-"@ + hex(sha256_of(encode_utf8(tree_listing(sources.deep_view())))),
{
    let ghost v = sources.deep_view();
    let mut listing = String::new();
    let mut i: usize = 0;
    assert(v.take(0) =~= Seq::<SourceView>::empty());
    assert(listing@ =~= tree_listing(v.take(0)));
    while i < sources.len()
        invariant
            i <= sources.len(),
            v == sources.deep_view(),
            listing@ == tree_listing(v.take(i as int)),
        decreases sources.len() - i,
    {
        assert(v.take(i + 1).drop_last() =~= v.take(i as int));
        assert(v.take(i + 1).last() == sources[i as int].deep_view());
        let digest = hex_sha256(sources[i].content.as_slice());
        listing = listing.concat(sources[i].path.as_str()).concat("\0").concat(
            digest.as_str(),
        ).concat("\n");
        i += 1;
    }
    assert(v.take(sources.len() as int) =~= v);
    "wt-".to_owned().concat(hex_sha256(listing.as_str().as_bytes()).as_str())
}

/// Whether a unit that was kept for a content is the unit of the file at a
/// path: files of the same content share what is kept, and the atoms name the
/// file that was parsed.
pub fn fits(unit: &ParseUnit, path: &str) -> (r: bool)
    ensures
        r == all_in_file(unit.deep_view().atoms, path@),
{
    let ghost v = unit.deep_view().atoms;
    let mut i: usize = 0;
    while i < unit.atoms.len()
        invariant
            i <= unit.atoms.len(),
            v == unit.atoms.deep_view(),
            forall|k: int| 0 <= k < i ==> (#[trigger] v[k]).file_path == path@,
        decreases unit.atoms.len() - i,
    {
        assert(v[i as int] == unit.atoms[i as int].deep_view());
        if !str_eq(unit.atoms[i].file_path.as_str(), path) {
            return false;
        }
        i += 1;
    }
    true
}

/// The unit of a parsed source is a unit of its path.
pub proof fn law_parsed_fits(s: SourceView, limit: nat)
    ensures
        source_outcome(s, limit) matches Ok(u) ==> all_in_file(u.atoms, s.path),
{
    law_parsed(s.language, limit, s.content, s.path);
}

// ── Reports ──────────────────────────────────────────────────────────────────

/// A store with the calls across modules that were resolved.
pub open spec fn linked(s: StoreView, resolved: Seq<EdgeView>) -> StoreView {
    StoreView { atoms: s.atoms, edges: s.edges + resolved }
}

/// Adds the calls across modules that were resolved, and draws a level.
pub fn analyze(indexed: &mut Indexed, resolved: &Vec<Edge>, level: Level) -> (r: AnalyzeReport)
    ensures
        final(indexed).store@ == linked(old(indexed).store@, resolved.deep_view()),
        final(indexed).files_parsed == old(indexed).files_parsed,
        final(indexed).atoms_indexed == old(indexed).atoms_indexed,
        r.files_parsed == old(indexed).files_parsed,
        r.atoms_indexed == old(indexed).atoms_indexed,
        r.edges_resolved == resolved.len(),
        exists|c: CatalogView| #[trigger]
            mirrors(c, linked(old(indexed).store@, resolved.deep_view())) && r.mermaid@
                == level_text(level, c),
{
    add_edges(&mut indexed.store, resolved);
    let catalog = Catalog::of_store(&indexed.store);
    let mermaid = match level {
        Level::Project => project::render(&catalog),
        Level::Overview => overview::render(&catalog),
    };
    assert(mirrors(catalog@, linked(old(indexed).store@, resolved.deep_view())));
    AnalyzeReport {
        mermaid,
        files_parsed: indexed.files_parsed,
        atoms_indexed: indexed.atoms_indexed,
        edges_resolved: resolved.len(),
    }
}

/// The parts of a bundle.
pub struct Bundle {
    /// View of the modules.
    pub overview_mmd: String,
    /// View of the crates.
    pub project_mmd: String,
    pub entities: Vec<EntityRecord>,
    pub index: BundleIndex,
}

/// Whether the parts of a bundle are those of a catalog.
pub open spec fn is_bundle_of(b: Bundle, c: CatalogView) -> bool {
    let ids = sorted_keys::<String>(entity_ids(c.atoms));
    &&& b.overview_mmd@ == level_text(Level::Overview, c)
    &&& b.project_mmd@ == level_text(Level::Project, c)
    &&& b.entities.deep_view() == records_of(c, ids)
    &&& b.index.deep_view().entities == entries_of(c, ids)
}

/// Adds the calls across modules that were resolved, and makes the bundle.
pub fn bundle(
    indexed: &mut Indexed,
    resolved: &Vec<Edge>,
    source_root: &str,
    generated_at: &str,
    version: &str,
) -> (r: (Bundle, AnalyzeReport))
    ensures
        final(indexed).store@ == linked(old(indexed).store@, resolved.deep_view()),
        final(indexed).files_parsed == old(indexed).files_parsed,
        final(indexed).atoms_indexed == old(indexed).atoms_indexed,
        exists|c: CatalogView| #[trigger]
            mirrors(c, linked(old(indexed).store@, resolved.deep_view())) && is_bundle_of(r.0, c),
        r.0.index.schema_version == SCHEMA_VERSION,
        r.0.index.generated_at@ == generated_at@,
        r.0.index.ast_to_mermaid_version@ == version@,
        r.0.index.source_root@ == source_root@,
        r.0.index.stats == (Stats {
            files_parsed: old(indexed).files_parsed,
            atoms_indexed: old(indexed).atoms_indexed,
            edges_resolved: resolved.len(),
        }),
        r.1.mermaid@ == r.0.overview_mmd@,
        r.1.files_parsed == old(indexed).files_parsed,
        r.1.atoms_indexed == old(indexed).atoms_indexed,
        r.1.edges_resolved == resolved.len(),
{
    add_edges(&mut indexed.store, resolved);
    let catalog = Catalog::of_store(&indexed.store);
    let overview_mmd = overview::render(&catalog);
    let project_mmd = project::render(&catalog);
    let (entities, entries) = collect_entities(&catalog);
    let stats = Stats {
        files_parsed: indexed.files_parsed,
        atoms_indexed: indexed.atoms_indexed,
        edges_resolved: resolved.len(),
    };
    let report = AnalyzeReport {
        mermaid: overview_mmd.clone(),
        files_parsed: indexed.files_parsed,
        atoms_indexed: indexed.atoms_indexed,
        edges_resolved: resolved.len(),
    };
    let index = build_index(entries, source_root, stats, generated_at, version);
    let made = Bundle { overview_mmd, project_mmd, entities, index };
    assert(mirrors(catalog@, linked(old(indexed).store@, resolved.deep_view())) && is_bundle_of(
        made,
        catalog@,
    ));
    (made, report)
}

} // verus!
