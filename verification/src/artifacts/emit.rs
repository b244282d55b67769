//! The artifacts of all entities of a store, and the index of them.

use crate::artifacts::entity::{
    adjacency, adjacent, entity_meta, entity_mmd, entity_text, meta_of, EntityMeta, MetaView,
};
use crate::artifacts::names::{filename_id, stem_of};
use crate::artifacts::sequences::{build_sequences, sequences_of, Extracted, SequenceArtifact};
use crate::graph::catalog::{mirrors, Catalog, CatalogView};
use crate::graph::memory::{lists_all, Store, StoreView};
use crate::hash::{hex, sha256_of};
use crate::model::{AtomKind, AtomKindView, AtomView, EdgeView, EntityId};
use crate::render::project::{project_text, render};
use crate::text::str_eq;
use vstd::prelude::*;
use vstd::string::*;
use vstd::utf8::encode_utf8;

verus! {

// ── Types ────────────────────────────────────────────────────────────────────

/// The artifacts of one entity.
pub struct EntityArtifact {
    /// Entity id.
    pub id: EntityId,
    /// Atom kind.
    pub kind: AtomKind,
    /// Diagram of the entity.
    pub mmd: String,
    /// Metadata of the entity.
    pub meta: EntityMeta,
}

/// What an [`EntityArtifact`] holds.
#[verifier::ext_equal]
pub struct ArtifactView {
    pub id: Seq<char>,
    pub kind: AtomKindView,
    pub mmd: Seq<char>,
    pub meta: MetaView,
}

impl DeepView for EntityArtifact {
    type V = ArtifactView;

    open spec fn deep_view(&self) -> ArtifactView {
        ArtifactView {
            id: self.id@,
            kind: self.kind@,
            mmd: self.mmd@,
            meta: self.meta.deep_view(),
        }
    }
}

/// One row of the index.
#[derive(Debug)]
pub struct IndexRow {
    pub id: String,
    pub kind: String,
    pub name: String,
    pub file: String,
    pub content_hash: String,
    pub mmd_path: String,
    pub meta_path: String,
    pub edges_out: Vec<String>,
    pub edges_in: Vec<String>,
    /// Path of the sequence diagram, where there is one.
    pub sequence_path: Option<String>,
}

/// What an [`IndexRow`] holds.
#[verifier::ext_equal]
pub struct IndexRowView {
    pub id: Seq<char>,
    pub kind: Seq<char>,
    pub name: Seq<char>,
    pub file: Seq<char>,
    pub content_hash: Seq<char>,
    pub mmd_path: Seq<char>,
    pub meta_path: Seq<char>,
    pub edges_out: Seq<Seq<char>>,
    pub edges_in: Seq<Seq<char>>,
    pub sequence_path: Option<Seq<char>>,
}

impl DeepView for IndexRow {
    type V = IndexRowView;

    open spec fn deep_view(&self) -> IndexRowView {
        IndexRowView {
            id: self.id@,
            kind: self.kind@,
            name: self.name@,
            file: self.file@,
            content_hash: self.content_hash@,
            mmd_path: self.mmd_path@,
            meta_path: self.meta_path@,
            edges_out: self.edges_out.deep_view(),
            edges_in: self.edges_in.deep_view(),
            sequence_path: self.sequence_path.deep_view(),
        }
    }
}

/// The index of all entities.
#[derive(Debug)]
pub struct Index {
    /// Version of the layout.
    pub schema: u32,
    pub entities: Vec<IndexRow>,
    pub generated_at: String,
    pub source_root: String,
}

/// Version of the layout of the index.
pub const INDEX_SCHEMA: u32 = 2;

/// The artifacts of a store.
pub struct ArtifactSet {
    /// Diagram of the project.
    pub overview_mmd: String,
    /// Artifacts of the entities.
    pub entities: Vec<EntityArtifact>,
    /// The index.
    pub index: Index,
    /// Sequence diagrams.
    pub sequences: Vec<SequenceArtifact>,
}

// ── What the artifacts are ───────────────────────────────────────────────────

/// The artifacts of an atom.
pub open spec fn artifact_of(es: Seq<EdgeView>, a: AtomView) -> ArtifactView {
    let adj = adjacent(es, a.id);
    ArtifactView {
        id: a.id,
        kind: AtomKindView::parsed(a.kind),
        mmd: entity_text(a, adj.callees, adj.callers),
        meta: meta_of(a, adj),
    }
}

/// The artifacts of several atoms.
pub open spec fn artifacts_of(es: Seq<EdgeView>, atoms: Seq<AtomView>) -> Seq<ArtifactView> {
    Seq::new(atoms.len(), |i: int| artifact_of(es, atoms[i]))
}

/// The file name stem of an entity.
pub open spec fn stem(id: Seq<char>) -> Seq<char> {
    stem_of(id, hex(sha256_of(encode_utf8(id)).take(3)))
}

/// The row of an entity; `with` are the ids of the entities that have a
/// sequence diagram.
pub open spec fn row_of(e: ArtifactView, with: Seq<Seq<char>>) -> IndexRowView {
    IndexRowView {
        id: e.id,
        kind: e.kind.text(),
        name: e.meta.name,
        file: e.meta.file,
        content_hash: e.meta.content_hash,
        mmd_path: "entities/"@ + stem(e.id) + ".mmd"@,
        meta_path: "entities/"@ + stem(e.id) + ".meta.json"@,
        edges_out: e.meta.callees,
        edges_in: e.meta.callers,
        sequence_path: if with.contains(e.id) {
            Some("sequences/"@ + stem(e.id) + ".mmd"@)
        } else {
            None
        },
    }
}

/// The rows of several entities.
pub open spec fn rows_of(es: Seq<ArtifactView>, with: Seq<Seq<char>>) -> Seq<IndexRowView> {
    Seq::new(es.len(), |i: int| row_of(es[i], with))
}

/// The ids of the entities that have a sequence diagram.
pub open spec fn drawn_ids(ss: Seq<(Seq<char>, Seq<char>)>) -> Seq<Seq<char>> {
    ss.map_values(|s: (Seq<char>, Seq<char>)| s.0)
}

/// Whether a set of artifacts is that of a store.
pub open spec fn is_set_of(
    set: ArtifactSet,
    s: StoreView,
    source_root: Seq<char>,
    generated_at: Seq<char>,
    extracted: Seq<(Seq<char>, Seq<(Seq<char>, nat, Seq<char>)>)>,
) -> bool {
    &&& exists|c: CatalogView| #[trigger] mirrors(c, s) && set.overview_mmd@ == project_text(c)
    &&& exists|atoms: Seq<AtomView>| #[trigger]
        lists_all(s.atoms, atoms) && set.entities.deep_view() == artifacts_of(s.edges, atoms)
    &&& set.sequences.deep_view() == sequences_of(set.entities.deep_view(), extracted)
    &&& set.index.schema == INDEX_SCHEMA
    &&& set.index.entities.deep_view() == rows_of(
        set.entities.deep_view(),
        drawn_ids(set.sequences.deep_view()),
    )
    &&& set.index.generated_at@ == generated_at
    &&& set.index.source_root@ == source_root
}

// ── Emitting ─────────────────────────────────────────────────────────────────

/// The artifacts of the entities of a store, in ascending order of their ids.
fn emit_entities(store: &Store) -> (r: Vec<EntityArtifact>)
    ensures
        exists|atoms: Seq<AtomView>| #[trigger]
            lists_all(store@.atoms, atoms) && r.deep_view() == artifacts_of(store@.edges, atoms),
{
    let atoms = store.all_atoms();
    let ghost v = atoms.deep_view();
    let ghost want = artifacts_of(store@.edges, v);
    let mut out: Vec<EntityArtifact> = Vec::new();
    let mut i: usize = 0;
    assert(out.deep_view() =~= want.take(0));
    while i < atoms.len()
        invariant
            i <= atoms.len(),
            v == atoms.deep_view(),
            want == artifacts_of(store@.edges, v),
            out.deep_view() == want.take(i as int),
        decreases atoms.len() - i,
    {
        let ghost had = out.deep_view();
        assert(v[i as int] == atoms[i as int].deep_view());
        let adj = adjacency(store, &atoms[i].id);
        let artifact = EntityArtifact {
            id: atoms[i].id.clone(),
            kind: AtomKind::parse(atoms[i].kind.as_str()),
            mmd: entity_mmd(&atoms[i], &adj.callees, &adj.callers),
            meta: entity_meta(&atoms[i], &adj),
        };
        assert(artifact.deep_view() == artifact_of(store@.edges, v[i as int]));
        out.push(artifact);
        assert(out.deep_view() =~= had.push(want[i as int]));
        i += 1;
        assert(out.deep_view() =~= want.take(i as int));
    }
    assert(want.take(atoms.len() as int) =~= want);
    assert(lists_all(store@.atoms, v));
    out
}

/// A copy of a list of texts.
fn copy_texts(v: &Vec<String>) -> (r: Vec<String>)
    ensures
        r.deep_view() == v.deep_view(),
{
    let mut out: Vec<String> = Vec::new();
    let mut i: usize = 0;
    assert(out.deep_view() =~= v.deep_view().take(0));
    while i < v.len()
        invariant
            i <= v.len(),
            out.deep_view() == v.deep_view().take(i as int),
        decreases v.len() - i,
    {
        let ghost had = out.deep_view();
        out.push(v[i].clone());
        assert(out.deep_view() =~= had.push(v[i as int]@));
        i += 1;
        assert(out.deep_view() =~= v.deep_view().take(i as int));
    }
    assert(v.deep_view().take(v.len() as int) =~= v.deep_view());
    out
}

/// Whether an entity has a sequence diagram.
fn is_drawn(sequences: &Vec<SequenceArtifact>, id: &str) -> (r: bool)
    ensures
        r == drawn_ids(sequences.deep_view()).contains(id@),
{
    let ghost ids = drawn_ids(sequences.deep_view());
    let mut i: usize = 0;
    while i < sequences.len()
        invariant
            i <= sequences.len(),
            ids == drawn_ids(sequences.deep_view()),
            forall|k: int| 0 <= k < i ==> #[trigger] ids[k] != id@,
        decreases sequences.len() - i,
    {
        assert(ids[i as int] == sequences[i as int].entity_id@);
        if str_eq(sequences[i].entity_id.as_str(), id) {
            return true;
        }
        i += 1;
    }
    false
}

/// The rows of the index.
pub fn build_index_rows(entities: &Vec<EntityArtifact>, sequences: &Vec<SequenceArtifact>) -> (r: Vec<
    IndexRow,
>)
    ensures
        r.deep_view() == rows_of(entities.deep_view(), drawn_ids(sequences.deep_view())),
{
    let ghost es = entities.deep_view();
    let ghost with = drawn_ids(sequences.deep_view());
    let ghost want = rows_of(es, with);
    let mut out: Vec<IndexRow> = Vec::new();
    let mut i: usize = 0;
    assert(out.deep_view() =~= want.take(0));
    while i < entities.len()
        invariant
            i <= entities.len(),
            es == entities.deep_view(),
            with == drawn_ids(sequences.deep_view()),
            want == rows_of(es, with),
            out.deep_view() == want.take(i as int),
        decreases entities.len() - i,
    {
        let ghost had = out.deep_view();
        let e = &entities[i];
        assert(es[i as int] == e.deep_view());
        let base = filename_id(e.id.as_str());
        let sequence_path = if is_drawn(sequences, e.id.as_str()) {
            Some("sequences/".to_owned().concat(base.as_str()).concat(".mmd"))
        } else {
            None
        };
        let row = IndexRow {
            id: e.id.to_string(),
            kind: e.kind.to_string(),
            name: e.meta.name.clone(),
            file: e.meta.file.clone(),
            content_hash: e.meta.content_hash.clone(),
            mmd_path: "entities/".to_owned().concat(base.as_str()).concat(".mmd"),
            meta_path: "entities/".to_owned().concat(base.as_str()).concat(".meta.json"),
            edges_out: copy_texts(&e.meta.callees),
            edges_in: copy_texts(&e.meta.callers),
            sequence_path,
        };
        assert(row.deep_view() =~= row_of(es[i as int], with));
        out.push(row);
        assert(out.deep_view() =~= had.push(want[i as int]));
        i += 1;
        assert(out.deep_view() =~= want.take(i as int));
    }
    assert(want.take(entities.len() as int) =~= want);
    out
}

/// The artifacts of a store, without sequence diagrams.
pub fn emit_artifacts(store: &Store, source_root: &str, generated_at: &str) -> (r: ArtifactSet)
    ensures
        is_set_of(r, store@, source_root@, generated_at@, Seq::empty()),
{
    let none: Vec<Extracted> = Vec::new();
    assert(none.deep_view() =~= Seq::<(Seq<char>, Seq<(Seq<char>, nat, Seq<char>)>)>::empty());
    emit_artifacts_with_sequences(store, source_root, generated_at, &none)
}

/// The artifacts of a store, with a sequence diagram for each function whose
/// diagram was extracted and has steps.
pub fn emit_artifacts_with_sequences(
    store: &Store,
    source_root: &str,
    generated_at: &str,
    extracted: &Vec<Extracted>,
) -> (r: ArtifactSet)
    ensures
        is_set_of(r, store@, source_root@, generated_at@, extracted.deep_view()),
{
    let catalog = Catalog::of_store(store);
    let overview_mmd = render(&catalog);
    let entities = emit_entities(store);
    let sequences = build_sequences(&entities, extracted);
    let rows = build_index_rows(&entities, &sequences);
    let index = Index {
        schema: INDEX_SCHEMA,
        entities: rows,
        generated_at: generated_at.to_owned(),
        source_root: source_root.to_owned(),
    };
    proof {
        assert(mirrors(catalog@, store@));
    }
    ArtifactSet { overview_mmd, entities, index, sequences }
}

} // verus!
