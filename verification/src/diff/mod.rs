//! Set difference between two materialized bundles, by entity id and content
//! hash.

pub mod compute;
pub mod drawn;
pub mod laws;
pub mod render;

pub use compute::compute_diff;
pub use render::render_mermaid;

use crate::records::{ascending, Record};
use vstd::prelude::*;
use vstd::string::*;

verus! {

// ── Types ────────────────────────────────────────────────────────────────────

/// One entry of a bundle's index, down to what the difference needs.
#[derive(Debug)]
pub struct IndexEntity {
    /// Stable entity id.
    pub id: String,
    /// Coarse kind.
    pub kind: String,
    /// Display name.
    pub name: String,
    /// Source file path relative to the bundle root.
    pub file: String,
    /// Hash of the entity's source; may be empty in old bundles.
    pub content_hash: String,
    /// Outgoing edges.
    pub edges_out: Vec<String>,
}

/// What an [`IndexEntity`] holds.
#[verifier::ext_equal]
pub struct EntityView {
    pub id: Seq<char>,
    pub kind: Seq<char>,
    pub name: Seq<char>,
    pub file: Seq<char>,
    pub content_hash: Seq<char>,
    pub edges_out: Seq<Seq<char>>,
}

impl DeepView for IndexEntity {
    type V = EntityView;

    open spec fn deep_view(&self) -> EntityView {
        EntityView {
            id: self.id@,
            kind: self.kind@,
            name: self.name@,
            file: self.file@,
            content_hash: self.content_hash@,
            edges_out: self.edges_out.deep_view(),
        }
    }
}

impl Clone for IndexEntity {
    fn clone(&self) -> (r: Self)
        ensures
            r.deep_view() == self.deep_view(),
    {
        let edges_out = self.edges_out.clone();
        assert(edges_out.deep_view() =~= self.edges_out.deep_view());
        IndexEntity {
            id: self.id.clone(),
            kind: self.kind.clone(),
            name: self.name.clone(),
            file: self.file.clone(),
            content_hash: self.content_hash.clone(),
            edges_out,
        }
    }
}

impl Record for IndexEntity {
    open spec fn key(v: EntityView) -> Seq<char> {
        v.id
    }

    fn key_string(&self) -> (r: String) {
        self.id.clone()
    }

    fn duplicate(&self) -> (r: Self) {
        self.clone()
    }
}

/// An entity whose id is present on both sides but whose content differs.
#[derive(Debug)]
pub struct ModifiedEntity {
    /// Stable id, identical on both sides.
    pub id: String,
    /// Coarse kind.
    pub kind: String,
    /// Source file path.
    pub file: String,
    /// Content hash on the old side.
    pub from_hash: String,
    /// Content hash on the new side.
    pub to_hash: String,
}

/// What a [`ModifiedEntity`] holds.
#[verifier::ext_equal]
pub struct ModifiedView {
    pub id: Seq<char>,
    pub kind: Seq<char>,
    pub file: Seq<char>,
    pub from_hash: Seq<char>,
    pub to_hash: Seq<char>,
}

impl DeepView for ModifiedEntity {
    type V = ModifiedView;

    open spec fn deep_view(&self) -> ModifiedView {
        ModifiedView {
            id: self.id@,
            kind: self.kind@,
            file: self.file@,
            from_hash: self.from_hash@,
            to_hash: self.to_hash@,
        }
    }
}

impl Clone for ModifiedEntity {
    fn clone(&self) -> (r: Self)
        ensures
            r.deep_view() == self.deep_view(),
    {
        ModifiedEntity {
            id: self.id.clone(),
            kind: self.kind.clone(),
            file: self.file.clone(),
            from_hash: self.from_hash.clone(),
            to_hash: self.to_hash.clone(),
        }
    }
}

impl Record for ModifiedEntity {
    open spec fn key(v: ModifiedView) -> Seq<char> {
        v.id
    }

    fn key_string(&self) -> (r: String) {
        self.id.clone()
    }

    fn duplicate(&self) -> (r: Self) {
        self.clone()
    }
}

/// A removed and an added entity with the same content: likely a rename.
#[derive(Debug)]
pub struct RenamedEntity {
    /// Id on the old side.
    pub from_id: String,
    /// Id on the new side.
    pub to_id: String,
    /// Content hash shared by both sides.
    pub content_hash: String,
}

/// What a [`RenamedEntity`] holds.
#[verifier::ext_equal]
pub struct RenamedView {
    pub from_id: Seq<char>,
    pub to_id: Seq<char>,
    pub content_hash: Seq<char>,
}

impl DeepView for RenamedEntity {
    type V = RenamedView;

    open spec fn deep_view(&self) -> RenamedView {
        RenamedView {
            from_id: self.from_id@,
            to_id: self.to_id@,
            content_hash: self.content_hash@,
        }
    }
}

impl Clone for RenamedEntity {
    fn clone(&self) -> (r: Self)
        ensures
            r.deep_view() == self.deep_view(),
    {
        RenamedEntity {
            from_id: self.from_id.clone(),
            to_id: self.to_id.clone(),
            content_hash: self.content_hash.clone(),
        }
    }
}

impl Record for RenamedEntity {
    open spec fn key(v: RenamedView) -> Seq<char> {
        v.from_id
    }

    fn key_string(&self) -> (r: String) {
        self.from_id.clone()
    }

    fn duplicate(&self) -> (r: Self) {
        self.clone()
    }
}

/// Structural difference between two bundles.
#[derive(Debug)]
pub struct BundleDiff {
    /// Old ref (left side of `a..b`).
    pub from: String,
    /// New ref (right side of `a..b`).
    pub to: String,
    /// Resolved snapshot id of `from`.
    pub from_sha: String,
    /// Resolved snapshot id of `to`.
    pub to_sha: String,
    /// Entities present only on the new side.
    pub added: Vec<IndexEntity>,
    /// Entities present only on the old side.
    pub removed: Vec<IndexEntity>,
    /// Entities present on both sides with different content.
    pub modified: Vec<ModifiedEntity>,
    /// Removed and added entities with the same content.
    pub renamed: Vec<RenamedEntity>,
}

/// The changes that a [`BundleDiff`] holds.
#[verifier::ext_equal]
pub struct ChangesView {
    pub added: Seq<EntityView>,
    pub removed: Seq<EntityView>,
    pub modified: Seq<ModifiedView>,
    pub renamed: Seq<RenamedView>,
}

impl BundleDiff {
    /// The changes.
    pub open spec fn changes(&self) -> ChangesView {
        ChangesView {
            added: self.added.deep_view(),
            removed: self.removed.deep_view(),
            modified: self.modified.deep_view(),
            renamed: self.renamed.deep_view(),
        }
    }
}

// ── What a difference is ─────────────────────────────────────────────────────

/// The last entity of a bundle with the given id.
pub open spec fn entity_of(es: Seq<EntityView>, id: Seq<char>) -> Option<EntityView>
    decreases es.len(),
{
    if es.len() == 0 {
        None
    } else if es.last().id == id {
        Some(es.last())
    } else {
        entity_of(es.drop_last(), id)
    }
}

/// Whether an id is only in the old bundle.
pub open spec fn gone(from: Seq<EntityView>, to: Seq<EntityView>, id: Seq<char>) -> bool {
    entity_of(from, id) is Some && entity_of(to, id) is None
}

/// Whether an id is in both bundles, with different content.
pub open spec fn changed(from: Seq<EntityView>, to: Seq<EntityView>, id: Seq<char>) -> bool {
    match (entity_of(from, id), entity_of(to, id)) {
        (Some(a), Some(b)) => a.content_hash != b.content_hash,
        _ => false,
    }
}

/// How a changed entity is listed: with the kind and file of the new side.
pub open spec fn change_of(a: EntityView, b: EntityView) -> ModifiedView {
    ModifiedView {
        id: b.id,
        kind: b.kind,
        file: b.file,
        from_hash: a.content_hash,
        to_hash: b.content_hash,
    }
}

/// Whether an id is the old side of a rename.
pub open spec fn renamed_from(rs: Seq<RenamedView>, id: Seq<char>) -> bool {
    exists|i: int| 0 <= i < rs.len() && (#[trigger] rs[i]).from_id == id
}

/// Whether an id is the new side of a rename.
pub open spec fn renamed_to(rs: Seq<RenamedView>, id: Seq<char>) -> bool {
    exists|i: int| 0 <= i < rs.len() && (#[trigger] rs[i]).to_id == id
}

/// Whether a list of renames pairs entities that are gone with new ones of the
/// same, known content, none of them twice.
pub open spec fn pairs_up(
    from: Seq<EntityView>,
    to: Seq<EntityView>,
    rs: Seq<RenamedView>,
) -> bool {
    &&& forall|i: int|
        0 <= i < rs.len() ==> gone(from, to, (#[trigger] rs[i]).from_id) && gone(
            to,
            from,
            rs[i].to_id,
        ) && entity_of(from, rs[i].from_id)->0.content_hash == rs[i].content_hash && entity_of(
            to,
            rs[i].to_id,
        )->0.content_hash == rs[i].content_hash && rs[i].content_hash.len() > 0
    &&& forall|i: int, j: int|
        0 <= i < rs.len() && 0 <= j < rs.len() && i != j ==> (#[trigger] rs[i]).to_id != (
        #[trigger] rs[j]).to_id
}

/// Whether `d` lists the changes from one bundle to another. Each id that is
/// gone or new is either listed as such or paired up by a rename, and as many
/// as possible are paired up. Which of several entities with the same content
/// are paired with each other is left open.
pub open spec fn is_diff(from: Seq<EntityView>, to: Seq<EntityView>, d: ChangesView) -> bool {
    // modified
    &&& ascending::<ModifiedEntity>(d.modified)
    &&& forall|i: int|
        0 <= i < d.modified.len() ==> changed(from, to, (#[trigger] d.modified[i]).id)
            && d.modified[i] == change_of(
            entity_of(from, d.modified[i].id)->0,
            entity_of(to, d.modified[i].id)->0,
        )
    &&& forall|id: Seq<char>| #[trigger]
        changed(from, to, id) ==> d.modified.contains(
            change_of(entity_of(from, id)->0, entity_of(to, id)->0),
        )
    // renamed
    &&& ascending::<RenamedEntity>(d.renamed)
    &&& pairs_up(from, to, d.renamed)
    // removed
    &&& ascending::<IndexEntity>(d.removed)
    &&& forall|i: int|
        0 <= i < d.removed.len() ==> gone(from, to, (#[trigger] d.removed[i]).id)
            && !renamed_from(d.renamed, d.removed[i].id) && d.removed[i] == entity_of(
            from,
            d.removed[i].id,
        )->0
    &&& forall|id: Seq<char>| #[trigger]
        gone(from, to, id) && !renamed_from(d.renamed, id) ==> d.removed.contains(
            entity_of(from, id)->0,
        )
    // added
    &&& ascending::<IndexEntity>(d.added)
    &&& forall|i: int|
        0 <= i < d.added.len() ==> gone(to, from, (#[trigger] d.added[i]).id) && !renamed_to(
            d.renamed,
            d.added[i].id,
        ) && d.added[i] == entity_of(to, d.added[i].id)->0
    &&& forall|id: Seq<char>| #[trigger]
        gone(to, from, id) && !renamed_to(d.renamed, id) ==> d.added.contains(
            entity_of(to, id)->0,
        )
    // nothing is left to pair up
    &&& forall|i: int, j: int|
        0 <= i < d.removed.len() && 0 <= j < d.added.len() ==> (
        #[trigger] d.removed[i]).content_hash != (#[trigger] d.added[j]).content_hash
            || d.removed[i].content_hash.len() == 0
}

/// A bundle does not differ from itself.
pub proof fn law_same_bundle_no_diff(es: Seq<EntityView>, d: ChangesView)
    requires
        is_diff(es, es, d),
    ensures
        d.added.len() == 0,
        d.removed.len() == 0,
        d.modified.len() == 0,
        d.renamed.len() == 0,
{
    if d.added.len() > 0 {
        assert(gone(es, es, d.added[0].id));
    }
    if d.removed.len() > 0 {
        assert(gone(es, es, d.removed[0].id));
    }
    if d.modified.len() > 0 {
        assert(changed(es, es, d.modified[0].id));
    }
    if d.renamed.len() > 0 {
        assert(gone(es, es, d.renamed[0].from_id));
    }
}

/// Every id of either bundle is accounted for exactly once: it is unchanged,
/// modified, added, removed, or one side of a rename.
pub proof fn law_diff_partitions(
    from: Seq<EntityView>,
    to: Seq<EntityView>,
    d: ChangesView,
    id: Seq<char>,
)
    requires
        is_diff(from, to, d),
        entity_of(from, id) is Some || entity_of(to, id) is Some,
    ensures
        ({
            let is_modified = exists|i: int| 0 <= i < d.modified.len() && (
            #[trigger] d.modified[i]).id == id;
            let is_added = exists|i: int| 0 <= i < d.added.len() && (#[trigger] d.added[i]).id
                == id;
            let is_removed = exists|i: int|
                0 <= i < d.removed.len() && (#[trigger] d.removed[i]).id == id;
            let moved = renamed_from(d.renamed, id);
            let arrived = renamed_to(d.renamed, id);
            let same = entity_of(from, id) is Some && entity_of(to, id) is Some && !changed(
                from,
                to,
                id,
            );
            &&& same || is_modified || is_added || is_removed || moved || arrived
            &&& same ==> !is_modified && !is_added && !is_removed && !moved && !arrived
            &&& is_modified ==> !is_added && !is_removed && !moved && !arrived
            &&& is_added ==> !is_removed && !moved && !arrived
            &&& is_removed ==> !moved && !arrived
            &&& moved ==> !arrived
        }),
{
    lemma_entity_of_id(from, id);
    lemma_entity_of_id(to, id);
    if changed(from, to, id) {
        let m = change_of(entity_of(from, id)->0, entity_of(to, id)->0);
        assert(d.modified.contains(m));
        let i = choose|i: int| 0 <= i < d.modified.len() && d.modified[i] == m;
        assert(d.modified[i].id == id);
    }
    if gone(from, to, id) && !renamed_from(d.renamed, id) {
        let e = entity_of(from, id)->0;
        assert(d.removed.contains(e));
        let i = choose|i: int| 0 <= i < d.removed.len() && d.removed[i] == e;
        assert(d.removed[i].id == id);
    }
    if gone(to, from, id) && !renamed_to(d.renamed, id) {
        let e = entity_of(to, id)->0;
        assert(d.added.contains(e));
        let i = choose|i: int| 0 <= i < d.added.len() && d.added[i] == e;
        assert(d.added[i].id == id);
    }
}

/// The entity found for an id has that id, and is in the bundle.
pub proof fn lemma_entity_of_id(es: Seq<EntityView>, id: Seq<char>)
    ensures
        match entity_of(es, id) {
            Some(e) => e.id == id && es.contains(e),
            None => forall|i: int| 0 <= i < es.len() ==> (#[trigger] es[i]).id != id,
        },
    decreases es.len(),
{
    if es.len() > 0 {
        let front = es.drop_last();
        lemma_entity_of_id(front, id);
        if es.last().id == id {
            assert(es[es.len() - 1] == es.last());
        } else {
            match entity_of(front, id) {
                Some(e) => {
                    let i = choose|i: int| 0 <= i < front.len() && front[i] == e;
                    assert(es[i] == e);
                },
                None => {
                    assert forall|i: int| 0 <= i < es.len() implies (#[trigger] es[i]).id != id by {
                        if i < front.len() {
                            assert(front[i] == es[i]);
                        }
                    }
                },
            }
        }
    }
}

} // verus!
