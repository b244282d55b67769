//! What holds of two differences: exchanging the bundles, and how many entities
//! are paired up.

use super::{
    change_of, changed, entity_of, gone, is_diff, lemma_entity_of_id, renamed_from, renamed_to,
    ChangesView, EntityView, IndexEntity, ModifiedEntity, ModifiedView, RenamedEntity, RenamedView,
};
use crate::keys::{ascend, law_sorted_keys_unique, lists_keys};
use crate::records::Record;
use crate::text::lemma_text_lt_irreflexive;
use vstd::prelude::*;

verus! {

// ── Sides ────────────────────────────────────────────────────────────────────

/// Whether a bundle has an entity with an id.
pub open spec fn has_id(es: Seq<EntityView>, id: Seq<char>) -> bool {
    exists|i: int| 0 <= i < es.len() && (#[trigger] es[i]).id == id
}

/// What was added is of the new bundle and not in the old one, what was removed
/// is of the old bundle and not in the new one, what was modified is in both, with
/// the old content first, and a rename leads from the old bundle to the new one.
pub proof fn law_diff_sides(
    from: Seq<EntityView>,
    to: Seq<EntityView>,
    d: ChangesView,
    i: int,
)
    requires
        is_diff(from, to, d),
    ensures
        0 <= i < d.added.len() ==> to.contains(d.added[i]) && !has_id(from, d.added[i].id),
        0 <= i < d.removed.len() ==> from.contains(d.removed[i]) && !has_id(to, d.removed[i].id),
        0 <= i < d.modified.len() ==> d.modified[i].from_hash != d.modified[i].to_hash && (
        exists|p: int, q: int|
            0 <= p < from.len() && 0 <= q < to.len() && #[trigger] from[p].id == d.modified[i].id
                && #[trigger] to[q].id == d.modified[i].id && from[p].content_hash
                == d.modified[i].from_hash && to[q].content_hash == d.modified[i].to_hash
                && to[q].kind == d.modified[i].kind && to[q].file == d.modified[i].file),
        0 <= i < d.renamed.len() ==> has_id(from, d.renamed[i].from_id) && !has_id(
            to,
            d.renamed[i].from_id,
        ) && has_id(to, d.renamed[i].to_id) && !has_id(from, d.renamed[i].to_id),
{
    if 0 <= i < d.added.len() {
        let id = d.added[i].id;
        lemma_entity_of_id(to, id);
        lemma_entity_of_id(from, id);
    }
    if 0 <= i < d.removed.len() {
        let id = d.removed[i].id;
        lemma_entity_of_id(to, id);
        lemma_entity_of_id(from, id);
    }
    if 0 <= i < d.modified.len() {
        let id = d.modified[i].id;
        lemma_entity_of_id(to, id);
        lemma_entity_of_id(from, id);
        assert(changed(from, to, id));
        let p = choose|p: int| 0 <= p < from.len() && from[p] == entity_of(from, id)->0;
        let q = choose|q: int| 0 <= q < to.len() && to[q] == entity_of(to, id)->0;
        assert(from[p].id == id && to[q].id == id);
    }
    if 0 <= i < d.renamed.len() {
        let r = d.renamed[i];
        lemma_entity_of_id(to, r.from_id);
        lemma_entity_of_id(from, r.from_id);
        lemma_entity_of_id(to, r.to_id);
        lemma_entity_of_id(from, r.to_id);
        let a = entity_of(from, r.from_id)->0;
        let b = entity_of(to, r.to_id)->0;
        let p = choose|p: int| 0 <= p < from.len() && from[p] == a;
        let q = choose|q: int| 0 <= q < to.len() && to[q] == b;
        assert(from[p].id == r.from_id && to[q].id == r.to_id);
    }
}

/// Every entity whose id is in the new bundle alone is listed as added or is the
/// new side of a rename, and every one whose id is in the old bundle alone is
/// listed as removed or is the old side of one.
pub proof fn law_diff_complete(
    from: Seq<EntityView>,
    to: Seq<EntityView>,
    d: ChangesView,
    id: Seq<char>,
)
    requires
        is_diff(from, to, d),
    ensures
        has_id(to, id) && !has_id(from, id) ==> renamed_to(d.renamed, id) || exists|i: int|
            0 <= i < d.added.len() && (#[trigger] d.added[i]).id == id,
        has_id(from, id) && !has_id(to, id) ==> renamed_from(d.renamed, id) || exists|i: int|
            0 <= i < d.removed.len() && (#[trigger] d.removed[i]).id == id,
{
    lemma_entity_of_id(from, id);
    lemma_entity_of_id(to, id);
    if has_id(to, id) && !has_id(from, id) {
        lemma_gone(to, from, id);
        if !renamed_to(d.renamed, id) {
            assert(d.added.contains(entity_of(to, id)->0));
        }
    }
    if has_id(from, id) && !has_id(to, id) {
        lemma_gone(from, to, id);
        if !renamed_from(d.renamed, id) {
            assert(d.removed.contains(entity_of(from, id)->0));
        }
    }
}

proof fn lemma_gone(from: Seq<EntityView>, to: Seq<EntityView>, id: Seq<char>)
    requires
        has_id(from, id),
        !has_id(to, id),
    ensures
        gone(from, to, id),
{
    lemma_entity_of_id(from, id);
    lemma_entity_of_id(to, id);
    if let Some(e) = entity_of(to, id) {
        let q = choose|q: int| 0 <= q < to.len() && to[q] == e;
        assert(to[q].id == id);
    }
}

/// An entity that is in both bundles once, with different contents, is listed as
/// modified, from the old content to the new.
pub proof fn law_change_listed(
    from: Seq<EntityView>,
    to: Seq<EntityView>,
    d: ChangesView,
    p: int,
    q: int,
)
    requires
        is_diff(from, to, d),
        0 <= p < from.len(),
        0 <= q < to.len(),
        from[p].id == to[q].id,
        from[p].content_hash != to[q].content_hash,
        forall|k: int| 0 <= k < from.len() && k != p ==> (#[trigger] from[k]).id != from[p].id,
        forall|k: int| 0 <= k < to.len() && k != q ==> (#[trigger] to[k]).id != to[q].id,
    ensures
        d.modified.contains(
            ModifiedView {
                id: to[q].id,
                kind: to[q].kind,
                file: to[q].file,
                from_hash: from[p].content_hash,
                to_hash: to[q].content_hash,
            },
        ),
{
    let id = to[q].id;
    lemma_entity_of_id(from, id);
    lemma_entity_of_id(to, id);
    let a = entity_of(from, id)->0;
    let b = entity_of(to, id)->0;
    let i = choose|i: int| 0 <= i < from.len() && from[i] == a;
    let j = choose|j: int| 0 <= j < to.len() && to[j] == b;
    assert(from[i].id == id && to[j].id == id);
    assert(a == from[p] && b == to[q]);
    assert(changed(from, to, id));
}

// ── Counting ─────────────────────────────────────────────────────────────────

/// The ids that are only in the old bundle.
pub open spec fn gone_ids(from: Seq<EntityView>, to: Seq<EntityView>) -> Set<Seq<char>> {
    Set::new(|id: Seq<char>| gone(from, to, id))
}

/// The ids that are only in the old bundle, with some content.
pub open spec fn gone_with(
    from: Seq<EntityView>,
    to: Seq<EntityView>,
    hash: Seq<char>,
) -> Set<Seq<char>> {
    Set::new(
        |id: Seq<char>| gone(from, to, id) && entity_of(from, id)->0.content_hash == hash,
    )
}

/// The contents of renamed entities, one for each rename.
pub open spec fn hashes(rs: Seq<RenamedView>) -> Seq<Seq<char>> {
    rs.map_values(|r: RenamedView| r.content_hash)
}

proof fn lemma_gone_finite(from: Seq<EntityView>, to: Seq<EntityView>, hash: Seq<char>)
    ensures
        gone_ids(from, to).finite(),
        gone_with(from, to, hash).finite(),
        gone_with(from, to, hash).subset_of(gone_ids(from, to)),
{
    let ids = from.map_values(|e: EntityView| e.id);
    vstd::seq_lib::seq_to_set_is_finite(ids);
    assert(gone_ids(from, to).subset_of(ids.to_set())) by {
        assert forall|id: Seq<char>| gone_ids(from, to).contains(id) implies ids.to_set().contains(
            id,
        ) by {
            lemma_entity_of_id(from, id);
            let e = entity_of(from, id)->0;
            let i = choose|i: int| 0 <= i < from.len() && from[i] == e;
            assert(ids[i] == id);
        }
    }
    vstd::set_lib::lemma_len_subset(gone_ids(from, to), ids.to_set());
    vstd::set_lib::lemma_len_subset(gone_with(from, to, hash), gone_ids(from, to));
}

/// The keys that occur with some content.
spec fn keys_with(xs: Seq<(Seq<char>, Seq<char>)>, hash: Seq<char>) -> Set<Seq<char>> {
    Set::new(|key: Seq<char>| xs.contains((key, hash)))
}

proof fn lemma_keys_with(xs: Seq<(Seq<char>, Seq<char>)>, hash: Seq<char>)
    requires
        forall|i: int, j: int|
            0 <= i < xs.len() && 0 <= j < xs.len() && i != j ==> (#[trigger] xs[i]).0 != (
            #[trigger] xs[j]).0,
    ensures
        keys_with(xs, hash).finite(),
        keys_with(xs, hash).len() == xs.map_values(
            |x: (Seq<char>, Seq<char>)| x.1,
        ).to_multiset().count(hash),
    decreases xs.len(),
{
    broadcast use vstd::multiset::group_multiset_axioms;
    broadcast use vstd::seq_lib::group_to_multiset_ensures;

    let f = |x: (Seq<char>, Seq<char>)| x.1;
    let set = keys_with(xs, hash);
    if xs.len() == 0 {
        assert(set =~= Set::empty());
        assert(xs.map_values(f) =~= Seq::empty());
        assert(!xs.map_values(f).contains(hash));
    } else {
        let front = xs.drop_last();
        let last = xs.last();
        assert forall|i: int, j: int|
            0 <= i < front.len() && 0 <= j < front.len() && i != j implies (#[trigger] front[i]).0
            != (#[trigger] front[j]).0 by {
            assert(front[i] == xs[i] && front[j] == xs[j]);
        }
        lemma_keys_with(front, hash);
        assert(xs.map_values(f) =~= front.map_values(f).push(last.1));
        let before = keys_with(front, hash);
        assert forall|key: Seq<char>| set.contains(key) <==> before.contains(key) || (key, hash)
            == last by {
            if set.contains(key) {
                let i = choose|i: int| 0 <= i < xs.len() && xs[i] == (key, hash);
                if i < front.len() {
                    assert(front[i] == (key, hash));
                }
            }
            if before.contains(key) {
                let i = choose|i: int| 0 <= i < front.len() && front[i] == (key, hash);
                assert(xs[i] == (key, hash));
            }
            if (key, hash) == last {
                assert(xs[xs.len() - 1] == (key, hash));
            }
        }
        if last.1 == hash {
            assert(set =~= before.insert(last.0));
            assert(!before.contains(last.0)) by {
                if before.contains(last.0) {
                    let i = choose|i: int| 0 <= i < front.len() && front[i] == (last.0, hash);
                    assert(xs[i].0 == xs[xs.len() - 1].0);
                }
            }
        } else {
            assert(set =~= before);
        }
    }
}

/// The old sides of renames, each with its content.
spec fn old_sides(rs: Seq<RenamedView>) -> Seq<(Seq<char>, Seq<char>)> {
    rs.map_values(|r: RenamedView| (r.from_id, r.content_hash))
}

/// The new sides of renames, each with its content.
spec fn new_sides(rs: Seq<RenamedView>) -> Seq<(Seq<char>, Seq<char>)> {
    rs.map_values(|r: RenamedView| (r.to_id, r.content_hash))
}

proof fn lemma_sides(from: Seq<EntityView>, to: Seq<EntityView>, d: ChangesView, hash: Seq<char>)
    requires
        is_diff(from, to, d),
    ensures
        ({
            let olds = keys_with(old_sides(d.renamed), hash);
            let news = keys_with(new_sides(d.renamed), hash);
            let n = hashes(d.renamed).to_multiset().count(hash);
            &&& olds.finite() && news.finite()
            &&& olds.len() == n && news.len() == n
            &&& olds.subset_of(gone_with(from, to, hash))
            &&& news.subset_of(gone_with(to, from, hash))
            &&& n > 0 ==> hash.len() > 0
        }),
{
    let rs = d.renamed;
    let a = old_sides(rs);
    let b = new_sides(rs);
    let f = |x: (Seq<char>, Seq<char>)| x.1;
    assert forall|i: int, j: int| 0 <= i < a.len() && 0 <= j < a.len() && i != j implies (
    #[trigger] a[i]).0 != (#[trigger] a[j]).0 by {
        lemma_text_lt_irreflexive(rs[i].from_id);
        if i < j {
            assert(crate::text::text_lt(RenamedEntity::key(rs[i]), RenamedEntity::key(rs[j])));
        } else {
            assert(crate::text::text_lt(RenamedEntity::key(rs[j]), RenamedEntity::key(rs[i])));
        }
    }
    assert forall|i: int, j: int| 0 <= i < b.len() && 0 <= j < b.len() && i != j implies (
    #[trigger] b[i]).0 != (#[trigger] b[j]).0 by {
        assert(rs[i].to_id != rs[j].to_id);
    }
    lemma_keys_with(a, hash);
    lemma_keys_with(b, hash);
    assert(a.map_values(f) =~= hashes(rs));
    assert(b.map_values(f) =~= hashes(rs));
    let olds = keys_with(a, hash);
    let news = keys_with(b, hash);
    assert forall|id: Seq<char>| olds.contains(id) implies gone_with(from, to, hash).contains(
        id,
    ) && hash.len() > 0 by {
        let i = choose|i: int| 0 <= i < a.len() && a[i] == (id, hash);
        assert(rs[i].from_id == id && rs[i].content_hash == hash);
    }
    assert forall|id: Seq<char>| news.contains(id) implies gone_with(to, from, hash).contains(
        id,
    ) by {
        let i = choose|i: int| 0 <= i < b.len() && b[i] == (id, hash);
        assert(rs[i].to_id == id && rs[i].content_hash == hash);
    }
    if olds.len() > 0 {
        assert(olds.contains(olds.choose()));
    }
}

/// Of the entities that are gone and the new ones with the same content as many
/// are paired up as there can be: the smaller of their two counts. Entities of
/// unknown content are never paired up.
pub proof fn law_rename_counts(
    from: Seq<EntityView>,
    to: Seq<EntityView>,
    d: ChangesView,
    hash: Seq<char>,
)
    requires
        is_diff(from, to, d),
    ensures
        gone_with(from, to, hash).finite(),
        gone_with(to, from, hash).finite(),
        hashes(d.renamed).to_multiset().count(hash) == if hash.len() == 0 {
            0
        } else if gone_with(from, to, hash).len() <= gone_with(to, from, hash).len() {
            gone_with(from, to, hash).len()
        } else {
            gone_with(to, from, hash).len()
        },
{
    let rs = d.renamed;
    let g = gone_with(from, to, hash);
    let n = gone_with(to, from, hash);
    let olds = keys_with(old_sides(rs), hash);
    let news = keys_with(new_sides(rs), hash);
    lemma_gone_finite(from, to, hash);
    lemma_gone_finite(to, from, hash);
    lemma_sides(from, to, d, hash);
    vstd::set_lib::lemma_len_subset(olds, g);
    vstd::set_lib::lemma_len_subset(news, n);
    if hash.len() > 0 {
        if !(g =~= olds) && !(n =~= news) {
            let x = choose|x: Seq<char>| g.contains(x) && !olds.contains(x);
            let y = choose|y: Seq<char>| n.contains(y) && !news.contains(y);
            assert(g.contains(x) && !olds.contains(x));
            assert(n.contains(y) && !news.contains(y));
            if renamed_from(rs, x) {
                let i = choose|i: int| 0 <= i < rs.len() && (#[trigger] rs[i]).from_id == x;
                assert(old_sides(rs)[i] == (x, hash));
            }
            if renamed_to(rs, y) {
                let i = choose|i: int| 0 <= i < rs.len() && (#[trigger] rs[i]).to_id == y;
                assert(new_sides(rs)[i] == (y, hash));
            }
            assert(gone(from, to, x) && gone(to, from, y));
            let ex = entity_of(from, x)->0;
            let ey = entity_of(to, y)->0;
            assert(d.removed.contains(ex) && d.added.contains(ey));
            let i = choose|i: int| 0 <= i < d.removed.len() && d.removed[i] == ex;
            let j = choose|j: int| 0 <= j < d.added.len() && d.added[j] == ey;
            assert(d.removed[i].content_hash != d.added[j].content_hash);
        }
    }
}

/// Each id that is gone is removed or the old side of a rename.
proof fn lemma_removed_count(from: Seq<EntityView>, to: Seq<EntityView>, d: ChangesView)
    requires
        is_diff(from, to, d),
    ensures
        d.removed.len() + d.renamed.len() == gone_ids(from, to).len(),
{
    let a = d.removed.map_values(|e: EntityView| e.id);
    let b = d.renamed.map_values(|r: RenamedView| r.from_id);
    assert forall|i: int, j: int| 0 <= i < a.len() && 0 <= j < a.len() && i != j implies a[i]
        != a[j] by {
        lemma_text_lt_irreflexive(a[i]);
        if i < j {
            assert(crate::text::text_lt(
                IndexEntity::key(d.removed[i]),
                IndexEntity::key(d.removed[j]),
            ));
        } else {
            assert(crate::text::text_lt(
                IndexEntity::key(d.removed[j]),
                IndexEntity::key(d.removed[i]),
            ));
        }
    }
    assert forall|i: int, j: int| 0 <= i < b.len() && 0 <= j < b.len() && i != j implies b[i]
        != b[j] by {
        lemma_text_lt_irreflexive(b[i]);
        if i < j {
            assert(crate::text::text_lt(
                RenamedEntity::key(d.renamed[i]),
                RenamedEntity::key(d.renamed[j]),
            ));
        } else {
            assert(crate::text::text_lt(
                RenamedEntity::key(d.renamed[j]),
                RenamedEntity::key(d.renamed[i]),
            ));
        }
    }
    a.unique_seq_to_set();
    b.unique_seq_to_set();
    assert forall|id: Seq<char>| gone_ids(from, to).contains(id) <==> a.contains(id) || b.contains(
        id,
    ) by {
        lemma_entity_of_id(from, id);
        if gone(from, to, id) {
            if renamed_from(d.renamed, id) {
                let i = choose|i: int|
                    0 <= i < d.renamed.len() && (#[trigger] d.renamed[i]).from_id == id;
                assert(b[i] == id);
            } else {
                let e = entity_of(from, id)->0;
                assert(d.removed.contains(e));
                let i = choose|i: int| 0 <= i < d.removed.len() && d.removed[i] == e;
                assert(a[i] == id);
            }
        }
        if a.contains(id) {
            let i = choose|i: int| 0 <= i < a.len() && a[i] == id;
            assert(gone(from, to, d.removed[i].id));
        }
        if b.contains(id) {
            let i = choose|i: int| 0 <= i < b.len() && b[i] == id;
            assert(gone(from, to, d.renamed[i].from_id));
        }
    }
    assert(a.to_set().disjoint(b.to_set())) by {
        assert forall|id: Seq<char>| a.to_set().contains(id) implies !b.to_set().contains(id) by {
            let i = choose|i: int| 0 <= i < a.len() && a[i] == id;
            assert(!renamed_from(d.renamed, d.removed[i].id));
            if b.contains(id) {
                let j = choose|j: int| 0 <= j < b.len() && b[j] == id;
                assert(d.renamed[j].from_id == id);
            }
        }
    }
    vstd::set_lib::lemma_set_disjoint_lens(a.to_set(), b.to_set());
    assert(gone_ids(from, to) =~= a.to_set() + b.to_set());
}

/// Each new id is added or the new side of a rename.
proof fn lemma_added_count(from: Seq<EntityView>, to: Seq<EntityView>, d: ChangesView)
    requires
        is_diff(from, to, d),
    ensures
        d.added.len() + d.renamed.len() == gone_ids(to, from).len(),
{
    let a = d.added.map_values(|e: EntityView| e.id);
    let b = d.renamed.map_values(|r: RenamedView| r.to_id);
    assert forall|i: int, j: int| 0 <= i < a.len() && 0 <= j < a.len() && i != j implies a[i]
        != a[j] by {
        lemma_text_lt_irreflexive(a[i]);
        if i < j {
            assert(crate::text::text_lt(IndexEntity::key(d.added[i]), IndexEntity::key(d.added[j])));
        } else {
            assert(crate::text::text_lt(IndexEntity::key(d.added[j]), IndexEntity::key(d.added[i])));
        }
    }
    assert forall|i: int, j: int| 0 <= i < b.len() && 0 <= j < b.len() && i != j implies b[i]
        != b[j] by {
        assert(d.renamed[i].to_id != d.renamed[j].to_id);
    }
    a.unique_seq_to_set();
    b.unique_seq_to_set();
    assert forall|id: Seq<char>| gone_ids(to, from).contains(id) <==> a.contains(id) || b.contains(
        id,
    ) by {
        lemma_entity_of_id(to, id);
        if gone(to, from, id) {
            if renamed_to(d.renamed, id) {
                let i = choose|i: int|
                    0 <= i < d.renamed.len() && (#[trigger] d.renamed[i]).to_id == id;
                assert(b[i] == id);
            } else {
                let e = entity_of(to, id)->0;
                assert(d.added.contains(e));
                let i = choose|i: int| 0 <= i < d.added.len() && d.added[i] == e;
                assert(a[i] == id);
            }
        }
        if a.contains(id) {
            let i = choose|i: int| 0 <= i < a.len() && a[i] == id;
            assert(gone(to, from, d.added[i].id));
        }
        if b.contains(id) {
            let i = choose|i: int| 0 <= i < b.len() && b[i] == id;
            assert(gone(to, from, d.renamed[i].to_id));
        }
    }
    assert(a.to_set().disjoint(b.to_set())) by {
        assert forall|id: Seq<char>| a.to_set().contains(id) implies !b.to_set().contains(id) by {
            let i = choose|i: int| 0 <= i < a.len() && a[i] == id;
            assert(!renamed_to(d.renamed, d.added[i].id));
            if b.contains(id) {
                let j = choose|j: int| 0 <= j < b.len() && b[j] == id;
                assert(d.renamed[j].to_id == id);
            }
        }
    }
    vstd::set_lib::lemma_set_disjoint_lens(a.to_set(), b.to_set());
    assert(gone_ids(to, from) =~= a.to_set() + b.to_set());
}

// ── Exchanging the bundles ───────────────────────────────────────────────────

proof fn lemma_modified_ids(
    from: Seq<EntityView>,
    to: Seq<EntityView>,
    d: ChangesView,
    id: Seq<char>,
)
    requires
        is_diff(from, to, d),
    ensures
        d.modified.map_values(|m: ModifiedView| m.id).contains(id) <==> changed(from, to, id),
{
    let ids = d.modified.map_values(|m: ModifiedView| m.id);
    if ids.contains(id) {
        let i = choose|i: int| 0 <= i < ids.len() && ids[i] == id;
        assert(changed(from, to, d.modified[i].id));
    }
    if changed(from, to, id) {
        lemma_entity_of_id(to, id);
        let m = change_of(entity_of(from, id)->0, entity_of(to, id)->0);
        assert(d.modified.contains(m));
        let i = choose|i: int| 0 <= i < d.modified.len() && d.modified[i] == m;
        assert(ids[i] == id);
    }
}

/// Exchanging the bundles exchanges what the difference says: the same entities
/// are modified, with their hashes swapped, as many are added as were removed
/// and the other way round, and as many are renamed.
pub proof fn law_exchanged(
    from: Seq<EntityView>,
    to: Seq<EntityView>,
    d: ChangesView,
    e: ChangesView,
)
    requires
        is_diff(from, to, d),
        is_diff(to, from, e),
    ensures
        e.modified.len() == d.modified.len(),
        forall|i: int|
            0 <= i < d.modified.len() ==> (#[trigger] e.modified[i]).id == d.modified[i].id
                && e.modified[i].from_hash == d.modified[i].to_hash && e.modified[i].to_hash
                == d.modified[i].from_hash,
        e.added.len() == d.removed.len(),
        e.removed.len() == d.added.len(),
        e.renamed.len() == d.renamed.len(),
{
    let di = d.modified.map_values(|m: ModifiedView| m.id);
    let ei = e.modified.map_values(|m: ModifiedView| m.id);
    assert forall|id: Seq<char>| ei.contains(id) <==> #[trigger] di.contains(id) by {
        lemma_modified_ids(from, to, d, id);
        lemma_modified_ids(to, from, e, id);
        assert(changed(from, to, id) == changed(to, from, id));
    }
    assert forall|i: int, j: int| 0 <= i < j < di.len() implies crate::text::text_lt(
        #[trigger] di[i],
        #[trigger] di[j],
    ) by {
        assert(crate::text::text_lt(
            ModifiedEntity::key(d.modified[i]),
            ModifiedEntity::key(d.modified[j]),
        ));
    }
    assert forall|i: int, j: int| 0 <= i < j < ei.len() implies crate::text::text_lt(
        #[trigger] ei[i],
        #[trigger] ei[j],
    ) by {
        assert(crate::text::text_lt(
            ModifiedEntity::key(e.modified[i]),
            ModifiedEntity::key(e.modified[j]),
        ));
    }
    assert(ascend::<String>(di) && ascend::<String>(ei));
    assert(lists_keys::<String>(ei, di));
    assert(lists_keys::<String>(di, di));
    law_sorted_keys_unique::<String>(ei, di);
    law_sorted_keys_unique::<String>(di, di);
    assert(ei == di);
    assert(ei.len() == e.modified.len() && di.len() == d.modified.len());
    assert forall|i: int| 0 <= i < d.modified.len() implies (#[trigger] e.modified[i]).id
        == d.modified[i].id && e.modified[i].from_hash == d.modified[i].to_hash
        && e.modified[i].to_hash == d.modified[i].from_hash by {
        assert(ei[i] == di[i]);
        assert(changed(from, to, d.modified[i].id));
        assert(changed(to, from, e.modified[i].id));
    }
    assert forall|hash: Seq<char>| #[trigger]
        hashes(d.renamed).to_multiset().count(hash) == hashes(e.renamed).to_multiset().count(
        hash,
    ) by {
        law_rename_counts(from, to, d, hash);
        law_rename_counts(to, from, e, hash);
    }
    assert(hashes(d.renamed).to_multiset() =~= hashes(e.renamed).to_multiset());
    vstd::seq_lib::to_multiset_len(hashes(d.renamed));
    vstd::seq_lib::to_multiset_len(hashes(e.renamed));
    lemma_removed_count(from, to, d);
    lemma_added_count(from, to, d);
    lemma_removed_count(to, from, e);
    lemma_added_count(to, from, e);
}

} // verus!
