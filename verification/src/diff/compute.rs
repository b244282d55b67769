//! Computing the difference of two bundles.

use super::{
    change_of, changed, entity_of, gone, is_diff, lemma_entity_of_id, renamed_from, renamed_to,
    BundleDiff, ChangesView, EntityView, IndexEntity, ModifiedEntity, ModifiedView, RenamedEntity,
    RenamedView,
};
use crate::records::{ascending, distinct_keys, sort_records};
use crate::text::{lemma_text_lt_irreflexive, str_eq};
use vstd::hash_map::StringHashMap;
use vstd::prelude::*;
use vstd::string::*;

verus! {

// ── Computation ──────────────────────────────────────────────────────────────

/// Whether `m` maps each id of a bundle to the position of its last entity.
spec fn indexes(m: Map<Seq<char>, usize>, es: Seq<EntityView>) -> bool {
    &&& forall|id: Seq<char>| #[trigger] m.contains_key(id) <==> entity_of(es, id) is Some
    &&& forall|id: Seq<char>| #[trigger]
        m.contains_key(id) ==> m[id] < es.len() && es[m[id] as int].id == id && entity_of(es, id)
            == Some(es[m[id] as int])
}

/// The position of the last entity of each id.
fn last_positions(es: &Vec<IndexEntity>) -> (r: StringHashMap<usize>)
    ensures
        indexes(r@, es.deep_view()),
{
    let ghost v = es.deep_view();
    let mut out: StringHashMap<usize> = StringHashMap::new();
    let mut i: usize = 0;
    assert(v.take(0) =~= Seq::<EntityView>::empty());
    while i < es.len()
        invariant
            i <= es.len(),
            v == es.deep_view(),
            indexes(out@, v.take(i as int)),
        decreases es.len() - i,
    {
        let ghost before = out@;
        out.insert(es[i].id.clone(), i);
        proof {
            let a = v.take(i as int);
            let b = v.take(i + 1);
            assert(b.drop_last() =~= a);
            assert(b.last() == v[i as int]);
            assert forall|id: Seq<char>| #[trigger] out@.contains_key(id) implies out@[id]
                < b.len() && b[out@[id] as int].id == id && entity_of(b, id) == Some(
                b[out@[id] as int],
            ) by {
                if id != v[i as int].id {
                    assert(before.contains_key(id));
                    assert(b[before[id] as int] == a[before[id] as int]);
                }
            }
            assert forall|id: Seq<char>| #[trigger] out@.contains_key(id) <==> entity_of(b, id) is
                Some by {
                if id != v[i as int].id {
                    assert(before.contains_key(id) <==> entity_of(a, id) is Some);
                }
            }
        }
        i += 1;
    }
    assert(v.take(es.len() as int) =~= v);
    out
}

/// The last entities of the ids that only `es` has.
fn only_in(
    es: &Vec<IndexEntity>,
    own: &StringHashMap<usize>,
    other: &StringHashMap<usize>,
    Ghost(others): Ghost<Seq<EntityView>>,
) -> (r: Vec<IndexEntity>)
    requires
        indexes(own@, es.deep_view()),
        indexes(other@, others),
    ensures
        distinct_keys::<IndexEntity>(r.deep_view()),
        forall|i: int|
            0 <= i < r.len() ==> gone(es.deep_view(), others, (#[trigger] r.deep_view()[i]).id)
                && r.deep_view()[i] == entity_of(es.deep_view(), r.deep_view()[i].id)->0,
        forall|id: Seq<char>| #[trigger]
            gone(es.deep_view(), others, id) ==> r.deep_view().contains(
                entity_of(es.deep_view(), id)->0,
            ),
{
    let ghost v = es.deep_view();
    let mut out: Vec<IndexEntity> = Vec::new();
    let mut i: usize = 0;
    while i < es.len()
        invariant
            i <= es.len(),
            v == es.deep_view(),
            indexes(own@, v),
            indexes(other@, others),
            forall|k: int|
                0 <= k < out.len() ==> gone(v, others, (#[trigger] out.deep_view()[k]).id)
                    && out.deep_view()[k] == entity_of(v, out.deep_view()[k].id)->0
                    && own@[out.deep_view()[k].id] < i,
            forall|id: Seq<char>| #[trigger]
                gone(v, others, id) && own@[id] < i ==> out.deep_view().contains(
                    entity_of(v, id)->0,
                ),
            distinct_keys::<IndexEntity>(out.deep_view()),
        decreases es.len() - i,
    {
        let ghost had = out.deep_view();
        let ghost e = v[i as int];
        assert(e == es[i as int].deep_view());
        let last = match own.get(es[i].id.as_str()) {
            Some(p) => *p == i,
            None => false,
        };
        if last && !other.contains_key(es[i].id.as_str()) {
            out.push(es[i].clone());
            proof {
                assert(out.deep_view() =~= had.push(e));
                assert(own@.contains_key(e.id));
                assert(gone(v, others, e.id));
                assert forall|id: Seq<char>| #[trigger]
                    gone(v, others, id) && own@[id] < i + 1 implies out.deep_view().contains(
                    entity_of(v, id)->0,
                ) by {
                    assert(own@.contains_key(id));
                    if own@[id] == i {
                        assert(id == e.id);
                        assert(out.deep_view()[had.len() as int] == e);
                    } else {
                        let k = choose|k: int| 0 <= k < had.len() && had[k] == entity_of(v, id)->0;
                        assert(out.deep_view()[k] == had[k]);
                    }
                }
                assert forall|k: int| 0 <= k < out.len() implies gone(
                    v,
                    others,
                    (#[trigger] out.deep_view()[k]).id,
                ) && out.deep_view()[k] == entity_of(v, out.deep_view()[k].id)->0
                    && own@[out.deep_view()[k].id] < i + 1 by {
                    if k < had.len() {
                        assert(out.deep_view()[k] == had[k]);
                    }
                }
                assert forall|a: int, b: int|
                    0 <= a < out.len() && 0 <= b < out.len() && a != b implies (
                #[trigger] out.deep_view()[a]).id != (#[trigger] out.deep_view()[b]).id by {
                    if a < had.len() {
                        assert(out.deep_view()[a] == had[a]);
                    }
                    if b < had.len() {
                        assert(out.deep_view()[b] == had[b]);
                    }
                }
            }
        } else {
            proof {
                assert forall|id: Seq<char>| #[trigger]
                    gone(v, others, id) && own@[id] < i + 1 implies out.deep_view().contains(
                    entity_of(v, id)->0,
                ) by {
                    assert(own@.contains_key(id));
                    assert(!other@.contains_key(id));
                    if own@[id] == i {
                        assert(id == e.id);
                    }
                }
            }
        }
        i += 1;
    }
    proof {
        assert forall|id: Seq<char>| #[trigger] gone(v, others, id) implies out.deep_view().contains(
            entity_of(v, id)->0,
        ) by {
            assert(own@.contains_key(id));
        }
    }
    out
}

/// The changed entities, in the order of the new bundle.
fn modified_in(
    from: &Vec<IndexEntity>,
    to: &Vec<IndexEntity>,
    fm: &StringHashMap<usize>,
    tm: &StringHashMap<usize>,
) -> (r: Vec<ModifiedEntity>)
    requires
        indexes(fm@, from.deep_view()),
        indexes(tm@, to.deep_view()),
    ensures
        distinct_keys::<ModifiedEntity>(r.deep_view()),
        forall|i: int|
            0 <= i < r.len() ==> changed(
                from.deep_view(),
                to.deep_view(),
                (#[trigger] r.deep_view()[i]).id,
            ) && r.deep_view()[i] == change_of(
                entity_of(from.deep_view(), r.deep_view()[i].id)->0,
                entity_of(to.deep_view(), r.deep_view()[i].id)->0,
            ),
        forall|id: Seq<char>| #[trigger]
            changed(from.deep_view(), to.deep_view(), id) ==> r.deep_view().contains(
                change_of(
                    entity_of(from.deep_view(), id)->0,
                    entity_of(to.deep_view(), id)->0,
                ),
            ),
{
    let ghost f = from.deep_view();
    let ghost t = to.deep_view();
    let mut out: Vec<ModifiedEntity> = Vec::new();
    let mut i: usize = 0;
    while i < to.len()
        invariant
            i <= to.len(),
            f == from.deep_view(),
            t == to.deep_view(),
            indexes(fm@, f),
            indexes(tm@, t),
            forall|k: int|
                0 <= k < out.len() ==> changed(f, t, (#[trigger] out.deep_view()[k]).id)
                    && out.deep_view()[k] == change_of(
                    entity_of(f, out.deep_view()[k].id)->0,
                    entity_of(t, out.deep_view()[k].id)->0,
                ) && tm@[out.deep_view()[k].id] < i,
            forall|id: Seq<char>| #[trigger]
                changed(f, t, id) && tm@[id] < i ==> out.deep_view().contains(
                    change_of(entity_of(f, id)->0, entity_of(t, id)->0),
                ),
            distinct_keys::<ModifiedEntity>(out.deep_view()),
        decreases to.len() - i,
    {
        let ghost had = out.deep_view();
        let ghost e = t[i as int];
        assert(e == to[i as int].deep_view());
        let last = match tm.get(to[i].id.as_str()) {
            Some(p) => *p == i,
            None => false,
        };
        let old_position: Option<usize> = match fm.get(to[i].id.as_str()) {
            Some(p) => Some(*p),
            None => None,
        };
        let mut pushed = false;
        if last {
            match old_position {
                Some(p) => {
                    assert(fm@.contains_key(e.id));
                    assert(f[p as int] == from[p as int].deep_view());
                    if !str_eq(to[i].content_hash.as_str(), from[p].content_hash.as_str()) {
                        pushed = true;
                        out.push(
                            ModifiedEntity {
                                id: to[i].id.clone(),
                                kind: to[i].kind.clone(),
                                file: to[i].file.clone(),
                                from_hash: from[p].content_hash.clone(),
                                to_hash: to[i].content_hash.clone(),
                            },
                        );
                        assert(out.deep_view() =~= had.push(change_of(f[p as int], e)));
                    }
                },
                None => {},
            }
        }
        proof {
            assert forall|id: Seq<char>| #[trigger]
                changed(f, t, id) && tm@[id] < i + 1 implies out.deep_view().contains(
                change_of(entity_of(f, id)->0, entity_of(t, id)->0),
            ) by {
                assert(tm@.contains_key(id));
                assert(fm@.contains_key(id));
                if tm@[id] == i {
                    assert(id == e.id);
                    assert(pushed);
                    assert(out.deep_view()[had.len() as int] == change_of(
                        entity_of(f, id)->0,
                        entity_of(t, id)->0,
                    ));
                } else {
                    let m = change_of(entity_of(f, id)->0, entity_of(t, id)->0);
                    let k = choose|k: int| 0 <= k < had.len() && had[k] == m;
                    assert(out.deep_view()[k] == had[k]);
                }
            }
            assert forall|k: int| 0 <= k < out.len() implies changed(
                f,
                t,
                (#[trigger] out.deep_view()[k]).id,
            ) && out.deep_view()[k] == change_of(
                entity_of(f, out.deep_view()[k].id)->0,
                entity_of(t, out.deep_view()[k].id)->0,
            ) && tm@[out.deep_view()[k].id] < i + 1 by {
                if k < had.len() {
                    assert(out.deep_view()[k] == had[k]);
                }
            }
            assert forall|a: int, b: int|
                0 <= a < out.len() && 0 <= b < out.len() && a != b implies (
            #[trigger] out.deep_view()[a]).id != (#[trigger] out.deep_view()[b]).id by {
                if a < had.len() {
                    assert(out.deep_view()[a] == had[a]);
                }
                if b < had.len() {
                    assert(out.deep_view()[b] == had[b]);
                }
            }
        }
        i += 1;
    }
    proof {
        assert forall|id: Seq<char>| #[trigger] changed(f, t, id) implies out.deep_view().contains(
            change_of(entity_of(f, id)->0, entity_of(t, id)->0),
        ) by {
            assert(tm@.contains_key(id));
        }
    }
    out
}

// ── Renames ──────────────────────────────────────────────────────────────────

/// Whether `x` pairs one of the first `n` entities of `gone` with one of `new`
/// of the same, known content.
spec fn pair_of(gone: Seq<EntityView>, new: Seq<EntityView>, x: RenamedView, n: int) -> bool {
    exists|a: int, b: int|
        0 <= a < n && 0 <= b < new.len() && (#[trigger] gone[a]).id == x.from_id && (
        #[trigger] new[b]).id == x.to_id && gone[a].content_hash == x.content_hash
            && new[b].content_hash == x.content_hash && x.content_hash.len() > 0
}

/// The state of pairing up after the first `n` entities that are gone.
spec fn paired(
    gone: Seq<EntityView>,
    new: Seq<EntityView>,
    n: int,
    rs: Seq<RenamedView>,
    kept: Seq<EntityView>,
    taken: Seq<bool>,
) -> bool {
    &&& taken.len() == new.len()
    &&& forall|x: int| 0 <= x < rs.len() ==> pair_of(gone, new, #[trigger] rs[x], n)
    &&& forall|x: int, y: int|
        0 <= x < rs.len() && 0 <= y < rs.len() && x != y ==> (#[trigger] rs[x]).from_id != (
        #[trigger] rs[y]).from_id && rs[x].to_id != rs[y].to_id
    &&& forall|m: int|
        0 <= m < new.len() ==> (#[trigger] taken[m] <==> renamed_to(rs, new[m].id))
    &&& forall|i: int|
        0 <= i < kept.len() ==> !renamed_from(rs, (#[trigger] kept[i]).id) && gone.take(
            n,
        ).contains(kept[i])
    &&& forall|k: int|
        0 <= k < n && !renamed_from(rs, (#[trigger] gone[k]).id) ==> kept.contains(gone[k])
    &&& distinct_keys::<IndexEntity>(kept)
    &&& forall|i: int, m: int|
        0 <= i < kept.len() && 0 <= m < new.len() && (#[trigger] kept[i]).content_hash == (
        #[trigger] new[m]).content_hash && kept[i].content_hash.len() > 0 ==> taken[m]
}

/// An entity of `new` that is not taken and has the content `hash`.
fn find_free(new: &Vec<IndexEntity>, taken: &Vec<bool>, hash: &str) -> (r: Option<usize>)
    requires
        taken.len() == new.len(),
    ensures
        match r {
            Some(m) => m < new.len() && !taken@[m as int] && new.deep_view()[m as int].content_hash
                == hash@,
            None => forall|m: int|
                0 <= m < new.len() && (#[trigger] new.deep_view()[m]).content_hash == hash@
                    ==> taken@[m],
        },
{
    let mut m: usize = 0;
    while m < new.len()
        invariant
            m <= new.len(),
            taken.len() == new.len(),
            forall|k: int|
                0 <= k < m && (#[trigger] new.deep_view()[k]).content_hash == hash@ ==> taken@[k],
        decreases new.len() - m,
    {
        assert(new.deep_view()[m as int] == new[m as int].deep_view());
        if !taken[m] && str_eq(new[m].content_hash.as_str(), hash) {
            return Some(m);
        }
        m += 1;
    }
    None
}

proof fn lemma_keep(
    gone: Seq<EntityView>,
    new: Seq<EntityView>,
    n: int,
    rs: Seq<RenamedView>,
    kept: Seq<EntityView>,
    taken: Seq<bool>,
)
    requires
        0 <= n < gone.len(),
        distinct_keys::<IndexEntity>(gone),
        paired(gone, new, n, rs, kept, taken),
        gone[n].content_hash.len() == 0 || forall|m: int|
            0 <= m < new.len() && (#[trigger] new[m]).content_hash == gone[n].content_hash
                ==> taken[m],
    ensures
        paired(gone, new, n + 1, rs, kept.push(gone[n]), taken),
{
    let after = kept.push(gone[n]);
    assert(!renamed_from(rs, gone[n].id)) by {
        if renamed_from(rs, gone[n].id) {
            let x = choose|x: int| 0 <= x < rs.len() && (#[trigger] rs[x]).from_id == gone[n].id;
            assert(pair_of(gone, new, rs[x], n));
            let (a, b) = choose|a: int, b: int|
                0 <= a < n && 0 <= b < new.len() && (#[trigger] gone[a]).id == rs[x].from_id && (
                #[trigger] new[b]).id == rs[x].to_id && gone[a].content_hash
                    == rs[x].content_hash && new[b].content_hash == rs[x].content_hash
                    && rs[x].content_hash.len() > 0;
            assert(gone[a].id == gone[n].id);
        }
    }
    assert forall|x: int| 0 <= x < rs.len() implies pair_of(gone, new, #[trigger] rs[x], n + 1) by {
        assert(pair_of(gone, new, rs[x], n));
    }
    assert forall|i: int| 0 <= i < after.len() implies !renamed_from(rs, (#[trigger] after[i]).id)
        && gone.take(n + 1).contains(after[i]) by {
        if i < kept.len() {
            assert(after[i] == kept[i]);
            let k = choose|k: int| 0 <= k < gone.take(n).len() && gone.take(n)[k] == kept[i];
            assert(gone.take(n + 1)[k] == kept[i]);
        } else {
            assert(gone.take(n + 1)[n] == gone[n]);
        }
    }
    assert forall|k: int|
        0 <= k < n + 1 && !renamed_from(rs, (#[trigger] gone[k]).id) implies after.contains(
        gone[k],
    ) by {
        if k < n {
            let i = choose|i: int| 0 <= i < kept.len() && kept[i] == gone[k];
            assert(after[i] == gone[k]);
        } else {
            assert(after[kept.len() as int] == gone[k]);
        }
    }
    assert forall|i: int, j: int|
        0 <= i < after.len() && 0 <= j < after.len() && i != j implies (#[trigger] after[i]).id != (
    #[trigger] after[j]).id by {
        lemma_kept_before(gone, n, kept, i);
        lemma_kept_before(gone, n, kept, j);
    }
    assert forall|i: int, m: int|
        0 <= i < after.len() && 0 <= m < new.len() && (#[trigger] after[i]).content_hash == (
        #[trigger] new[m]).content_hash && after[i].content_hash.len() > 0 implies taken[m] by {
        if i < kept.len() {
            assert(after[i] == kept[i]);
        }
    }
}

/// What was kept has another id than the next entity.
proof fn lemma_kept_before(gone: Seq<EntityView>, n: int, kept: Seq<EntityView>, i: int)
    requires
        0 <= n < gone.len(),
        distinct_keys::<IndexEntity>(gone),
        forall|x: int| 0 <= x < kept.len() ==> gone.take(n).contains(#[trigger] kept[x]),
    ensures
        0 <= i < kept.len() ==> kept[i].id != gone[n].id,
        0 <= i < kept.len() ==> kept.push(gone[n])[i] == kept[i],
{
    if 0 <= i < kept.len() {
        let k = choose|k: int| 0 <= k < gone.take(n).len() && gone.take(n)[k] == kept[i];
        assert(gone[k].id != gone[n].id);
    }
}

proof fn lemma_pair(
    gone: Seq<EntityView>,
    new: Seq<EntityView>,
    n: int,
    rs: Seq<RenamedView>,
    kept: Seq<EntityView>,
    taken: Seq<bool>,
    m: int,
)
    requires
        0 <= n < gone.len(),
        0 <= m < new.len(),
        distinct_keys::<IndexEntity>(gone),
        distinct_keys::<IndexEntity>(new),
        paired(gone, new, n, rs, kept, taken),
        !taken[m],
        gone[n].content_hash == new[m].content_hash,
        gone[n].content_hash.len() > 0,
    ensures
        paired(
            gone,
            new,
            n + 1,
            rs.push(
                RenamedView {
                    from_id: gone[n].id,
                    to_id: new[m].id,
                    content_hash: gone[n].content_hash,
                },
            ),
            kept,
            taken.update(m, true),
        ),
{
    let x = RenamedView {
        from_id: gone[n].id,
        to_id: new[m].id,
        content_hash: gone[n].content_hash,
    };
    let after = rs.push(x);
    let now = taken.update(m, true);
    assert forall|i: int| 0 <= i < after.len() implies pair_of(
        gone,
        new,
        #[trigger] after[i],
        n + 1,
    ) by {
        if i < rs.len() {
            assert(after[i] == rs[i]);
            assert(pair_of(gone, new, rs[i], n));
        } else {
            assert(gone[n].id == x.from_id && new[m].id == x.to_id);
        }
    }
    assert forall|i: int, j: int|
        0 <= i < after.len() && 0 <= j < after.len() && i != j implies (
    #[trigger] after[i]).from_id != (#[trigger] after[j]).from_id && after[i].to_id
        != after[j].to_id by {
        if i < rs.len() {
            lemma_pair_other(gone, new, n, rs, taken, m, i);
            assert(after[i] == rs[i]);
        }
        if j < rs.len() {
            lemma_pair_other(gone, new, n, rs, taken, m, j);
            assert(after[j] == rs[j]);
        }
    }
    assert forall|k: int| 0 <= k < new.len() implies (#[trigger] now[k] <==> renamed_to(
        after,
        new[k].id,
    )) by {
        if k == m {
            assert(after[rs.len() as int].to_id == new[m].id);
        } else {
            assert(new[k].id != new[m].id);
            assert(now[k] == taken[k]);
            if renamed_to(rs, new[k].id) {
                let i = choose|i: int| 0 <= i < rs.len() && (#[trigger] rs[i]).to_id == new[k].id;
                assert(after[i].to_id == new[k].id);
            }
            if renamed_to(after, new[k].id) {
                let i = choose|i: int|
                    0 <= i < after.len() && (#[trigger] after[i]).to_id == new[k].id;
                assert(i < rs.len());
                assert(rs[i].to_id == new[k].id);
            }
        }
    }
    assert forall|i: int| 0 <= i < kept.len() implies !renamed_from(
        after,
        (#[trigger] kept[i]).id,
    ) && gone.take(n + 1).contains(kept[i]) by {
        lemma_kept_before(gone, n, kept, i);
        assert(!renamed_from(rs, kept[i].id));
        if renamed_from(after, kept[i].id) {
            let y = choose|y: int|
                0 <= y < after.len() && (#[trigger] after[y]).from_id == kept[i].id;
            assert(y < rs.len());
            assert(rs[y].from_id == kept[i].id);
        }
        let k = choose|k: int| 0 <= k < gone.take(n).len() && gone.take(n)[k] == kept[i];
        assert(gone.take(n + 1)[k] == kept[i]);
    }
    assert forall|k: int|
        0 <= k < n + 1 && !renamed_from(after, (#[trigger] gone[k]).id) implies kept.contains(
        gone[k],
    ) by {
        if k < n {
            if renamed_from(rs, gone[k].id) {
                let y = choose|y: int|
                    0 <= y < rs.len() && (#[trigger] rs[y]).from_id == gone[k].id;
                assert(after[y].from_id == gone[k].id);
            }
        } else {
            assert(after[rs.len() as int].from_id == gone[n].id);
        }
    }
}

/// An earlier rename has neither side in common with the next.
proof fn lemma_pair_other(
    gone: Seq<EntityView>,
    new: Seq<EntityView>,
    n: int,
    rs: Seq<RenamedView>,
    taken: Seq<bool>,
    m: int,
    i: int,
)
    requires
        0 <= n < gone.len(),
        0 <= m < new.len(),
        taken.len() == new.len(),
        0 <= i < rs.len(),
        distinct_keys::<IndexEntity>(gone),
        pair_of(gone, new, rs[i], n),
        taken[m] <==> renamed_to(rs, new[m].id),
        !taken[m],
    ensures
        rs[i].from_id != gone[n].id,
        rs[i].to_id != new[m].id,
{
    let (a, b) = choose|a: int, b: int|
        0 <= a < n && 0 <= b < new.len() && (#[trigger] gone[a]).id == rs[i].from_id && (
        #[trigger] new[b]).id == rs[i].to_id && gone[a].content_hash == rs[i].content_hash
            && new[b].content_hash == rs[i].content_hash && rs[i].content_hash.len() > 0;
    assert(gone[a].id != gone[n].id);
}

/// Pairs up entities that are gone with new ones of the same content.
fn pair_renames(gone: &Vec<IndexEntity>, new: &Vec<IndexEntity>) -> (r: (
    Vec<RenamedEntity>,
    Vec<IndexEntity>,
    Vec<bool>,
))
    requires
        distinct_keys::<IndexEntity>(gone.deep_view()),
        distinct_keys::<IndexEntity>(new.deep_view()),
    ensures
        paired(
            gone.deep_view(),
            new.deep_view(),
            gone.len() as int,
            r.0.deep_view(),
            r.1.deep_view(),
            r.2@,
        ),
{
    let ghost g = gone.deep_view();
    let ghost w = new.deep_view();
    let mut renamed: Vec<RenamedEntity> = Vec::new();
    let mut kept: Vec<IndexEntity> = Vec::new();
    let mut taken: Vec<bool> = Vec::new();
    let mut i: usize = 0;
    while i < new.len()
        invariant
            i <= new.len(),
            taken.len() == i,
            forall|k: int| 0 <= k < i ==> !#[trigger] taken@[k],
        decreases new.len() - i,
    {
        taken.push(false);
        i += 1;
    }
    let mut n: usize = 0;
    while n < gone.len()
        invariant
            n <= gone.len(),
            g == gone.deep_view(),
            w == new.deep_view(),
            distinct_keys::<IndexEntity>(g),
            distinct_keys::<IndexEntity>(w),
            paired(g, w, n as int, renamed.deep_view(), kept.deep_view(), taken@),
        decreases gone.len() - n,
    {
        let ghost rs = renamed.deep_view();
        let ghost ks = kept.deep_view();
        assert(g[n as int] == gone[n as int].deep_view());
        let free = if gone[n].content_hash.as_str().is_empty() {
            None
        } else {
            find_free(new, &taken, gone[n].content_hash.as_str())
        };
        match free {
            Some(m) => {
                assert(w[m as int] == new[m as int].deep_view());
                proof {
                    lemma_pair(g, w, n as int, rs, ks, taken@, m as int);
                }
                renamed.push(
                    RenamedEntity {
                        from_id: gone[n].id.clone(),
                        to_id: new[m].id.clone(),
                        content_hash: gone[n].content_hash.clone(),
                    },
                );
                taken.set(m, true);
                assert(renamed.deep_view() =~= rs.push(
                    RenamedView {
                        from_id: g[n as int].id,
                        to_id: w[m as int].id,
                        content_hash: g[n as int].content_hash,
                    },
                ));
            },
            None => {
                proof {
                    lemma_keep(g, w, n as int, rs, ks, taken@);
                }
                kept.push(gone[n].clone());
                assert(kept.deep_view() =~= ks.push(g[n as int]));
            },
        }
        n += 1;
    }
    (renamed, kept, taken)
}

/// The entities that are not taken.
fn untaken(new: &Vec<IndexEntity>, taken: &Vec<bool>) -> (r: Vec<IndexEntity>)
    requires
        taken.len() == new.len(),
        distinct_keys::<IndexEntity>(new.deep_view()),
    ensures
        distinct_keys::<IndexEntity>(r.deep_view()),
        forall|i: int|
            0 <= i < r.len() ==> free_at(
                new.deep_view(),
                taken@,
                new.len() as int,
                #[trigger] r.deep_view()[i],
            ),
        forall|m: int|
            0 <= m < new.len() && !taken@[m] ==> r.deep_view().contains(
                #[trigger] new.deep_view()[m],
            ),
{
    let ghost w = new.deep_view();
    let mut out: Vec<IndexEntity> = Vec::new();
    let mut n: usize = 0;
    while n < new.len()
        invariant
            n <= new.len(),
            taken.len() == new.len(),
            w == new.deep_view(),
            distinct_keys::<IndexEntity>(w),
            forall|i: int|
                0 <= i < out.len() ==> free_at(w, taken@, n as int, #[trigger] out.deep_view()[i]),
            forall|m: int|
                0 <= m < n && !taken@[m] ==> out.deep_view().contains(#[trigger] w[m]),
            distinct_keys::<IndexEntity>(out.deep_view()),
        decreases new.len() - n,
    {
        let ghost had = out.deep_view();
        assert(w[n as int] == new[n as int].deep_view());
        if !taken[n] {
            out.push(new[n].clone());
            assert(out.deep_view() =~= had.push(w[n as int]));
        }
        proof {
            assert forall|i: int| 0 <= i < out.len() implies free_at(
                w,
                taken@,
                n + 1,
                #[trigger] out.deep_view()[i],
            ) by {
                if i < had.len() {
                    assert(out.deep_view()[i] == had[i]);
                    assert(free_at(w, taken@, n as int, had[i]));
                } else {
                    assert(w[n as int] == out.deep_view()[i]);
                }
            }
            assert forall|m: int|
                0 <= m < n + 1 && !taken@[m] implies out.deep_view().contains(#[trigger] w[m]) by {
                if m < n {
                    let i = choose|i: int| 0 <= i < had.len() && had[i] == w[m];
                    assert(out.deep_view()[i] == w[m]);
                } else {
                    assert(out.deep_view()[had.len() as int] == w[m]);
                }
            }
            assert forall|i: int, j: int|
                0 <= i < out.len() && 0 <= j < out.len() && i != j implies (
            #[trigger] out.deep_view()[i]).id != (#[trigger] out.deep_view()[j]).id by {
                if i < had.len() {
                    assert(out.deep_view()[i] == had[i]);
                    assert(free_at(w, taken@, n as int, had[i]));
                }
                if j < had.len() {
                    assert(out.deep_view()[j] == had[j]);
                    assert(free_at(w, taken@, n as int, had[j]));
                }
            }
        }
        n += 1;
    }
    out
}

/// Whether `e` is one of the first `n` entities and not taken.
spec fn free_at(w: Seq<EntityView>, taken: Seq<bool>, n: int, e: EntityView) -> bool {
    exists|m: int| 0 <= m < n && !taken[m] && (#[trigger] w[m]) == e
}

// ── The difference ───────────────────────────────────────────────────────────

/// Whether `a` and `b` hold the same elements.
spec fn same<T>(a: Seq<T>, b: Seq<T>) -> bool {
    forall|v: T| a.contains(v) <==> #[trigger] b.contains(v)
}

proof fn lemma_renamed_same(a: Seq<RenamedView>, b: Seq<RenamedView>)
    requires
        same(a, b),
    ensures
        forall|id: Seq<char>| #[trigger] renamed_from(a, id) <==> renamed_from(b, id),
        forall|id: Seq<char>| #[trigger] renamed_to(a, id) <==> renamed_to(b, id),
{
    assert forall|x: RenamedView| a.contains(x) implies exists|i: int|
        0 <= i < b.len() && #[trigger] b[i] == x by {
        assert(b.contains(x));
    }
    assert forall|i: int| 0 <= i < a.len() implies b.contains(#[trigger] a[i]) by {
        assert(a.contains(a[i]));
    }
    assert forall|i: int| 0 <= i < b.len() implies a.contains(#[trigger] b[i]) by {
        assert(b.contains(b[i]));
    }
}

/// The sorted lists of the pieces are the difference.
proof fn lemma_is_diff(
    f: Seq<EntityView>,
    t: Seq<EntityView>,
    gone_list: Seq<EntityView>,
    new_list: Seq<EntityView>,
    rs: Seq<RenamedView>,
    kept: Seq<EntityView>,
    taken: Seq<bool>,
    free: Seq<EntityView>,
    mods: Seq<ModifiedView>,
    d: ChangesView,
)
    requires
        // the entities of one side only
        forall|i: int|
            0 <= i < gone_list.len() ==> gone(f, t, (#[trigger] gone_list[i]).id) && gone_list[i]
                == entity_of(f, gone_list[i].id)->0,
        forall|id: Seq<char>| #[trigger]
            gone(f, t, id) ==> gone_list.contains(entity_of(f, id)->0),
        forall|i: int|
            0 <= i < new_list.len() ==> gone(t, f, (#[trigger] new_list[i]).id) && new_list[i]
                == entity_of(t, new_list[i].id)->0,
        forall|id: Seq<char>| #[trigger]
            gone(t, f, id) ==> new_list.contains(entity_of(t, id)->0),
        // what pairs up
        paired(gone_list, new_list, gone_list.len() as int, rs, kept, taken),
        forall|i: int|
            0 <= i < free.len() ==> free_at(
                new_list,
                taken,
                new_list.len() as int,
                #[trigger] free[i],
            ),
        forall|m: int|
            0 <= m < new_list.len() && !taken[m] ==> free.contains(#[trigger] new_list[m]),
        // what changed
        forall|i: int|
            0 <= i < mods.len() ==> changed(f, t, (#[trigger] mods[i]).id) && mods[i] == change_of(
                entity_of(f, mods[i].id)->0,
                entity_of(t, mods[i].id)->0,
            ),
        forall|id: Seq<char>| #[trigger]
            changed(f, t, id) ==> mods.contains(
                change_of(entity_of(f, id)->0, entity_of(t, id)->0),
            ),
        // sorted
        ascending::<ModifiedEntity>(d.modified),
        ascending::<RenamedEntity>(d.renamed),
        ascending::<IndexEntity>(d.removed),
        ascending::<IndexEntity>(d.added),
        same(d.modified, mods),
        same(d.renamed, rs),
        same(d.removed, kept),
        same(d.added, free),
        d.renamed.len() == rs.len(),
    ensures
        is_diff(f, t, d),
{
    lemma_renamed_same(d.renamed, rs);
    assert forall|i: int| 0 <= i < d.modified.len() implies mods.contains(
        #[trigger] d.modified[i],
    ) by {
        assert(d.modified.contains(d.modified[i]));
    }
    assert forall|i: int| 0 <= i < d.renamed.len() implies rs.contains(#[trigger] d.renamed[i]) by {
        assert(d.renamed.contains(d.renamed[i]));
    }
    assert forall|i: int| 0 <= i < d.removed.len() implies kept.contains(#[trigger] d.removed[i]) by {
        assert(d.removed.contains(d.removed[i]));
    }
    assert forall|i: int| 0 <= i < d.added.len() implies free.contains(#[trigger] d.added[i]) by {
        assert(d.added.contains(d.added[i]));
    }
    assert(gone_list.take(gone_list.len() as int) =~= gone_list);
    // renamed
    assert forall|i: int| 0 <= i < d.renamed.len() implies gone(
        f,
        t,
        (#[trigger] d.renamed[i]).from_id,
    ) && gone(t, f, d.renamed[i].to_id) && entity_of(f, d.renamed[i].from_id)->0.content_hash
        == d.renamed[i].content_hash && entity_of(t, d.renamed[i].to_id)->0.content_hash
        == d.renamed[i].content_hash && d.renamed[i].content_hash.len() > 0 by {
        let x = d.renamed[i];
        let k = choose|k: int| 0 <= k < rs.len() && rs[k] == x;
        assert(pair_of(gone_list, new_list, rs[k], gone_list.len() as int));
        let (a, b) = choose|a: int, b: int|
            0 <= a < gone_list.len() && 0 <= b < new_list.len() && (#[trigger] gone_list[a]).id
                == x.from_id && (#[trigger] new_list[b]).id == x.to_id
                && gone_list[a].content_hash == x.content_hash && new_list[b].content_hash
                == x.content_hash && x.content_hash.len() > 0;
        assert(gone(f, t, gone_list[a].id));
        assert(gone(t, f, new_list[b].id));
    }
    assert forall|i: int, j: int|
        0 <= i < d.renamed.len() && 0 <= j < d.renamed.len() && i != j implies (
    #[trigger] d.renamed[i]).to_id != (#[trigger] d.renamed[j]).to_id by {
        let a = choose|k: int| 0 <= k < rs.len() && rs[k] == d.renamed[i];
        let b = choose|k: int| 0 <= k < rs.len() && rs[k] == d.renamed[j];
        if i < j {
            lemma_text_lt_irreflexive(d.renamed[i].from_id);
        } else {
            lemma_text_lt_irreflexive(d.renamed[j].from_id);
        }
        assert(a != b);
        assert(rs[a].to_id != rs[b].to_id);
    }
    // removed
    assert forall|i: int| 0 <= i < d.removed.len() implies gone(
        f,
        t,
        (#[trigger] d.removed[i]).id,
    ) && !renamed_from(d.renamed, d.removed[i].id) && d.removed[i] == entity_of(
        f,
        d.removed[i].id,
    )->0 by {
        let k = choose|k: int| 0 <= k < kept.len() && kept[k] == d.removed[i];
        assert(!renamed_from(rs, kept[k].id));
        assert(gone_list.contains(kept[k]));
    }
    assert forall|id: Seq<char>| #[trigger]
        gone(f, t, id) && !renamed_from(d.renamed, id) implies d.removed.contains(
        entity_of(f, id)->0,
    ) by {
        let e = entity_of(f, id)->0;
        lemma_entity_of_id(f, id);
        let k = choose|k: int| 0 <= k < gone_list.len() && gone_list[k] == e;
        assert(!renamed_from(rs, gone_list[k].id));
        assert(kept.contains(e));
    }
    // added
    assert forall|i: int| 0 <= i < d.added.len() implies gone(t, f, (#[trigger] d.added[i]).id)
        && !renamed_to(d.renamed, d.added[i].id) && d.added[i] == entity_of(
        t,
        d.added[i].id,
    )->0 by {
        let k = choose|k: int| 0 <= k < free.len() && free[k] == d.added[i];
        assert(free_at(new_list, taken, new_list.len() as int, free[k]));
    }
    assert forall|id: Seq<char>| #[trigger]
        gone(t, f, id) && !renamed_to(d.renamed, id) implies d.added.contains(
        entity_of(t, id)->0,
    ) by {
        let e = entity_of(t, id)->0;
        lemma_entity_of_id(t, id);
        let m = choose|m: int| 0 <= m < new_list.len() && new_list[m] == e;
        assert(!renamed_to(rs, new_list[m].id));
        assert(!taken[m]);
        assert(free.contains(e));
    }
    // nothing is left
    assert forall|i: int, j: int|
        0 <= i < d.removed.len() && 0 <= j < d.added.len() implies (
    #[trigger] d.removed[i]).content_hash != (#[trigger] d.added[j]).content_hash
        || d.removed[i].content_hash.len() == 0 by {
        let a = choose|k: int| 0 <= k < kept.len() && kept[k] == d.removed[i];
        let b = choose|k: int| 0 <= k < free.len() && free[k] == d.added[j];
        assert(free_at(new_list, taken, new_list.len() as int, free[b]));
        let m = choose|m: int|
            0 <= m < new_list.len() && !taken[m] && (#[trigger] new_list[m]) == free[b];
        if kept[a].content_hash == new_list[m].content_hash && kept[a].content_hash.len() > 0 {
            assert(taken[m]);
        }
    }
    // modified
    assert forall|i: int| 0 <= i < d.modified.len() implies changed(
        f,
        t,
        (#[trigger] d.modified[i]).id,
    ) && d.modified[i] == change_of(
        entity_of(f, d.modified[i].id)->0,
        entity_of(t, d.modified[i].id)->0,
    ) by {
        let k = choose|k: int| 0 <= k < mods.len() && mods[k] == d.modified[i];
        assert(changed(f, t, mods[k].id));
    }
    assert forall|id: Seq<char>| #[trigger] changed(f, t, id) implies d.modified.contains(
        change_of(entity_of(f, id)->0, entity_of(t, id)->0),
    ) by {
        assert(mods.contains(change_of(entity_of(f, id)->0, entity_of(t, id)->0)));
    }
}

/// The difference of two bundles: what was added, removed, modified and
/// renamed from one to the other, each list sorted by id.
pub fn compute_diff(
    from_ref: &str,
    to_ref: &str,
    from_sha: &str,
    to_sha: &str,
    from_entities: Vec<IndexEntity>,
    to_entities: Vec<IndexEntity>,
) -> (r: BundleDiff)
    ensures
        r.from@ == from_ref@,
        r.to@ == to_ref@,
        r.from_sha@ == from_sha@,
        r.to_sha@ == to_sha@,
        is_diff(from_entities.deep_view(), to_entities.deep_view(), r.changes()),
{
    let ghost f = from_entities.deep_view();
    let ghost t = to_entities.deep_view();
    let from_ids = last_positions(&from_entities);
    let to_ids = last_positions(&to_entities);
    let modified = modified_in(&from_entities, &to_entities, &from_ids, &to_ids);
    let removed = only_in(&from_entities, &from_ids, &to_ids, Ghost(t));
    let added = only_in(&to_entities, &to_ids, &from_ids, Ghost(f));
    let (renamed, keep_removed, taken) = pair_renames(&removed, &added);
    let keep_added = untaken(&added, &taken);
    assert(distinct_keys::<RenamedEntity>(renamed.deep_view()));
    let d = BundleDiff {
        from: from_ref.to_owned(),
        to: to_ref.to_owned(),
        from_sha: from_sha.to_owned(),
        to_sha: to_sha.to_owned(),
        added: sort_records(&keep_added),
        removed: sort_records(&keep_removed),
        modified: sort_records(&modified),
        renamed: sort_records(&renamed),
    };
    proof {
        lemma_is_diff(
            f,
            t,
            removed.deep_view(),
            added.deep_view(),
            renamed.deep_view(),
            keep_removed.deep_view(),
            taken@,
            keep_added.deep_view(),
            modified.deep_view(),
            d.changes(),
        );
    }
    d
}

} // verus!
