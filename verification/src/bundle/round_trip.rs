//! What is written as a bundle is what is loaded from it.

use crate::bundle::files::{
    by_id, diagram_names, entities_at, entity_at, entity_files, file_named, files_of, inserted,
    json_fault, json_member, loaded, sanitized, ArtifactDirView, BundleFilesView,
    EntityArtifactView, FileView, ListingView, LoadFault,
};
use crate::chars::{find_back, find_last, occurs_at};
use crate::keys::{ascend, law_sorted_keys, law_sorted_keys_unique, lists_keys, sorted_keys};
use crate::paths::parted;
use crate::text::{
    lemma_text_lt_irreflexive, lemma_text_lt_total, lemma_text_lt_transitive, text_lt,
};
use vstd::prelude::*;

verus! {

/// The name of the diagram of an entity.
pub open spec fn diagram_name(e: EntityArtifactView) -> Seq<char> {
    sanitized(e.id) + ".mmd"@
}

/// The name of the metadata of an entity.
pub open spec fn meta_name(e: EntityArtifactView) -> Seq<char> {
    sanitized(e.id) + ".meta.json"@
}

/// Whether entities can be told apart by their files, and have metadata that
/// name them.
pub open spec fn well_named(es: Seq<EntityArtifactView>) -> bool {
    &&& forall|i: int|
        0 <= i < es.len() ==> (#[trigger] es[i]).id.len() > 0 && json_fault(es[i].meta) is None
            && json_member(es[i].meta, "id"@) == Some(es[i].id)
    &&& forall|i: int, j: int|
        0 <= i < es.len() && 0 <= j < es.len() && i != j ==> sanitized((#[trigger] es[i]).id)
            != sanitized((#[trigger] es[j]).id)
}

/// Whether the ids of entities strictly ascend.
pub open spec fn ascending_ids(es: Seq<EntityArtifactView>) -> bool {
    forall|i: int, j: int|
        0 <= i < j < es.len() ==> text_lt((#[trigger] es[i]).id, (#[trigger] es[j]).id)
}

// ── Names ────────────────────────────────────────────────────────────────────

proof fn lemma_diagram_name(b: Seq<char>)
    requires
        b.len() > 0,
    ensures
        parted(b + ".mmd"@) == (b, Some("mmd"@)),
{
    reveal_strlit(".mmd");
    reveal_strlit("mmd");
    reveal_strlit(".");
    reveal_strlit("..");
    let s = b + ".mmd"@;
    let n = s.len() as int;
    let p = "."@;
    reveal_with_fuel(find_back, 5);
    assert(!occurs_at(s, p, n - 1)) by {
        assert(s.subrange(n - 1, n)[0] == 'd');
        assert(p[0] == '.');
    }
    assert(!occurs_at(s, p, n - 2)) by {
        assert(s.subrange(n - 2, n - 1)[0] == 'm');
        assert(p[0] == '.');
    }
    assert(!occurs_at(s, p, n - 3)) by {
        assert(s.subrange(n - 3, n - 2)[0] == 'm');
        assert(p[0] == '.');
    }
    assert(occurs_at(s, p, n - 4)) by {
        assert(s.subrange(n - 4, n - 3) =~= p);
    }
    assert(find_last(s, p) == Some(n - 4));
    assert(s.take(n - 4) =~= b);
    assert(s.skip(n - 3) =~= "mmd"@);
    assert(s.len() >= 5);
    assert(s != ".."@);
}

proof fn lemma_meta_name(b: Seq<char>)
    ensures
        parted(b + ".meta.json"@).1 != Some("mmd"@),
{
    reveal_strlit(".meta.json");
    reveal_strlit("mmd");
    reveal_strlit(".");
    let s = b + ".meta.json"@;
    let n = s.len() as int;
    let p = "."@;
    reveal_with_fuel(find_back, 6);
    assert(!occurs_at(s, p, n - 1)) by {
        assert(s.subrange(n - 1, n)[0] == 'n');
        assert(p[0] == '.');
    }
    assert(!occurs_at(s, p, n - 2)) by {
        assert(s.subrange(n - 2, n - 1)[0] == 'o');
        assert(p[0] == '.');
    }
    assert(!occurs_at(s, p, n - 3)) by {
        assert(s.subrange(n - 3, n - 2)[0] == 's');
        assert(p[0] == '.');
    }
    assert(!occurs_at(s, p, n - 4)) by {
        assert(s.subrange(n - 4, n - 3)[0] == 'j');
        assert(p[0] == '.');
    }
    assert(occurs_at(s, p, n - 5)) by {
        assert(s.subrange(n - 5, n - 4) =~= p);
    }
    assert(find_last(s, p) == Some(n - 5));
    assert(s.skip(n - 4)[0] == 'j');
    assert("mmd"@[0] == 'm');
}

/// A diagram and a metadata file never share a name, and equal names come from
/// equal stems.
proof fn lemma_names_apart(a: Seq<char>, b: Seq<char>)
    ensures
        a + ".mmd"@ != b + ".meta.json"@,
        a + ".mmd"@ == b + ".mmd"@ ==> a == b,
        a + ".meta.json"@ == b + ".meta.json"@ ==> a == b,
{
    reveal_strlit(".mmd");
    reveal_strlit(".meta.json");
    let x = a + ".mmd"@;
    let y = b + ".meta.json"@;
    assert(x.last() == 'd');
    assert(y.last() == 'n');
    if a + ".mmd"@ == b + ".mmd"@ {
        let z = b + ".mmd"@;
        assert(x.take(x.len() - 4) =~= a);
        assert(z.take(z.len() - 4) =~= b);
    }
    if a + ".meta.json"@ == b + ".meta.json"@ {
        let w = a + ".meta.json"@;
        assert(w.take(w.len() - 10) =~= a);
        assert(y.take(y.len() - 10) =~= b);
    }
}

// ── Files ────────────────────────────────────────────────────────────────────

proof fn lemma_diagram_names(es: Seq<EntityArtifactView>)
    requires
        forall|i: int| 0 <= i < es.len() ==> (#[trigger] es[i]).id.len() > 0,
    ensures
        diagram_names(entity_files(es)) == es.map_values(|e: EntityArtifactView| diagram_name(e)),
    decreases es.len(),
{
    let want = es.map_values(|e: EntityArtifactView| diagram_name(e));
    if es.len() == 0 {
        assert(want =~= Seq::<Seq<char>>::empty());
    } else {
        let front = es.drop_last();
        let e = es.last();
        assert(e == es[es.len() - 1]);
        assert forall|i: int| 0 <= i < front.len() implies (#[trigger] front[i]).id.len() > 0 by {
            assert(front[i] == es[i]);
        }
        lemma_diagram_names(front);
        lemma_diagram_name(sanitized(e.id));
        lemma_meta_name(sanitized(e.id));
        let all = entity_files(es);
        let one = all.drop_last();
        assert(one.drop_last() =~= entity_files(front));
        reveal_with_fuel(diagram_names, 3);
        assert(diagram_names(one) == diagram_names(entity_files(front)).push(diagram_name(e)));
        assert(diagram_names(all) == diagram_names(one));
        assert(want =~= front.map_values(|x: EntityArtifactView| diagram_name(x)).push(
            diagram_name(e),
        ));
    }
}

proof fn lemma_file_named(es: Seq<EntityArtifactView>, i: int)
    requires
        0 <= i < es.len(),
        forall|a: int, b: int|
            0 <= a < es.len() && 0 <= b < es.len() && a != b ==> sanitized((#[trigger] es[a]).id)
                != sanitized((#[trigger] es[b]).id),
    ensures
        file_named(entity_files(es), diagram_name(es[i])) == FileView::Text(es[i].mmd),
        file_named(entity_files(es), meta_name(es[i])) == FileView::Text(es[i].meta),
    decreases es.len(),
{
    let front = es.drop_last();
    let e = es.last();
    let all = entity_files(es);
    let one = all.drop_last();
    assert(one.drop_last() =~= entity_files(front));
    reveal_with_fuel(file_named, 3);
    lemma_names_apart(sanitized(es[i].id), sanitized(e.id));
    lemma_names_apart(sanitized(e.id), sanitized(es[i].id));
    if i < front.len() {
        assert(sanitized(es[i].id) != sanitized(es[es.len() - 1].id));
        assert forall|a: int, b: int|
            0 <= a < front.len() && 0 <= b < front.len() && a != b implies sanitized(
            (#[trigger] front[a]).id,
        ) != sanitized((#[trigger] front[b]).id) by {
            assert(front[a] == es[a]);
            assert(front[b] == es[b]);
        }
        lemma_file_named(front, i);
        assert(front[i] == es[i]);
    }
}

proof fn lemma_entity_at(dir: Seq<char>, es: Seq<EntityArtifactView>, i: int)
    requires
        well_named(es),
        0 <= i < es.len(),
    ensures
        entity_at(dir, entity_files(es), diagram_name(es[i])) == Ok::<
            EntityArtifactView,
            LoadFault,
        >(es[i]),
{
    lemma_file_named(es, i);
    lemma_diagram_name(sanitized(es[i].id));
}

/// The diagrams of some of the entities lead back to these.
proof fn lemma_entities_at(
    dir: Seq<char>,
    es: Seq<EntityArtifactView>,
    names: Seq<Seq<char>>,
)
    requires
        well_named(es),
        forall|k: int|
            0 <= k < names.len() ==> exists|i: int|
                0 <= i < es.len() && #[trigger] diagram_name(es[i]) == #[trigger] names[k],
    ensures
        entities_at(dir, entity_files(es), names) matches Ok(x) && x.len() == names.len() && (
        forall|k: int|
            0 <= k < x.len() ==> es.contains(#[trigger] x[k]) && diagram_name(x[k]) == names[k]),
    decreases names.len(),
{
    if names.len() > 0 {
        let front = names.drop_last();
        assert forall|k: int| 0 <= k < front.len() implies exists|i: int|
            0 <= i < es.len() && #[trigger] diagram_name(es[i]) == #[trigger] front[k] by {
            assert(front[k] == names[k]);
        }
        lemma_entities_at(dir, es, front);
        let last = names[names.len() - 1];
        let i = choose|i: int| 0 <= i < es.len() && #[trigger] diagram_name(es[i]) == last;
        lemma_entity_at(dir, es, i);
        let x = entities_at(dir, entity_files(es), front)->Ok_0;
        let y = entities_at(dir, entity_files(es), names)->Ok_0;
        assert(y == x.push(es[i]));
        assert forall|k: int| 0 <= k < y.len() implies es.contains(#[trigger] y[k])
            && diagram_name(y[k]) == names[k] by {
            if k < x.len() {
                assert(y[k] == x[k]);
                assert(names[k] == front[k]);
            } else {
                assert(y[k] == es[i]);
            }
        }
    }
}

// ── Order ────────────────────────────────────────────────────────────────────

proof fn lemma_inserted(s: Seq<EntityArtifactView>, e: EntityArtifactView)
    requires
        forall|i: int, j: int|
            0 <= i < j < s.len() ==> text_lt((#[trigger] s[i]).id, (#[trigger] s[j]).id),
        forall|i: int| 0 <= i < s.len() ==> (#[trigger] s[i]).id != e.id,
    ensures
        inserted(s, e).len() == s.len() + 1,
        forall|i: int, j: int|
            0 <= i < j < s.len() + 1 ==> text_lt(
                (#[trigger] inserted(s, e)[i]).id,
                (#[trigger] inserted(s, e)[j]).id,
            ),
        forall|v: EntityArtifactView| #[trigger]
            inserted(s, e).contains(v) <==> s.contains(v) || v == e,
    decreases s.len(),
{
    let r = inserted(s, e);
    if s.len() > 0 && text_lt(e.id, s.last().id) {
        let front = s.drop_last();
        let last = s.last();
        assert forall|i: int, j: int| 0 <= i < j < front.len() implies text_lt(
            (#[trigger] front[i]).id,
            (#[trigger] front[j]).id,
        ) by {
            assert(front[i] == s[i]);
            assert(front[j] == s[j]);
        }
        assert forall|i: int| 0 <= i < front.len() implies (#[trigger] front[i]).id != e.id by {
            assert(front[i] == s[i]);
        }
        lemma_inserted(front, e);
        let q = inserted(front, e);
        assert(r == q.push(last));
        assert forall|i: int, j: int| 0 <= i < j < s.len() + 1 implies text_lt(
            (#[trigger] r[i]).id,
            (#[trigger] r[j]).id,
        ) by {
            if j < q.len() {
                assert(r[i] == q[i] && r[j] == q[j]);
            } else {
                assert(r[i] == q[i]);
                assert(q.contains(q[i]));
                if q[i] != e {
                    let k = choose|k: int| 0 <= k < front.len() && front[k] == q[i];
                    assert(s[k] == q[i]);
                    assert(text_lt(s[k].id, s[s.len() - 1].id));
                }
            }
        }
        assert forall|v: EntityArtifactView| #[trigger]
            r.contains(v) <==> s.contains(v) || v == e by {
            assert(q.contains(v) <==> front.contains(v) || v == e);
            if r.contains(v) {
                let k = choose|k: int| 0 <= k < r.len() && r[k] == v;
                if k < q.len() {
                    assert(q[k] == v);
                    if front.contains(v) {
                        let m = choose|m: int| 0 <= m < front.len() && front[m] == v;
                        assert(s[m] == v);
                    }
                } else {
                    assert(s[s.len() - 1] == v);
                }
            }
            if s.contains(v) {
                let m = choose|m: int| 0 <= m < s.len() && s[m] == v;
                if m < front.len() {
                    assert(front[m] == v);
                    let k = choose|k: int| 0 <= k < q.len() && q[k] == v;
                    assert(r[k] == v);
                } else {
                    assert(r[q.len() as int] == v);
                }
            }
            if v == e {
                assert(q.contains(v));
                let k = choose|k: int| 0 <= k < q.len() && q[k] == v;
                assert(r[k] == v);
            }
        }
    } else {
        assert(r == s.push(e));
        assert forall|i: int, j: int| 0 <= i < j < s.len() + 1 implies text_lt(
            (#[trigger] r[i]).id,
            (#[trigger] r[j]).id,
        ) by {
            if j == s.len() {
                let last = s[s.len() - 1];
                lemma_text_lt_total(e.id, last.id);
                if i < s.len() - 1 {
                    lemma_text_lt_transitive(s[i].id, last.id, e.id);
                }
            }
        }
        assert forall|v: EntityArtifactView| #[trigger]
            r.contains(v) <==> s.contains(v) || v == e by {
            if s.contains(v) {
                let m = choose|m: int| 0 <= m < s.len() && s[m] == v;
                assert(r[m] == v);
            }
            if v == e {
                assert(r[s.len() as int] == v);
            }
        }
    }
}

proof fn lemma_by_id(x: Seq<EntityArtifactView>)
    requires
        forall|i: int, j: int|
            0 <= i < x.len() && 0 <= j < x.len() && i != j ==> (#[trigger] x[i]).id != (
            #[trigger] x[j]).id,
    ensures
        by_id(x).len() == x.len(),
        forall|i: int, j: int|
            0 <= i < j < x.len() ==> text_lt(
                (#[trigger] by_id(x)[i]).id,
                (#[trigger] by_id(x)[j]).id,
            ),
        forall|v: EntityArtifactView| #[trigger] by_id(x).contains(v) <==> x.contains(v),
    decreases x.len(),
{
    if x.len() > 0 {
        let front = x.drop_last();
        let e = x.last();
        let s = by_id(front);
        assert forall|i: int, j: int|
            0 <= i < front.len() && 0 <= j < front.len() && i != j implies (
        #[trigger] front[i]).id != (#[trigger] front[j]).id by {
            assert(front[i] == x[i] && front[j] == x[j]);
        }
        lemma_by_id(front);
        assert forall|i: int| 0 <= i < s.len() implies (#[trigger] s[i]).id != e.id by {
            assert(s.contains(s[i]));
            let k = choose|k: int| 0 <= k < front.len() && front[k] == s[i];
            assert(x[k] == s[i]);
            assert(x[x.len() - 1] == e);
        }
        lemma_inserted(s, e);
        assert forall|v: EntityArtifactView| #[trigger] by_id(x).contains(v) <==> x.contains(v) by {
            assert(s.contains(v) <==> front.contains(v));
            if x.contains(v) {
                let k = choose|k: int| 0 <= k < x.len() && x[k] == v;
                if k < front.len() {
                    assert(front[k] == v);
                }
            }
            if front.contains(v) {
                let k = choose|k: int| 0 <= k < front.len() && front[k] == v;
                assert(x[k] == v);
            }
            if v == e {
                assert(x[x.len() - 1] == v);
            }
        }
    }
}

/// Any listing of entities is sorted into the one that ascends.
proof fn lemma_sorted_back(es: Seq<EntityArtifactView>, x: Seq<EntityArtifactView>)
    requires
        ascending_ids(es),
        forall|v: EntityArtifactView| #[trigger] x.contains(v) <==> es.contains(v),
        forall|i: int, j: int|
            0 <= i < x.len() && 0 <= j < x.len() && i != j ==> (#[trigger] x[i]).id != (
            #[trigger] x[j]).id,
    ensures
        by_id(x) == es,
{
    lemma_by_id(x);
    let y = by_id(x);
    let yi = y.map_values(|e: EntityArtifactView| e.id);
    let ei = es.map_values(|e: EntityArtifactView| e.id);
    assert forall|v: Seq<char>| yi.contains(v) <==> #[trigger] ei.contains(v) by {
        if yi.contains(v) {
            let k = choose|k: int| 0 <= k < yi.len() && yi[k] == v;
            assert(y.contains(y[k]));
            assert(x.contains(y[k]));
            assert(es.contains(y[k]));
            let m = choose|m: int| 0 <= m < es.len() && es[m] == y[k];
            assert(ei[m] == v);
        }
        if ei.contains(v) {
            let m = choose|m: int| 0 <= m < ei.len() && ei[m] == v;
            assert(es.contains(es[m]));
            assert(x.contains(es[m]));
            assert(y.contains(es[m]));
            let k = choose|k: int| 0 <= k < y.len() && y[k] == es[m];
            assert(yi[k] == v);
        }
    }
    assert(ascend::<String>(yi));
    assert(ascend::<String>(ei));
    law_sorted_keys_unique::<String>(yi, ei);
    assert(lists_keys::<String>(ei, ei));
    law_sorted_keys_unique::<String>(ei, ei);
    assert(y.len() == es.len()) by {
        assert(yi.len() == ei.len());
    }
    assert forall|i: int| 0 <= i < es.len() implies y[i] == es[i] by {
        assert(yi[i] == ei[i]);
        assert(y.contains(y[i]));
        assert(x.contains(y[i]));
        assert(es.contains(y[i]));
        let m = choose|m: int| 0 <= m < es.len() && es[m] == y[i];
        lemma_text_lt_irreflexive(es[i].id);
        if m < i {
            assert(text_lt(es[m].id, es[i].id));
        } else if m > i {
            assert(text_lt(es[i].id, es[m].id));
        }
    }
    assert(y =~= es);
}

/// A bundle that was written is loaded as it was: the views, the index, and
/// the entities, sorted by their ids. Entities that stood in that order keep it.
pub proof fn law_round_trip(dir: Seq<char>, d: ArtifactDirView)
    requires
        json_fault(d.index_json) is None,
        well_named(d.entities),
    ensures
        loaded(dir, files_of(d)) == Ok::<ArtifactDirView, LoadFault>(
            ArtifactDirView { entities: by_id(d.entities), ..d },
        ),
        by_id(d.entities).len() == d.entities.len(),
        forall|v: EntityArtifactView| #[trigger]
            by_id(d.entities).contains(v) <==> d.entities.contains(v),
        ascending_ids(by_id(d.entities)),
        ascending_ids(d.entities) ==> by_id(d.entities) == d.entities,
{
    let es = d.entities;
    let fs = entity_files(es);
    lemma_diagram_names(es);
    let all = diagram_names(fs);
    let names = sorted_keys::<String>(all);
    law_sorted_keys::<String>(all);
    assert forall|k: int| 0 <= k < names.len() implies exists|i: int|
        0 <= i < es.len() && #[trigger] diagram_name(es[i]) == #[trigger] names[k] by {
        assert(names.contains(names[k]));
        assert(all.contains(names[k]));
        let i = choose|i: int| 0 <= i < all.len() && all[i] == names[k];
        assert(diagram_name(es[i]) == names[k]);
    }
    let sub = crate::paths::below(dir, "entities"@);
    lemma_entities_at(sub, es, names);
    let x = entities_at(sub, fs, names)->Ok_0;
    assert forall|i: int, j: int| 0 <= i < x.len() && 0 <= j < x.len() && i != j implies (
    #[trigger] x[i]).id != (#[trigger] x[j]).id by {
        assert(diagram_name(x[i]) == names[i]);
        assert(diagram_name(x[j]) == names[j]);
        lemma_text_lt_irreflexive(names[i]);
        if i < j {
            assert(text_lt(names[i], names[j]));
        } else {
            assert(text_lt(names[j], names[i]));
        }
    }
    assert forall|v: EntityArtifactView| #[trigger] x.contains(v) <==> es.contains(v) by {
        if es.contains(v) {
            let i = choose|i: int| 0 <= i < es.len() && es[i] == v;
            assert(all[i] == diagram_name(v));
            assert(all.contains(diagram_name(v)));
            assert(names.contains(diagram_name(v)));
            let k = choose|k: int| 0 <= k < names.len() && names[k] == diagram_name(v);
            assert(es.contains(x[k]));
            let j = choose|j: int| 0 <= j < es.len() && es[j] == x[k];
            lemma_names_apart(sanitized(es[i].id), sanitized(es[j].id));
            assert(i == j);
        }
        if x.contains(v) {
            let k = choose|k: int| 0 <= k < x.len() && x[k] == v;
            assert(es.contains(x[k]));
        }
    }
    assert forall|i: int, j: int| 0 <= i < es.len() && 0 <= j < es.len() && i != j implies (
    #[trigger] es[i]).id != (#[trigger] es[j]).id by {
        assert(sanitized(es[i].id) != sanitized(es[j].id));
    }
    lemma_by_id(es);
    assert forall|v: EntityArtifactView| #[trigger] x.contains(v) <==> by_id(es).contains(v) by {
        assert(by_id(es).contains(v) <==> es.contains(v));
    }
    lemma_sorted_back(by_id(es), x);
    if ascending_ids(es) {
        lemma_sorted_back(es, es);
    }
}

/// Whether entities stand in ascending order of their ids.
pub open spec fn in_order(es: Seq<EntityArtifactView>) -> bool {
    forall|i: int, j: int|
        0 <= i < j < es.len() ==> !text_lt((#[trigger] es[j]).id, (#[trigger] es[i]).id)
}

proof fn lemma_inserted_in_order(s: Seq<EntityArtifactView>, e: EntityArtifactView)
    requires
        in_order(s),
    ensures
        in_order(inserted(s, e)),
        forall|k: int|
            0 <= k < inserted(s, e).len() ==> (#[trigger] inserted(s, e)[k]) == e || s.contains(
                inserted(s, e)[k],
            ),
    decreases s.len(),
{
    let r = inserted(s, e);
    if s.len() > 0 && text_lt(e.id, s.last().id) {
        let front = s.drop_last();
        let last = s.last();
        let q = inserted(front, e);
        assert forall|i: int, j: int| 0 <= i < j < front.len() implies !text_lt(
            (#[trigger] front[j]).id,
            (#[trigger] front[i]).id,
        ) by {
            assert(front[i] == s[i] && front[j] == s[j]);
        }
        lemma_inserted_in_order(front, e);
        assert forall|k: int| 0 <= k < q.len() implies !text_lt(last.id, (#[trigger] q[k]).id)
            && (q[k] == e || s.contains(q[k])) by {
            if q[k] == e {
                if text_lt(last.id, e.id) {
                    lemma_text_lt_transitive(last.id, e.id, last.id);
                    lemma_text_lt_irreflexive(last.id);
                }
            } else {
                let m = choose|m: int| 0 <= m < front.len() && front[m] == q[k];
                assert(s[m] == q[k]);
            }
        }
        assert forall|i: int, j: int| 0 <= i < j < r.len() implies !text_lt(
            (#[trigger] r[j]).id,
            (#[trigger] r[i]).id,
        ) by {
            assert(r[i] == q[i]);
            if j < q.len() {
                assert(r[j] == q[j]);
            }
        }
        assert forall|k: int| 0 <= k < r.len() implies (#[trigger] r[k]) == e || s.contains(
            r[k],
        ) by {
            if k < q.len() {
                assert(r[k] == q[k]);
            } else {
                assert(s[s.len() - 1] == last);
            }
        }
    } else {
        assert forall|i: int, j: int| 0 <= i < j < r.len() implies !text_lt(
            (#[trigger] r[j]).id,
            (#[trigger] r[i]).id,
        ) by {
            assert(r[i] == s[i]);
            if j < s.len() {
                assert(r[j] == s[j]);
            } else if text_lt(e.id, s[i].id) {
                let last = s.last();
                lemma_text_lt_total(s[i].id, last.id);
                if text_lt(s[i].id, last.id) {
                    lemma_text_lt_transitive(e.id, s[i].id, last.id);
                } else if i < s.len() - 1 {
                    assert(!text_lt(s[s.len() - 1].id, s[i].id));
                }
            }
        }
        assert forall|k: int| 0 <= k < r.len() implies (#[trigger] r[k]) == e || s.contains(
            r[k],
        ) by {
            if k < s.len() {
                assert(r[k] == s[k]);
            }
        }
    }
}

proof fn lemma_by_id_in_order(x: Seq<EntityArtifactView>)
    ensures
        in_order(by_id(x)),
    decreases x.len(),
{
    if x.len() > 0 {
        lemma_by_id_in_order(x.drop_last());
        lemma_inserted_in_order(by_id(x.drop_last()), x.last());
    }
}

/// Whatever is found in a directory, the entities of a bundle that is loaded
/// stand in ascending order of their ids.
pub proof fn law_loaded_in_order(dir: Seq<char>, f: BundleFilesView)
    ensures
        loaded(dir, f) matches Ok(d) ==> in_order(d.entities),
{
    if let ListingView::Files(fs) = f.entities {
        if let Ok(es) = entities_at(
            crate::paths::below(dir, "entities"@),
            fs,
            sorted_keys::<String>(diagram_names(fs)),
        ) {
            lemma_by_id_in_order(es);
        }
    }
}

} // verus!
