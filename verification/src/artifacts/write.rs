//! Writing artifacts over those of an earlier run: what is written, what is
//! left alone, and what is removed.

use crate::artifacts::emit::{drawn_ids, rows_of, stem, ArtifactSet, ArtifactView};
use crate::artifacts::names::filename_id;
use crate::chars::{before_suffix, ends, strip_suffix};
use crate::keys::lemma_push_contains;
use crate::text::{contains_string, str_eq};
use vstd::prelude::*;
use vstd::string::*;

verus! {

// ── Files that stay as they are ──────────────────────────────────────────────

/// Whether two byte strings are equal.
fn same_bytes(a: &[u8], b: &[u8]) -> (r: bool)
    ensures
        r == (a@ == b@),
{
    if a.len() != b.len() {
        return false;
    }
    let mut i: usize = 0;
    while i < a.len()
        invariant
            i <= a.len(),
            a.len() == b.len(),
            forall|k: int| 0 <= k < i ==> a@[k] == b@[k],
        decreases a.len() - i,
    {
        if a[i] != b[i] {
            return false;
        }
        i += 1;
    }
    assert(a@ =~= b@);
    true
}

/// Whether a file is to be written: where it does not hold the content already.
/// `existing` is what could be read of it.
pub fn needs_write(existing: Option<&[u8]>, contents: &[u8]) -> (r: bool)
    ensures
        r == !(existing matches Some(b) && b@ == contents@),
{
    match existing {
        Some(b) => !same_bytes(b, contents),
        None => true,
    }
}

// ── What is written ──────────────────────────────────────────────────────────

/// The files of several entities: path below the output directory, and
/// content. `metas` are their metadata as JSON text.
pub open spec fn entity_writes(es: Seq<ArtifactView>, metas: Seq<Seq<char>>) -> Seq<
    (Seq<char>, Seq<char>),
>
    decreases es.len(),
{
    if es.len() == 0 {
        Seq::empty()
    } else {
        let e = es.last();
        entity_writes(es.drop_last(), metas).push(
            ("entities/"@ + stem(e.id) + ".mmd"@, e.mmd),
        ).push(("entities/"@ + stem(e.id) + ".meta.json"@, metas[es.len() - 1]))
    }
}

/// The file of a sequence diagram.
pub open spec fn sequence_write(s: (Seq<char>, Seq<char>)) -> (Seq<char>, Seq<char>) {
    ("sequences/"@ + stem(s.0) + ".mmd"@, s.1)
}

/// All files but the index.
pub open spec fn all_writes(
    es: Seq<ArtifactView>,
    ss: Seq<(Seq<char>, Seq<char>)>,
    overview: Seq<char>,
    metas: Seq<Seq<char>>,
) -> Seq<(Seq<char>, Seq<char>)> {
    (entity_writes(es, metas) + ss.map_values(|s: (Seq<char>, Seq<char>)| sequence_write(s))).push(
        ("overview.mmd"@, overview),
    )
}

/// The files that a set of artifacts is written to, apart from the index: path
/// below the output directory, and content. `metas` are the metadata of the
/// entities as JSON text, in their order.
pub fn planned_writes(set: &ArtifactSet, metas: &Vec<String>) -> (r: Vec<(String, String)>)
    requires
        metas.len() == set.entities.len(),
    ensures
        r.deep_view() == all_writes(
            set.entities.deep_view(),
            set.sequences.deep_view(),
            set.overview_mmd@,
            metas.deep_view(),
        ),
{
    let ghost es = set.entities.deep_view();
    let ghost ss = set.sequences.deep_view();
    let ghost ms = metas.deep_view();
    let ghost want = ss.map_values(|s: (Seq<char>, Seq<char>)| sequence_write(s));
    let mut out: Vec<(String, String)> = Vec::new();
    let mut i: usize = 0;
    assert(es.take(0) =~= Seq::<ArtifactView>::empty());
    assert(out.deep_view() =~= Seq::<(Seq<char>, Seq<char>)>::empty());
    while i < set.entities.len()
        invariant
            i <= set.entities.len(),
            metas.len() == set.entities.len(),
            es == set.entities.deep_view(),
            ms == metas.deep_view(),
            out.deep_view() == entity_writes(es.take(i as int), ms),
        decreases set.entities.len() - i,
    {
        let ghost had = out.deep_view();
        let e = &set.entities[i];
        assert(es[i as int] == e.deep_view());
        assert(es.take(i + 1).drop_last() =~= es.take(i as int));
        assert(es.take(i + 1).last() == es[i as int]);
        let base = filename_id(e.id.as_str());
        let front = "entities/".to_owned().concat(base.as_str());
        let drawn = (front.as_str().to_owned().concat(".mmd"), e.mmd.clone());
        let described = (front.as_str().to_owned().concat(".meta.json"), metas[i].clone());
        let ghost d = drawn.deep_view();
        let ghost m = described.deep_view();
        out.push(drawn);
        assert(out.deep_view() =~= had.push(d));
        out.push(described);
        assert(out.deep_view() =~= had.push(d).push(m));
        assert(ms[i as int] == metas[i as int]@);
        i += 1;
    }
    assert(es.take(set.entities.len() as int) =~= es);
    let ghost top = out.deep_view();
    let mut k: usize = 0;
    assert(out.deep_view() =~= top + want.take(0));
    while k < set.sequences.len()
        invariant
            k <= set.sequences.len(),
            ss == set.sequences.deep_view(),
            want == ss.map_values(|s: (Seq<char>, Seq<char>)| sequence_write(s)),
            out.deep_view() == top + want.take(k as int),
        decreases set.sequences.len() - k,
    {
        let ghost had = out.deep_view();
        let s = &set.sequences[k];
        assert(ss[k as int] == s.deep_view());
        let base = filename_id(s.entity_id.as_str());
        let path = "sequences/".to_owned().concat(base.as_str()).concat(".mmd");
        out.push((path, s.mmd.clone()));
        assert(out.deep_view() =~= had.push(want[k as int]));
        k += 1;
        assert(out.deep_view() =~= top + want.take(k as int));
    }
    assert(want.take(set.sequences.len() as int) =~= want);
    let ghost had = out.deep_view();
    out.push(("overview.mmd".to_owned(), set.overview_mmd.clone()));
    assert(out.deep_view() =~= had.push(("overview.mmd"@, set.overview_mmd@)));
    out
}

/// The file name stems of the entities of a set.
pub fn entity_stems(set: &ArtifactSet) -> (r: Vec<String>)
    ensures
        r.deep_view() == set.entities.deep_view().map_values(|e: ArtifactView| stem(e.id)),
{
    let ghost es = set.entities.deep_view();
    let ghost want = es.map_values(|e: ArtifactView| stem(e.id));
    let mut out: Vec<String> = Vec::new();
    let mut i: usize = 0;
    assert(out.deep_view() =~= want.take(0));
    while i < set.entities.len()
        invariant
            i <= set.entities.len(),
            es == set.entities.deep_view(),
            want == es.map_values(|e: ArtifactView| stem(e.id)),
            out.deep_view() == want.take(i as int),
        decreases set.entities.len() - i,
    {
        let ghost had = out.deep_view();
        assert(es[i as int] == set.entities[i as int].deep_view());
        out.push(filename_id(set.entities[i].id.as_str()));
        assert(out.deep_view() =~= had.push(want[i as int]));
        i += 1;
        assert(out.deep_view() =~= want.take(i as int));
    }
    assert(want.take(set.entities.len() as int) =~= want);
    out
}

/// The file name stems of the sequence diagrams of a set.
pub fn sequence_stems(set: &ArtifactSet) -> (r: Vec<String>)
    ensures
        r.deep_view() == set.sequences.deep_view().map_values(
            |s: (Seq<char>, Seq<char>)| stem(s.0),
        ),
{
    let ghost ss = set.sequences.deep_view();
    let ghost want = ss.map_values(|s: (Seq<char>, Seq<char>)| stem(s.0));
    let mut out: Vec<String> = Vec::new();
    let mut i: usize = 0;
    assert(out.deep_view() =~= want.take(0));
    while i < set.sequences.len()
        invariant
            i <= set.sequences.len(),
            ss == set.sequences.deep_view(),
            want == ss.map_values(|s: (Seq<char>, Seq<char>)| stem(s.0)),
            out.deep_view() == want.take(i as int),
        decreases set.sequences.len() - i,
    {
        let ghost had = out.deep_view();
        assert(ss[i as int] == set.sequences[i as int].deep_view());
        out.push(filename_id(set.sequences[i].entity_id.as_str()));
        assert(out.deep_view() =~= had.push(want[i as int]));
        i += 1;
        assert(out.deep_view() =~= want.take(i as int));
    }
    assert(want.take(set.sequences.len() as int) =~= want);
    out
}

/// Each row of the index names files that are written: the diagram of its
/// entity and the metadata.
pub proof fn law_indexed_files_written(
    es: Seq<ArtifactView>,
    ss: Seq<(Seq<char>, Seq<char>)>,
    overview: Seq<char>,
    metas: Seq<Seq<char>>,
    with: Seq<Seq<char>>,
    i: int,
)
    requires
        0 <= i < es.len(),
        metas.len() == es.len(),
    ensures
        all_writes(es, ss, overview, metas).contains((rows_of(es, with)[i].mmd_path, es[i].mmd)),
        all_writes(es, ss, overview, metas).contains((rows_of(es, with)[i].meta_path, metas[i])),
{
    lemma_entity_written(es, metas, i);
    let ws = entity_writes(es, metas);
    let all = all_writes(es, ss, overview, metas);
    assert(all[2 * i] == ws[2 * i]);
    assert(all[2 * i + 1] == ws[2 * i + 1]);
}

proof fn lemma_entity_written(es: Seq<ArtifactView>, metas: Seq<Seq<char>>, i: int)
    requires
        0 <= i < es.len(),
    ensures
        entity_writes(es, metas).len() == 2 * es.len(),
        entity_writes(es, metas)[2 * i] == ("entities/"@ + stem(es[i].id) + ".mmd"@, es[i].mmd),
        entity_writes(es, metas)[2 * i + 1] == (
            "entities/"@ + stem(es[i].id) + ".meta.json"@,
            metas[i],
        ),
    decreases es.len(),
{
    reveal_with_fuel(entity_writes, 2);
    let front = es.drop_last();
    if front.len() > 0 {
        lemma_entity_written(front, metas, if i < front.len() { i } else { 0 });
    }
    assert(i < front.len() ==> front[i] == es[i]);
}

// ── The index ────────────────────────────────────────────────────────────────

/// The shape of a JSON document: the keys of an object, or another document.
#[derive(Debug)]
pub enum JsonShape {
    Object(Vec<String>),
    Other,
}

/// What a [`JsonShape`] holds.
#[verifier::ext_equal]
pub enum JsonShapeView {
    Object(Seq<Seq<char>>),
    Other,
}

impl DeepView for JsonShape {
    type V = JsonShapeView;

    open spec fn deep_view(&self) -> JsonShapeView {
        match self {
            JsonShape::Object(keys) => JsonShapeView::Object(keys.deep_view()),
            JsonShape::Other => JsonShapeView::Other,
        }
    }
}

/// The shape of the JSON document that a file holds; none where it holds no
/// such document.
pub uninterp spec fn json_shape(bytes: Seq<u8>) -> Option<JsonShapeView>;

/// Whether two JSON documents have equal members under a key.
pub uninterp spec fn json_same_member(a: Seq<u8>, b: Seq<u8>, key: Seq<char>) -> bool;

/// Whether two JSON documents are equal.
pub uninterp spec fn json_same(a: Seq<u8>, b: Seq<u8>) -> bool;

/// `serde_json::from_slice` into a `serde_json::Value`, and `Map::keys` where
/// that is an object: the shape is a function of the bytes.
#[verifier::external_body]
fn shape_of(bytes: &[u8]) -> (r: Option<JsonShape>)
    ensures
        r.deep_view() == json_shape(bytes@),
{
    match serde_json::from_slice::<serde_json::Value>(bytes).ok()? {
        serde_json::Value::Object(members) => Some(
            JsonShape::Object(members.keys().cloned().collect()),
        ),
        _ => Some(JsonShape::Other),
    }
}

/// `serde_json::Value::get` on two documents read by `serde_json::from_slice`,
/// and `==` between what it gives: whether both have equal values under the
/// key, or neither has one, is a function of the bytes and of the key. A
/// document has the same members as itself.
#[verifier::external_body]
fn same_member(a: &[u8], b: &[u8], key: &str) -> (r: bool)
    ensures
        r == json_same_member(a@, b@, key@),
        a@ == b@ ==> r,
{
    let a = serde_json::from_slice::<serde_json::Value>(a).ok();
    let b = serde_json::from_slice::<serde_json::Value>(b).ok();
    a.as_ref().and_then(|v| v.get(key)) == b.as_ref().and_then(|v| v.get(key))
}

/// `==` between two values of `serde_json::Value` that `serde_json::from_slice`
/// reads: whether the documents are equal is a function of the bytes. A
/// document is equal to itself.
#[verifier::external_body]
fn same_document(a: &[u8], b: &[u8]) -> (r: bool)
    ensures
        r == json_same(a@, b@),
        a@ == b@ ==> r,
{
    serde_json::from_slice::<serde_json::Value>(a).ok()
        == serde_json::from_slice::<serde_json::Value>(b).ok()
}

/// Whether all members are equal, apart from the time; each is given by its key
/// and by whether it is equal.
pub open spec fn agree(ms: Seq<(Seq<char>, bool)>) -> bool {
    forall|i: int| 0 <= i < ms.len() && (#[trigger] ms[i]).0 != "generated_at"@ ==> ms[i].1
}

/// The members of two documents under some keys, compared.
pub open spec fn compared(a: Seq<u8>, b: Seq<u8>, keys: Seq<Seq<char>>) -> Seq<(Seq<char>, bool)> {
    keys.map_values(|key: Seq<char>| (key, json_same_member(a, b, key)))
}

/// Whether two documents are equal, apart from the time at which they were
/// made.
pub open spec fn same_data(a: Seq<u8>, b: Seq<u8>) -> bool {
    match (json_shape(a), json_shape(b)) {
        (Some(JsonShapeView::Object(x)), Some(JsonShapeView::Object(y))) => agree(compared(a, b, x))
            && agree(compared(a, b, y)),
        (Some(JsonShapeView::Other), Some(JsonShapeView::Other)) => json_same(a, b),
        _ => false,
    }
}

/// Whether all members are equal, apart from the time; each is given by its key
/// and by whether it is equal.
pub fn members_agree(ms: &Vec<(String, bool)>) -> (r: bool)
    ensures
        r == agree(ms.deep_view()),
{
    let ghost v = ms.deep_view();
    let mut i: usize = 0;
    while i < ms.len()
        invariant
            i <= ms.len(),
            v == ms.deep_view(),
            forall|k: int| 0 <= k < i && (#[trigger] v[k]).0 != "generated_at"@ ==> v[k].1,
        decreases ms.len() - i,
    {
        assert(v[i as int] == ms[i as int].deep_view());
        if !ms[i].1 && !str_eq(ms[i].0.as_str(), "generated_at") {
            return false;
        }
        i += 1;
    }
    true
}

/// The members of two documents under some keys, compared.
fn compare_members(a: &[u8], b: &[u8], keys: &Vec<String>) -> (r: Vec<(String, bool)>)
    ensures
        r.deep_view() == compared(a@, b@, keys.deep_view()),
        a@ == b@ ==> agree(r.deep_view()),
{
    let ghost want = compared(a@, b@, keys.deep_view());
    let mut out: Vec<(String, bool)> = Vec::new();
    let mut i: usize = 0;
    assert(out.deep_view() =~= want.take(0));
    while i < keys.len()
        invariant
            i <= keys.len(),
            want == compared(a@, b@, keys.deep_view()),
            out.deep_view() == want.take(i as int),
            a@ == b@ ==> forall|k: int| 0 <= k < i ==> (#[trigger] want[k]).1,
        decreases keys.len() - i,
    {
        let ghost had = out.deep_view();
        let same = same_member(a, b, keys[i].as_str());
        assert(keys.deep_view()[i as int] == keys[i as int]@);
        assert(want[i as int] == (keys[i as int]@, same));
        out.push((keys[i].clone(), same));
        assert(out.deep_view() =~= had.push(want[i as int]));
        i += 1;
        assert(out.deep_view() =~= want.take(i as int));
    }
    assert(want.take(keys.len() as int) =~= want);
    out
}

/// Whether two documents are equal, apart from the time at which they were
/// made; a document is equal to itself.
pub fn structurally_equal_modulo_generated_at(a: &[u8], b: &[u8]) -> (r: bool)
    ensures
        r == same_data(a@, b@),
        a@ == b@ && json_shape(a@) is Some ==> r,
{
    match (shape_of(a), shape_of(b)) {
        (Some(JsonShape::Object(x)), Some(JsonShape::Object(y))) => {
            let ours = compare_members(a, b, &x);
            let theirs = compare_members(a, b, &y);
            members_agree(&ours) && members_agree(&theirs)
        },
        (Some(JsonShape::Other), Some(JsonShape::Other)) => same_document(a, b),
        _ => false,
    }
}

/// Whether a new index says what the file says already, apart from the time at
/// which they were made.
pub open spec fn is_current(existing: Option<Seq<u8>>, contents: Seq<u8>) -> bool {
    match existing {
        None => false,
        Some(bytes) => same_data(bytes, contents),
    }
}

/// Whether an index has to be written: not where the file holds the same data
/// already, so that the time in it stays that of the last change. An index that
/// was just written is not written again.
pub fn index_needs_write(existing: Option<&[u8]>, contents: &[u8]) -> (r: bool)
    ensures
        r == !is_current(
            match existing {
                Some(bytes) => Some(bytes@),
                None => None,
            },
            contents@,
        ),
        existing is Some && existing->0@ == contents@ && json_shape(contents@) is Some ==> !r,
{
    match existing {
        None => true,
        Some(bytes) => !structurally_equal_modulo_generated_at(bytes, contents),
    }
}

/// An index that differs from another one in its time only, or that alone of
/// the two has a time, is the same.
pub proof fn law_time_ignored(a: Seq<u8>, b: Seq<u8>, x: Seq<Seq<char>>, y: Seq<Seq<char>>)
    requires
        json_shape(a) == Some(JsonShapeView::Object(x)),
        json_shape(b) == Some(JsonShapeView::Object(y)),
        forall|key: Seq<char>|
            key != "generated_at"@ && (x.contains(key) || y.contains(key))
                ==> #[trigger] json_same_member(a, b, key),
    ensures
        is_current(Some(a), b),
{
    assert forall|i: int|
        0 <= i < x.len() && (#[trigger] compared(a, b, x)[i]).0 != "generated_at"@ implies compared(
        a,
        b,
        x,
    )[i].1 by {
        assert(x.contains(x[i]));
        assert(json_same_member(a, b, x[i]));
    }
    assert forall|i: int|
        0 <= i < y.len() && (#[trigger] compared(a, b, y)[i]).0 != "generated_at"@ implies compared(
        a,
        b,
        y,
    )[i].1 by {
        assert(y.contains(y[i]));
        assert(json_same_member(a, b, y[i]));
    }
}

/// A member other than the time that differs makes the index a new one.
pub proof fn law_change_seen(
    a: Seq<u8>,
    b: Seq<u8>,
    x: Seq<Seq<char>>,
    y: Seq<Seq<char>>,
    key: Seq<char>,
)
    requires
        json_shape(a) == Some(JsonShapeView::Object(x)),
        json_shape(b) == Some(JsonShapeView::Object(y)),
        key != "generated_at"@,
        x.contains(key) || y.contains(key),
        !json_same_member(a, b, key),
    ensures
        !is_current(Some(a), b),
{
    if x.contains(key) {
        let i = choose|i: int| 0 <= i < x.len() && x[i] == key;
        assert(compared(a, b, x)[i] == (key, false));
    } else {
        let i = choose|i: int| 0 <= i < y.len() && y[i] == key;
        assert(compared(a, b, y)[i] == (key, false));
    }
}

// ── Files that go ────────────────────────────────────────────────────────────

/// What a file name is without the first suffix of a list that it ends in.
pub open spec fn base_of(name: Seq<char>, suffixes: Seq<Seq<char>>) -> Option<Seq<char>>
    decreases suffixes.len(),
{
    if suffixes.len() == 0 {
        None
    } else {
        match before_suffix(name, suffixes[0]) {
            Some(b) => Some(b),
            None => base_of(name, suffixes.drop_first()),
        }
    }
}

/// Whether a file is left over: it ends in one of the suffixes, and its stem
/// is none of those that stay.
pub open spec fn is_orphan(
    name: Seq<char>,
    keep: Seq<Seq<char>>,
    suffixes: Seq<Seq<char>>,
) -> bool {
    base_of(name, suffixes) matches Some(b) && !keep.contains(b)
}

/// The files that are left over, in order.
pub open spec fn orphans(
    names: Seq<Seq<char>>,
    keep: Seq<Seq<char>>,
    suffixes: Seq<Seq<char>>,
) -> Seq<Seq<char>>
    decreases names.len(),
{
    if names.len() == 0 {
        Seq::empty()
    } else {
        let front = orphans(names.drop_last(), keep, suffixes);
        if is_orphan(names.last(), keep, suffixes) {
            front.push(names.last())
        } else {
            front
        }
    }
}

/// Whether a file is left over.
fn is_left_over(name: &str, keep: &Vec<String>, suffixes: &Vec<String>) -> (r: bool)
    ensures
        r == is_orphan(name@, keep.deep_view(), suffixes.deep_view()),
{
    let ghost ss = suffixes.deep_view();
    let mut i: usize = 0;
    assert(ss.skip(0) =~= ss);
    while i < suffixes.len()
        invariant
            i <= suffixes.len(),
            ss == suffixes.deep_view(),
            base_of(name@, ss) == base_of(name@, ss.skip(i as int)),
        decreases suffixes.len() - i,
    {
        assert(ss.skip(i as int)[0] == suffixes[i as int]@);
        assert(ss.skip(i as int).drop_first() =~= ss.skip(i + 1));
        if let Some(b) = strip_suffix(name, suffixes[i].as_str()) {
            return !contains_string(keep, b.as_str());
        }
        i += 1;
    }
    assert(ss.skip(suffixes.len() as int).len() == 0);
    false
}

/// The files of a directory that are left over from an earlier run: those that
/// end in one of the suffixes, and whose stem is none of `keep`.
pub fn prune_orphans(names: &Vec<String>, keep: &Vec<String>, suffixes: &Vec<String>) -> (r: Vec<
    String,
>)
    ensures
        r.deep_view() == orphans(names.deep_view(), keep.deep_view(), suffixes.deep_view()),
{
    let ghost v = names.deep_view();
    let mut out: Vec<String> = Vec::new();
    let mut i: usize = 0;
    assert(v.take(0) =~= Seq::<Seq<char>>::empty());
    assert(out.deep_view() =~= Seq::<Seq<char>>::empty());
    while i < names.len()
        invariant
            i <= names.len(),
            v == names.deep_view(),
            out.deep_view() == orphans(v.take(i as int), keep.deep_view(), suffixes.deep_view()),
        decreases names.len() - i,
    {
        let ghost had = out.deep_view();
        assert(v[i as int] == names[i as int]@);
        assert(v.take(i + 1).drop_last() =~= v.take(i as int));
        assert(v.take(i + 1).last() == v[i as int]);
        if is_left_over(names[i].as_str(), keep, suffixes) {
            out.push(names[i].clone());
            assert(out.deep_view() =~= had.push(v[i as int]));
        }
        i += 1;
    }
    assert(v.take(names.len() as int) =~= v);
    out
}

/// A file whose stem stays is not removed.
pub proof fn law_kept(
    names: Seq<Seq<char>>,
    keep: Seq<Seq<char>>,
    suffixes: Seq<Seq<char>>,
    name: Seq<char>,
)
    requires
        base_of(name, suffixes) matches Some(b) && keep.contains(b),
    ensures
        !orphans(names, keep, suffixes).contains(name),
    decreases names.len(),
{
    if names.len() > 0 {
        law_kept(names.drop_last(), keep, suffixes, name);
        let front = orphans(names.drop_last(), keep, suffixes);
        let all = orphans(names, keep, suffixes);
        if all.contains(name) {
            let i = choose|i: int| 0 <= i < all.len() && all[i] == name;
            if i < front.len() {
                assert(front[i] == name);
                assert(front.contains(name));
            }
        }
    }
}

/// What is written for the entities of a set is not left over, whatever other
/// files there are.
pub proof fn law_written_kept(
    es: Seq<ArtifactView>,
    keep: Seq<Seq<char>>,
    names: Seq<Seq<char>>,
    i: int,
)
    requires
        0 <= i < es.len(),
        keep == es.map_values(|e: ArtifactView| stem(e.id)),
    ensures
        !orphans(names, keep, seq![".meta.json"@, ".mmd"@]).contains(stem(es[i].id) + ".mmd"@),
        !orphans(names, keep, seq![".meta.json"@, ".mmd"@]).contains(
            stem(es[i].id) + ".meta.json"@,
        ),
{
    reveal_strlit(".meta.json");
    reveal_strlit(".mmd");
    reveal_with_fuel(base_of, 3);
    let suffixes = seq![".meta.json"@, ".mmd"@];
    let base = stem(es[i].id);
    let diagram = base + ".mmd"@;
    let meta = base + ".meta.json"@;
    assert(keep[i] == base);
    assert(suffixes.drop_first()[0] == ".mmd"@);
    assert(meta.skip(base.len() as int) =~= ".meta.json"@);
    assert(meta.take(base.len() as int) =~= base);
    assert(diagram.skip(base.len() as int) =~= ".mmd"@);
    assert(diagram.take(base.len() as int) =~= base);
    assert(before_suffix(diagram, ".meta.json"@) is None) by {
        if before_suffix(diagram, ".meta.json"@) is Some {
            assert(diagram.skip(diagram.len() - 10)[9] == diagram.last());
        }
    }
    law_kept(names, keep, suffixes, diagram);
    law_kept(names, keep, suffixes, meta);
}

proof fn lemma_orphans(
    names: Seq<Seq<char>>,
    keep: Seq<Seq<char>>,
    suffixes: Seq<Seq<char>>,
    name: Seq<char>,
)
    ensures
        orphans(names, keep, suffixes).contains(name) <==> names.contains(name) && is_orphan(
            name,
            keep,
            suffixes,
        ),
    decreases names.len(),
{
    if names.len() > 0 {
        let before = names.drop_last();
        let front = orphans(before, keep, suffixes);
        lemma_orphans(before, keep, suffixes, name);
        lemma_push_contains(front, names.last());
        lemma_push_contains(before, names.last());
        assert(before.push(names.last()) =~= names);
    }
}

/// Of the files of a directory, those that diagrams and metadata of entities are
/// written to are removed exactly where the entity is none of those that stay, and
/// no other file is.
pub proof fn law_left_over(names: Seq<Seq<char>>, keep: Seq<Seq<char>>, base: Seq<char>, name: Seq<char>)
    ensures
        names.contains(base + ".mmd"@) ==> (orphans(
            names,
            keep,
            seq![".meta.json"@, ".mmd"@],
        ).contains(base + ".mmd"@) <==> !keep.contains(base)),
        names.contains(base + ".meta.json"@) ==> (orphans(
            names,
            keep,
            seq![".meta.json"@, ".mmd"@],
        ).contains(base + ".meta.json"@) <==> !keep.contains(base)),
        orphans(names, keep, seq![".meta.json"@, ".mmd"@]).contains(name) ==> names.contains(name)
            && (ends(name, ".mmd"@) || ends(name, ".meta.json"@)),
{
    reveal_strlit(".meta.json");
    reveal_strlit(".mmd");
    reveal_with_fuel(base_of, 3);
    let suffixes = seq![".meta.json"@, ".mmd"@];
    let diagram = base + ".mmd"@;
    let meta = base + ".meta.json"@;
    assert(suffixes.drop_first()[0] == ".mmd"@);
    assert(suffixes.drop_first().drop_first().len() == 0);
    assert(meta.subrange(base.len() as int, meta.len() as int) =~= ".meta.json"@);
    assert(meta.take(base.len() as int) =~= base);
    assert(diagram.subrange(base.len() as int, diagram.len() as int) =~= ".mmd"@);
    assert(diagram.take(base.len() as int) =~= base);
    assert(before_suffix(diagram, ".meta.json"@) is None) by {
        if before_suffix(diagram, ".meta.json"@) is Some {
            assert(diagram.subrange(diagram.len() - 10, diagram.len() as int)[9] == diagram.last());
        }
    }
    lemma_orphans(names, keep, suffixes, diagram);
    lemma_orphans(names, keep, suffixes, meta);
    lemma_orphans(names, keep, suffixes, name);
}

/// Each sequence diagram is written to the file that the row of its entity names,
/// and the overview to its own.
pub proof fn law_sequences_written(
    es: Seq<ArtifactView>,
    ss: Seq<(Seq<char>, Seq<char>)>,
    overview: Seq<char>,
    metas: Seq<Seq<char>>,
    i: int,
    k: int,
)
    requires
        0 <= i < es.len(),
        0 <= k < ss.len(),
        ss[k].0 == es[i].id,
    ensures
        rows_of(es, drawn_ids(ss))[i].sequence_path is Some,
        all_writes(es, ss, overview, metas).contains(
            (rows_of(es, drawn_ids(ss))[i].sequence_path->0, ss[k].1),
        ),
        all_writes(es, ss, overview, metas).contains(("overview.mmd"@, overview)),
{
    let ws = entity_writes(es, metas);
    let all = all_writes(es, ss, overview, metas);
    assert(drawn_ids(ss)[k] == es[i].id);
    assert(all[ws.len() + k] == sequence_write(ss[k]));
    assert(all[all.len() - 1] == ("overview.mmd"@, overview));
}

} // verus!
