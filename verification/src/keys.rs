//! Keys in ascending order, with the number of times each occurs.

use crate::text::{
    lemma_text_lt_irreflexive, lemma_text_lt_total, lemma_text_lt_transitive, str_eq, str_lt,
    text_lt,
};
use vstd::hash_map::StringHashMap;
use vstd::prelude::*;

verus! {

// ── Keys ─────────────────────────────────────────────────────────────────────

/// A key of an ordered collection: a text, or a tuple of texts.
pub trait Key: Sized + DeepView {
    /// The strict total order of the keys.
    spec fn lt(a: Self::V, b: Self::V) -> bool;

    /// The order is strict, transitive and total.
    proof fn lemma_order(a: Self::V, b: Self::V, c: Self::V)
        ensures
            !Self::lt(a, a),
            Self::lt(a, b) && Self::lt(b, c) ==> Self::lt(a, c),
            a == b || Self::lt(a, b) || Self::lt(b, a),
    ;

    /// Tests the order.
    fn less(&self, other: &Self) -> (r: bool)
        ensures
            r == Self::lt(self.deep_view(), other.deep_view()),
    ;

    /// A copy of the key.
    fn duplicate_key(&self) -> (r: Self)
        ensures
            r.deep_view() == self.deep_view(),
    ;
}

impl Key for String {
    open spec fn lt(a: Seq<char>, b: Seq<char>) -> bool {
        text_lt(a, b)
    }

    proof fn lemma_order(a: Seq<char>, b: Seq<char>, c: Seq<char>) {
        lemma_text_lt_irreflexive(a);
        lemma_text_lt_total(a, b);
        if text_lt(a, b) && text_lt(b, c) {
            lemma_text_lt_transitive(a, b, c);
        }
    }

    fn less(&self, other: &Self) -> (r: bool) {
        str_lt(self.as_str(), other.as_str())
    }

    fn duplicate_key(&self) -> (r: Self) {
        self.clone()
    }
}

impl Key for (String, String) {
    open spec fn lt(a: (Seq<char>, Seq<char>), b: (Seq<char>, Seq<char>)) -> bool {
        text_lt(a.0, b.0) || (a.0 == b.0 && text_lt(a.1, b.1))
    }

    proof fn lemma_order(
        a: (Seq<char>, Seq<char>),
        b: (Seq<char>, Seq<char>),
        c: (Seq<char>, Seq<char>),
    ) {
        lemma_text_lt_irreflexive(a.0);
        lemma_text_lt_irreflexive(a.1);
        lemma_text_lt_total(a.0, b.0);
        lemma_text_lt_total(a.1, b.1);
        if text_lt(a.0, b.0) && text_lt(b.0, c.0) {
            lemma_text_lt_transitive(a.0, b.0, c.0);
        }
        if text_lt(a.1, b.1) && text_lt(b.1, c.1) {
            lemma_text_lt_transitive(a.1, b.1, c.1);
        }
    }

    fn less(&self, other: &Self) -> (r: bool) {
        if str_lt(self.0.as_str(), other.0.as_str()) {
            return true;
        }
        str_eq(self.0.as_str(), other.0.as_str()) && str_lt(self.1.as_str(), other.1.as_str())
    }

    fn duplicate_key(&self) -> (r: Self) {
        (self.0.clone(), self.1.clone())
    }
}

impl Key for (i128, usize) {
    open spec fn lt(a: (i128, usize), b: (i128, usize)) -> bool {
        a.0 < b.0 || (a.0 == b.0 && a.1 < b.1)
    }

    proof fn lemma_order(a: (i128, usize), b: (i128, usize), c: (i128, usize)) {
    }

    fn less(&self, other: &Self) -> (r: bool) {
        self.0 < other.0 || (self.0 == other.0 && self.1 < other.1)
    }

    fn duplicate_key(&self) -> (r: Self) {
        (self.0, self.1)
    }
}

// ── Sorted keys ──────────────────────────────────────────────────────────────

/// Whether the keys of a list strictly ascend.
pub open spec fn ascend<K: Key>(s: Seq<K::V>) -> bool {
    forall|i: int, j: int| 0 <= i < j < s.len() ==> K::lt(#[trigger] s[i], #[trigger] s[j])
}

/// Whether `k` lists the keys that occur in `s`, each once and in ascending
/// order.
pub open spec fn lists_keys<K: Key>(k: Seq<K::V>, s: Seq<K::V>) -> bool {
    &&& ascend::<K>(k)
    &&& forall|v: K::V| k.contains(v) <==> #[trigger] s.contains(v)
}

/// The keys that occur in `s`, each once and in ascending order.
pub open spec fn sorted_keys<K: Key>(s: Seq<K::V>) -> Seq<K::V> {
    choose|k: Seq<K::V>| lists_keys::<K>(k, s)
}

/// There is one way only to list the keys of a collection in ascending order.
pub proof fn law_sorted_keys_unique<K: Key>(k: Seq<K::V>, s: Seq<K::V>)
    requires
        lists_keys::<K>(k, s),
    ensures
        k == sorted_keys::<K>(s),
{
    let q = sorted_keys::<K>(s);
    assert(lists_keys::<K>(q, s));
    assert forall|v: K::V| k.contains(v) <==> #[trigger] q.contains(v) by {
        assert(s.contains(v) <==> k.contains(v));
    }
    lemma_same_keys::<K>(k, q);
}

/// The keys of any collection can be listed in ascending order.
pub proof fn law_sorted_keys<K: Key>(s: Seq<K::V>)
    ensures
        lists_keys::<K>(sorted_keys::<K>(s), s),
{
    let k = lemma_sort::<K>(s);
    assert(lists_keys::<K>(k, s));
}

/// An ascending list with one more key in its place.
spec fn placed<K: Key>(k: Seq<K::V>, v: K::V) -> Seq<K::V>
    decreases k.len(),
{
    if k.len() > 0 && K::lt(v, k.last()) {
        placed::<K>(k.drop_last(), v).push(k.last())
    } else {
        k.push(v)
    }
}

proof fn lemma_placed<K: Key>(k: Seq<K::V>, v: K::V)
    requires
        ascend::<K>(k),
        !k.contains(v),
    ensures
        ascend::<K>(placed::<K>(k, v)),
        forall|w: K::V| #[trigger] placed::<K>(k, v).contains(w) <==> k.contains(w) || w == v,
    decreases k.len(),
{
    let r = placed::<K>(k, v);
    if k.len() > 0 && K::lt(v, k.last()) {
        let front = k.drop_last();
        let last = k.last();
        assert(k =~= front.push(last));
        lemma_push_contains(front, last);
        assert(ascend::<K>(front));
        lemma_placed::<K>(front, v);
        let q = placed::<K>(front, v);
        lemma_push_contains(q, last);
        assert forall|i: int, j: int| 0 <= i < j < r.len() implies K::lt(
            #[trigger] r[i],
            #[trigger] r[j],
        ) by {
            if j < q.len() {
                assert(r[i] == q[i] && r[j] == q[j]);
            } else {
                assert(r[i] == q[i]);
                assert(q.contains(q[i]));
                if q[i] != v {
                    let m = choose|m: int| 0 <= m < front.len() && front[m] == q[i];
                    assert(K::lt(k[m], k[k.len() - 1]));
                }
            }
        }
        assert forall|w: K::V| #[trigger] r.contains(w) <==> k.contains(w) || w == v by {
            assert(q.contains(w) <==> front.contains(w) || w == v);
            assert(q.push(last).contains(w) <==> q.contains(w) || w == last);
            assert(front.push(last).contains(w) <==> front.contains(w) || w == last);
        }
    } else {
        lemma_push_contains(k, v);
        assert forall|i: int, j: int| 0 <= i < j < r.len() implies K::lt(
            #[trigger] r[i],
            #[trigger] r[j],
        ) by {
            if j == k.len() {
                let last = k[k.len() - 1];
                assert(k.contains(last));
                K::lemma_order(v, last, v);
                if i < k.len() - 1 {
                    K::lemma_order(k[i], last, v);
                }
            }
        }
    }
}

proof fn lemma_sort<K: Key>(s: Seq<K::V>) -> (k: Seq<K::V>)
    ensures
        lists_keys::<K>(k, s),
    decreases s.len(),
{
    if s.len() == 0 {
        Seq::empty()
    } else {
        let front = s.drop_last();
        let v = s.last();
        let q = lemma_sort::<K>(front);
        assert(s =~= front.push(v));
        lemma_push_contains(front, v);
        if q.contains(v) {
            assert forall|w: K::V| q.contains(w) <==> #[trigger] s.contains(w) by {
                assert(front.push(v).contains(w) <==> front.contains(w) || w == v);
                assert(q.contains(w) <==> front.contains(w));
            }
            q
        } else {
            lemma_placed::<K>(q, v);
            let r = placed::<K>(q, v);
            assert forall|w: K::V| r.contains(w) <==> #[trigger] s.contains(w) by {
                assert(front.push(v).contains(w) <==> front.contains(w) || w == v);
                assert(q.contains(w) <==> front.contains(w));
                assert(r.contains(w) <==> q.contains(w) || w == v);
            }
            r
        }
    }
}

/// Two ascending lists of the same keys are equal.
proof fn lemma_same_keys<K: Key>(a: Seq<K::V>, b: Seq<K::V>)
    requires
        ascend::<K>(a),
        ascend::<K>(b),
        forall|v: K::V| a.contains(v) <==> #[trigger] b.contains(v),
    ensures
        a == b,
    decreases a.len(),
{
    if a.len() == 0 {
        if b.len() > 0 {
            assert(b.contains(b[0]));
            assert(a.contains(b[0]));
        }
        assert(a =~= b);
    } else {
        assert(a.contains(a.last()));
        assert(b.contains(a.last()));
        let i = choose|i: int| 0 <= i < b.len() && b[i] == a.last();
        assert(b.contains(b.last()));
        assert(a.contains(b.last()));
        let j = choose|j: int| 0 <= j < a.len() && a[j] == b.last();
        K::lemma_order(a.last(), b.last(), a.last());
        assert(a.last() == b.last());
        let x = a.drop_last();
        let y = b.drop_last();
        assert forall|v: K::V| x.contains(v) <==> #[trigger] y.contains(v) by {
            K::lemma_order(v, v, v);
            if x.contains(v) {
                let m = choose|m: int| 0 <= m < x.len() && x[m] == v;
                assert(a[m] == v);
                assert(K::lt(a[m], a[a.len() - 1]));
                assert(a.contains(v));
                assert(b.contains(v));
                let n = choose|n: int| 0 <= n < b.len() && b[n] == v;
                assert(n != b.len() - 1);
                assert(y[n] == v);
            }
            if y.contains(v) {
                let m = choose|m: int| 0 <= m < y.len() && y[m] == v;
                assert(b[m] == v);
                assert(K::lt(b[m], b[b.len() - 1]));
                assert(b.contains(v));
                assert(a.contains(v));
                let n = choose|n: int| 0 <= n < a.len() && a[n] == v;
                assert(n != a.len() - 1);
                assert(x[n] == v);
            }
        }
        lemma_same_keys::<K>(x, y);
        assert(a =~= x.push(a.last()));
        assert(b =~= y.push(b.last()));
    }
}

/// How often `v` occurs in `s`.
pub open spec fn occurrences<V>(s: Seq<V>, v: V) -> nat
    decreases s.len(),
{
    if s.len() == 0 {
        0
    } else {
        occurrences(s.drop_last(), v) + if s.last() == v {
            1nat
        } else {
            0nat
        }
    }
}

/// What occurs in a list occurs at least once, and at most as often as the list
/// is long.
pub proof fn law_occurrences<V>(s: Seq<V>, v: V)
    ensures
        occurrences(s, v) <= s.len(),
        occurrences(s, v) > 0 <==> s.contains(v),
    decreases s.len(),
{
    if s.len() > 0 {
        let front = s.drop_last();
        law_occurrences(front, v);
        if front.contains(v) {
            let i = choose|i: int| 0 <= i < front.len() && front[i] == v;
            assert(s[i] == v);
        }
        if s.last() == v {
            assert(s[s.len() - 1] == v);
        }
        if s.contains(v) && s.last() != v {
            let i = choose|i: int| 0 <= i < s.len() && s[i] == v;
            assert(front[i] == v);
        }
    }
}

/// The keys of a tally.
pub open spec fn tally_keys<K: Key>(t: Seq<(K, usize)>) -> Seq<K::V> {
    t.map_values(|e: (K, usize)| e.0.deep_view())
}

/// Whether `t` is the tally of `s`: its keys in ascending order, each with the
/// number of its occurrences.
pub open spec fn is_tally<K: Key>(t: Seq<(K, usize)>, s: Seq<K::V>) -> bool {
    &&& lists_keys::<K>(tally_keys(t), s)
    &&& forall|i: int|
        0 <= i < t.len() ==> (#[trigger] t[i]).1 == occurrences(s, t[i].0.deep_view())
}

/// The first position of an ascending tally whose key is not below `key`.
fn position<K: Key>(t: &Vec<(K, usize)>, key: &K) -> (r: usize)
    requires
        ascend::<K>(tally_keys(t@)),
    ensures
        r <= t.len(),
        forall|i: int|
            0 <= i < r ==> K::lt(#[trigger] tally_keys(t@)[i], key.deep_view()),
        forall|i: int|
            r <= i < t.len() ==> !K::lt(#[trigger] tally_keys(t@)[i], key.deep_view()),
{
    let ghost ks = tally_keys(t@);
    let ghost v = key.deep_view();
    let mut lo: usize = 0;
    let mut hi: usize = t.len();
    while lo < hi
        invariant
            lo <= hi <= t.len(),
            ks == tally_keys(t@),
            v == key.deep_view(),
            ascend::<K>(ks),
            forall|i: int| 0 <= i < lo ==> K::lt(#[trigger] ks[i], v),
            forall|i: int| hi <= i < t.len() ==> !K::lt(#[trigger] ks[i], v),
        decreases hi - lo,
    {
        let mid: usize = lo + (hi - lo) / 2;
        assert(ks[mid as int] == t[mid as int].0.deep_view());
        if t[mid].0.less(key) {
            assert forall|i: int| 0 <= i < mid + 1 implies K::lt(#[trigger] ks[i], v) by {
                K::lemma_order(ks[i], ks[mid as int], v);
            }
            lo = mid + 1;
        } else {
            assert forall|i: int| mid <= i < t.len() implies !K::lt(#[trigger] ks[i], v) by {
                K::lemma_order(ks[mid as int], ks[i], v);
            }
            hi = mid;
        }
    }
    lo
}

/// Tallies the keys of a list.
pub fn tally<K: Key>(list: &Vec<K>) -> (r: Vec<(K, usize)>)
    ensures
        is_tally(r@, list.deep_view()),
        tally_keys(r@) == sorted_keys::<K>(list.deep_view()),
{
    let ghost s = list.deep_view();
    let mut out: Vec<(K, usize)> = Vec::new();
    let mut i: usize = 0;
    assert(tally_keys(out@) =~= Seq::<K::V>::empty());
    assert(lists_keys::<K>(tally_keys(out@), s.take(0)));
    while i < list.len()
        invariant
            i <= list.len(),
            s == list.deep_view(),
            lists_keys::<K>(tally_keys(out@), s.take(i as int)),
            forall|k: int|
                0 <= k < out.len() ==> (#[trigger] out@[k]).1 == occurrences(
                    s.take(i as int),
                    out@[k].0.deep_view(),
                ),
        decreases list.len() - i,
    {
        let ghost a = s.take(i as int);
        let ghost b = s.take(i + 1);
        let ghost v = s[i as int];
        let ghost ks = tally_keys(out@);
        let ghost before = out@;
        assert(v == list[i as int].deep_view());
        assert(b.drop_last() =~= a);
        assert(b.last() == v);
        proof {
            lemma_push_contains(a, v);
            assert(b =~= a.push(v));
        }
        let p = position(&out, &list[i]);
        let mut known = false;
        if p < out.len() {
            assert(ks[p as int] == out[p as int].0.deep_view());
            if !list[i].less(&out[p].0) {
                known = true;
                proof {
                    K::lemma_order(ks[p as int], v, v);
                    law_occurrences(a, v);
                }
                let n: usize = out[p].1 + 1;
                let k = out[p].0.duplicate_key();
                out.set(p, (k, n));
                proof {
                    assert(tally_keys(out@) =~= ks);
                    assert(ks.contains(v));
                    assert(a.contains(v));
                    assert forall|w: K::V| ks.contains(w) <==> #[trigger] b.contains(w) by {
                        assert(ks.contains(w) <==> a.contains(w));
                    }
                    assert forall|k: int| 0 <= k < out.len() implies (#[trigger] out@[k]).1
                        == occurrences(b, out@[k].0.deep_view()) by {
                        assert(ks[k] == before[k].0.deep_view());
                        K::lemma_order(v, v, v);
                        if k != p {
                            assert(out@[k] == before[k]);
                            assert(ks[k] != v);
                        }
                    }
                }
            }
        }
        if !known {
            proof {
                assert forall|k: int| p <= k < ks.len() implies K::lt(v, #[trigger] ks[k]) by {
                    K::lemma_order(v, ks[p as int], ks[k]);
                }
                if a.contains(v) {
                    assert(ks.contains(v));
                    let k = choose|k: int| 0 <= k < ks.len() && ks[k] == v;
                    K::lemma_order(v, v, v);
                }
                law_occurrences(a, v);
            }
            let key = list[i].duplicate_key();
            out.insert(p, (key, 1));
            proof {
                let now = tally_keys(out@);
                assert(now =~= ks.insert(p as int, v));
                assert(ascend::<K>(now));
                assert forall|w: K::V| now.contains(w) <==> #[trigger] b.contains(w) by {
                    assert(ks.contains(w) <==> a.contains(w));
                    if now.contains(w) {
                        let k = choose|k: int| 0 <= k < now.len() && now[k] == w;
                        if k < p {
                            assert(ks[k] == w);
                        } else if k > p {
                            assert(ks[k - 1] == w);
                        }
                    }
                    if ks.contains(w) {
                        let k = choose|k: int| 0 <= k < ks.len() && ks[k] == w;
                        if k < p {
                            assert(now[k] == w);
                        } else {
                            assert(now[k + 1] == w);
                        }
                    }
                    assert(now[p as int] == v);
                }
                assert forall|k: int| 0 <= k < out.len() implies (#[trigger] out@[k]).1
                    == occurrences(b, out@[k].0.deep_view()) by {
                    K::lemma_order(v, v, v);
                    assert(now[k] == out@[k].0.deep_view());
                    if k < p {
                        assert(out@[k] == before[k]);
                        assert(ks[k] == before[k].0.deep_view());
                    } else if k > p {
                        assert(out@[k] == before[k - 1]);
                        assert(ks[k - 1] == before[k - 1].0.deep_view());
                    }
                }
            }
        }
        i += 1;
    }
    assert(s.take(list.len() as int) =~= s);
    proof {
        law_sorted_keys_unique::<K>(tally_keys(out@), s);
    }
    out
}

/// What a list with one more element holds.
pub proof fn lemma_push_contains<V>(a: Seq<V>, v: V)
    ensures
        forall|w: V| #[trigger] a.push(v).contains(w) <==> a.contains(w) || w == v,
{
    assert forall|w: V| #[trigger] a.push(v).contains(w) <==> a.contains(w) || w == v by {
        if a.contains(w) {
            let i = choose|i: int| 0 <= i < a.len() && a[i] == w;
            assert(a.push(v)[i] == w);
        }
        if w == v {
            assert(a.push(v)[a.len() as int] == w);
        }
    }
}

/// The keys of a list, each once and in ascending order.
pub fn sort_keys<K: Key>(list: &Vec<K>) -> (r: Vec<K>)
    ensures
        r.deep_view() == sorted_keys::<K>(list.deep_view()),
        lists_keys::<K>(r.deep_view(), list.deep_view()),
{
    let t = tally(list);
    let ghost ks = tally_keys(t@);
    let mut out: Vec<K> = Vec::new();
    let mut i: usize = 0;
    while i < t.len()
        invariant
            i <= t.len(),
            ks == tally_keys(t@),
            out.deep_view() == ks.take(i as int),
        decreases t.len() - i,
    {
        let ghost had = out.deep_view();
        assert(ks[i as int] == t[i as int].0.deep_view());
        out.push(t[i].0.duplicate_key());
        assert(out.deep_view() =~= had.push(ks[i as int]));
        i += 1;
        assert(out.deep_view() =~= ks.take(i as int));
    }
    assert(ks.take(t.len() as int) =~= ks);
    out
}

/// Ascending texts are all different.
pub proof fn lemma_distinct(s: Seq<Seq<char>>)
    requires
        ascend::<String>(s),
    ensures
        s.no_duplicates(),
{
    assert forall|a: int, b: int| 0 <= a < s.len() && 0 <= b < s.len() && a != b implies s[a]
        != s[b] by {
        if a < b {
            lemma_text_lt_irreflexive(s[a]);
        } else {
            lemma_text_lt_irreflexive(s[b]);
        }
    }
}

/// The position of each name in a list without repeats.
pub(crate) fn index_names(names: &Vec<String>) -> (r: StringHashMap<usize>)
    requires
        names.deep_view().no_duplicates(),
    ensures
        forall|s: Seq<char>| #[trigger] r@.contains_key(s) <==> names.deep_view().contains(s),
        forall|s: Seq<char>| #[trigger]
            r@.contains_key(s) ==> r@[s] < names.len() && names.deep_view()[r@[s] as int] == s,
{
    let ghost v = names.deep_view();
    let mut out: StringHashMap<usize> = StringHashMap::new();
    let mut i: usize = 0;
    while i < names.len()
        invariant
            i <= names.len(),
            v == names.deep_view(),
            forall|s: Seq<char>| #[trigger]
                out@.contains_key(s) ==> out@[s] < i && v[out@[s] as int] == s,
            forall|k: int| 0 <= k < i ==> out@.contains_key(#[trigger] v[k]),
        decreases names.len() - i,
    {
        assert(v[i as int] == names[i as int]@);
        out.insert(names[i].clone(), i);
        i += 1;
    }
    out
}

} // verus!
