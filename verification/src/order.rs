//! Stable sorting, as a permutation of positions.

use crate::text::{str_lt, text_lt};
use vstd::prelude::*;

verus! {

/// A key that can be sorted by: a strict weak order with a test for it.
pub trait SortKey: Sized {
    /// Whether `self` comes before `other`.
    spec fn before(&self, other: &Self) -> bool;

    /// No two keys come before each other.
    proof fn lemma_asymmetric(a: &Self, b: &Self)
        ensures
            a.before(b) ==> !b.before(a),
    ;

    /// Where one key comes before another, any third key comes after the
    /// first or before the second.
    proof fn lemma_cotransitive(a: &Self, b: &Self, c: &Self)
        ensures
            a.before(c) ==> a.before(b) || b.before(c),
    ;

    /// Tests the order.
    fn is_before(&self, other: &Self) -> (r: bool)
        ensures
            r == self.before(other),
    ;
}

impl SortKey for String {
    open spec fn before(&self, other: &Self) -> bool {
        text_lt(self@, other@)
    }

    proof fn lemma_asymmetric(a: &Self, b: &Self) {
        if text_lt(a@, b@) && text_lt(b@, a@) {
            crate::text::lemma_text_lt_transitive(a@, b@, a@);
            crate::text::lemma_text_lt_irreflexive(a@);
        }
    }

    proof fn lemma_cotransitive(a: &Self, b: &Self, c: &Self) {
        if text_lt(a@, c@) && !text_lt(a@, b@) && !text_lt(b@, c@) {
            crate::text::lemma_text_lt_total(a@, b@);
            crate::text::lemma_text_lt_total(b@, c@);
            if text_lt(b@, a@) && text_lt(c@, b@) {
                crate::text::lemma_text_lt_transitive(c@, b@, a@);
                crate::text::lemma_text_lt_transitive(a@, c@, a@);
                crate::text::lemma_text_lt_irreflexive(a@);
            } else if text_lt(b@, a@) {
                crate::text::lemma_text_lt_transitive(b@, a@, c@);
            }
        }
    }

    fn is_before(&self, other: &Self) -> (r: bool) {
        str_lt(self.as_str(), other.as_str())
    }
}

impl SortKey for i128 {
    open spec fn before(&self, other: &Self) -> bool {
        *self < *other
    }

    proof fn lemma_asymmetric(a: &Self, b: &Self) {
    }

    proof fn lemma_cotransitive(a: &Self, b: &Self, c: &Self) {
    }

    fn is_before(&self, other: &Self) -> (r: bool) {
        *self < *other
    }
}

/// Whether position `i` goes before position `j` in the stable order of
/// `keys`: by key, and by position where the keys do not decide.
pub open spec fn goes_first<K: SortKey>(keys: Seq<K>, i: int, j: int) -> bool {
    keys[i].before(&keys[j]) || (!keys[j].before(&keys[i]) && i < j)
}

/// Whether the positions in `p` stand in the stable order of `keys`.
pub open spec fn in_order<K: SortKey>(keys: Seq<K>, p: Seq<usize>) -> bool {
    forall|i: int, j: int|
        0 <= i < j < p.len() ==> goes_first(keys, #[trigger] p[i] as int, #[trigger] p[j] as int)
}

/// Whether `p` lists each of the positions `lo..hi` exactly once.
pub open spec fn lists(p: Seq<usize>, lo: int, hi: int) -> bool {
    &&& p.len() == hi - lo
    &&& p.no_duplicates()
    &&& forall|i: int| 0 <= i < p.len() ==> lo <= #[trigger] p[i] < hi
    &&& forall|x: int| lo <= x < hi ==> p.contains(#[trigger] (x as usize))
}

proof fn lemma_goes_first_transitive<K: SortKey>(keys: Seq<K>, i: int, j: int, k: int)
    requires
        goes_first(keys, i, j),
        goes_first(keys, j, k),
    ensures
        goes_first(keys, i, k),
{
    K::lemma_asymmetric(&keys[i], &keys[j]);
    K::lemma_asymmetric(&keys[j], &keys[k]);
    K::lemma_cotransitive(&keys[i], &keys[k], &keys[j]);
    K::lemma_cotransitive(&keys[j], &keys[i], &keys[k]);
    K::lemma_cotransitive(&keys[k], &keys[j], &keys[i]);
}

/// The positions of `keys`, sorted by key; equal keys keep their order.
pub fn sort_positions<K: SortKey>(keys: &Vec<K>) -> (r: Vec<usize>)
    ensures
        lists(r@, 0, keys.len() as int),
        in_order(keys@, r@),
{
    sort_range(keys, 0, keys.len())
}

fn sort_range<K: SortKey>(keys: &Vec<K>, lo: usize, hi: usize) -> (r: Vec<usize>)
    requires
        lo <= hi <= keys.len(),
    ensures
        lists(r@, lo as int, hi as int),
        in_order(keys@, r@),
    decreases hi - lo,
{
    if lo == hi {
        return Vec::new();
    }
    if hi - lo == 1 {
        let mut one: Vec<usize> = Vec::new();
        one.push(lo);
        assert(one@[0] == lo);
        return one;
    }
    let mid: usize = lo + (hi - lo) / 2;
    let a = sort_range(keys, lo, mid);
    let b = sort_range(keys, mid, hi);
    merge(keys, &a, &b, lo, mid, hi)
}

fn merge<K: SortKey>(
    keys: &Vec<K>,
    a: &Vec<usize>,
    b: &Vec<usize>,
    lo: usize,
    mid: usize,
    hi: usize,
) -> (r: Vec<usize>)
    requires
        lo <= mid <= hi <= keys.len(),
        lists(a@, lo as int, mid as int),
        lists(b@, mid as int, hi as int),
        in_order(keys@, a@),
        in_order(keys@, b@),
    ensures
        lists(r@, lo as int, hi as int),
        in_order(keys@, r@),
{
    let mut out: Vec<usize> = Vec::new();
    let mut i: usize = 0;
    let mut j: usize = 0;
    while i < a.len() || j < b.len()
        invariant
            lo <= mid <= hi <= keys.len(),
            lists(a@, lo as int, mid as int),
            lists(b@, mid as int, hi as int),
            in_order(keys@, a@),
            in_order(keys@, b@),
            i <= a.len(),
            j <= b.len(),
            out.len() == i + j,
            in_order(keys@, out@),
            forall|x: int| 0 <= x < i ==> out@.contains(#[trigger] a@[x]),
            forall|x: int| 0 <= x < j ==> out@.contains(#[trigger] b@[x]),
            forall|x: int| 0 <= x < out.len() ==> lo <= #[trigger] out@[x] < hi,
            forall|x: int, y: int|
                0 <= x < out.len() && i <= y < a.len() ==> goes_first(
                    keys@,
                    #[trigger] out@[x] as int,
                    #[trigger] a@[y] as int,
                ),
            forall|x: int, y: int|
                0 <= x < out.len() && j <= y < b.len() ==> goes_first(
                    keys@,
                    #[trigger] out@[x] as int,
                    #[trigger] b@[y] as int,
                ),
        decreases a.len() + b.len() - i - j,
    {
        let take_a = j == b.len() || (i < a.len() && !keys[b[j]].is_before(&keys[a[i]]));
        let ghost before = out@;
        if take_a {
            let x = a[i];
            out.push(x);
            proof {
                assert forall|y: int| j <= y < b.len() implies goes_first(
                    keys@,
                    x as int,
                    #[trigger] b@[y] as int,
                ) by {
                    assert(goes_first(keys@, x as int, b@[j as int] as int));
                    if y > j {
                        lemma_goes_first_transitive(
                            keys@,
                            x as int,
                            b@[j as int] as int,
                            b@[y] as int,
                        );
                    }
                }
            }
            i += 1;
        } else {
            let x = b[j];
            out.push(x);
            proof {
                assert forall|y: int| i <= y < a.len() implies goes_first(
                    keys@,
                    x as int,
                    #[trigger] a@[y] as int,
                ) by {
                    assert(goes_first(keys@, x as int, a@[i as int] as int));
                    if y > i {
                        lemma_goes_first_transitive(
                            keys@,
                            x as int,
                            a@[i as int] as int,
                            a@[y] as int,
                        );
                    }
                }
            }
            j += 1;
        }
        proof {
            assert(out@[before.len() as int] == out@.last());
            assert forall|v: usize| before.contains(v) implies out@.contains(v) by {
                let w = choose|w: int| 0 <= w < before.len() && before[w] == v;
                assert(out@[w] == v);
            }
            assert(out@.contains(out@.last()));
        }
    }
    proof {
        assert forall|x: int, y: int| 0 <= x < out.len() && 0 <= y < out.len() && x != y implies
            out@[x] != out@[y] by {
            if x < y {
                assert(goes_first(keys@, out@[x] as int, out@[y] as int));
            } else {
                assert(goes_first(keys@, out@[y] as int, out@[x] as int));
            }
            K::lemma_asymmetric(&keys@[out@[x] as int], &keys@[out@[y] as int]);
        }
        assert forall|x: int| lo <= x < hi implies out@.contains(#[trigger] (x as usize)) by {
            if x < mid {
                assert(a@.contains(x as usize));
            } else {
                assert(b@.contains(x as usize));
            }
        }
    }
    out
}

} // verus!
