//! Lists of records ordered by an identifier.

use crate::order::{goes_first, lists, sort_positions};
use crate::text::text_lt;
use vstd::prelude::*;

verus! {

/// A value that is found and ordered by a text.
pub trait Record: DeepView + Sized {
    /// The text that a record is ordered by.
    spec fn key(v: Self::V) -> Seq<char>;

    /// The text that the record is ordered by.
    fn key_string(&self) -> (r: String)
        ensures
            r@ == Self::key(self.deep_view()),
    ;

    /// A copy of the record.
    fn duplicate(&self) -> (r: Self)
        ensures
            r.deep_view() == self.deep_view(),
    ;
}

/// Whether the keys of a list strictly ascend.
pub open spec fn ascending<T: Record>(s: Seq<T::V>) -> bool {
    forall|i: int, j: int|
        0 <= i < j < s.len() ==> text_lt(T::key(#[trigger] s[i]), T::key(#[trigger] s[j]))
}

/// Whether no two records of a list have the same key.
pub open spec fn distinct_keys<T: Record>(s: Seq<T::V>) -> bool {
    forall|i: int, j: int|
        0 <= i < s.len() && 0 <= j < s.len() && i != j ==> T::key(#[trigger] s[i]) != T::key(
            #[trigger] s[j],
        )
}

/// Whether the record at position `a` is sorted before that at `b`: by key, and
/// by position where the keys are equal.
pub open spec fn sorted_before<T: Record>(s: Seq<T::V>, a: int, b: int) -> bool {
    text_lt(T::key(s[a]), T::key(s[b])) || (T::key(s[a]) == T::key(s[b]) && a < b)
}

/// Whether `p` are the positions of the records of `s` in ascending order of
/// their keys; records with the same key keep their order.
pub open spec fn key_order<T: Record>(s: Seq<T::V>, p: Seq<usize>) -> bool {
    &&& lists(p, 0, s.len() as int)
    &&& forall|i: int, j: int|
        0 <= i < j < p.len() ==> sorted_before::<T>(
            s,
            #[trigger] p[i] as int,
            #[trigger] p[j] as int,
        )
}

/// Whether `r` are the records of `s` in ascending order of their keys; records
/// with the same key keep their order.
pub open spec fn is_sorted<T: Record>(s: Seq<T::V>, r: Seq<T::V>) -> bool {
    exists|p: Seq<usize>| #[trigger] key_order::<T>(s, p) && r == at_positions(s, p)
}

/// What stands at some positions.
pub open spec fn at_positions<V>(s: Seq<V>, p: Seq<usize>) -> Seq<V> {
    p.map_values(|i: usize| s[i as int])
}

/// Records with different keys are sorted into strictly ascending order.
pub proof fn law_sorted_ascending<T: Record>(s: Seq<T::V>, r: Seq<T::V>)
    requires
        s.len() <= usize::MAX,
        is_sorted::<T>(s, r),
    ensures
        r.len() == s.len(),
        forall|v: T::V| r.contains(v) <==> #[trigger] s.contains(v),
        distinct_keys::<T>(s) ==> ascending::<T>(r),
{
    let p = choose|p: Seq<usize>| #[trigger] key_order::<T>(s, p) && r == at_positions(s, p);
    lemma_same_members(s, p);
    if distinct_keys::<T>(s) {
        lemma_strictly_ascending::<T>(s, p);
    }
}

proof fn lemma_same_members<V>(s: Seq<V>, p: Seq<usize>)
    requires
        s.len() <= usize::MAX,
        lists(p, 0, s.len() as int),
    ensures
        at_positions(s, p).len() == s.len(),
        forall|v: V| at_positions(s, p).contains(v) <==> #[trigger] s.contains(v),
{
    let r = at_positions(s, p);
    assert forall|v: V| r.contains(v) <==> #[trigger] s.contains(v) by {
        if r.contains(v) {
            let i = choose|i: int| 0 <= i < r.len() && r[i] == v;
            assert(s[p[i] as int] == v);
        }
        if s.contains(v) {
            let k = choose|k: int| 0 <= k < s.len() && s[k] == v;
            assert(p.contains(k as usize));
            let i = choose|i: int| 0 <= i < p.len() && p[i] == k as usize;
            assert(r[i] == v);
        }
    }
}

proof fn lemma_strictly_ascending<T: Record>(s: Seq<T::V>, p: Seq<usize>)
    requires
        key_order::<T>(s, p),
        distinct_keys::<T>(s),
    ensures
        ascending::<T>(at_positions(s, p)),
{
    let r = at_positions(s, p);
    assert forall|i: int, j: int| 0 <= i < j < r.len() implies text_lt(
        T::key(#[trigger] r[i]),
        T::key(#[trigger] r[j]),
    ) by {
        let a = p[i] as int;
        let b = p[j] as int;
        assert(r[i] == s[a] && r[j] == s[b]);
        assert(a != b);
        assert(sorted_before::<T>(s, a, b));
        assert(T::key(s[a]) != T::key(s[b]));
    }
}

/// The records in ascending order of their keys; records with the same key keep
/// their order.
pub fn sort_records<T: Record>(items: &Vec<T>) -> (r: Vec<T>)
    ensures
        is_sorted::<T>(items.deep_view(), r.deep_view()),
        r.len() == items.len(),
        forall|v: T::V| r.deep_view().contains(v) <==> #[trigger] items.deep_view().contains(v),
        distinct_keys::<T>(items.deep_view()) ==> ascending::<T>(r.deep_view()),
{
    let ghost v = items.deep_view();
    let mut keys: Vec<String> = Vec::new();
    let mut i: usize = 0;
    while i < items.len()
        invariant
            i <= items.len(),
            v == items.deep_view(),
            keys.len() == i,
            forall|k: int| 0 <= k < i ==> (#[trigger] keys@[k])@ == T::key(v[k]),
        decreases items.len() - i,
    {
        assert(v[i as int] == items[i as int].deep_view());
        keys.push(items[i].key_string());
        i += 1;
    }
    let sorted = sort_positions(&keys);
    let mut out: Vec<T> = Vec::new();
    let mut i: usize = 0;
    while i < sorted.len()
        invariant
            i <= sorted.len(),
            v == items.deep_view(),
            lists(sorted@, 0, items.len() as int),
            out.len() == i,
            forall|k: int|
                0 <= k < i ==> (#[trigger] out@[k]).deep_view() == v[sorted@[k] as int],
        decreases sorted.len() - i,
    {
        assert(v[sorted@[i as int] as int] == items[sorted@[i as int] as int].deep_view());
        out.push(items[sorted[i]].duplicate());
        i += 1;
    }
    proof {
        assert(key_order::<T>(v, sorted@)) by {
            assert forall|i: int, j: int| 0 <= i < j < sorted.len() implies sorted_before::<T>(
                v,
                #[trigger] sorted@[i] as int,
                #[trigger] sorted@[j] as int,
            ) by {
                let a = sorted@[i] as int;
                let b = sorted@[j] as int;
                assert(goes_first(keys@, a, b));
                crate::text::lemma_text_lt_total(keys@[a]@, keys@[b]@);
            }
        }
        assert(out.deep_view() =~= at_positions(v, sorted@));
        law_sorted_ascending::<T>(v, out.deep_view());
    }
    out
}

} // verus!
