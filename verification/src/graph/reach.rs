//! Reverse call reachability: what the breadth-first walk from a target back
//! along `Calls` edges computes, and what holds of it.

use crate::graph::memory::{calls, edges_in};
use crate::model::{EdgeKind, EdgeView};
use vstd::prelude::*;

verus! {

/// A breadth-first walk in progress. Nodes are numbered in the order in which
/// they were reached; `parents` gives, for each number but 0, the number of
/// the node that discovered it.
#[verifier::ext_equal]
pub struct Walk {
    pub reached: Seq<Seq<char>>,
    pub parents: Seq<nat>,
    pub preds: Map<Seq<char>, Seq<Seq<char>>>,
}

/// The walk before its first step.
pub open spec fn start(target: Seq<char>) -> Walk {
    Walk { reached: seq![target], parents: seq![0nat], preds: Map::empty() }
}

/// Whether `needle` lies on the discovery path from node number `k` back to
/// the target.
pub open spec fn on_path(
    reached: Seq<Seq<char>>,
    parents: Seq<nat>,
    k: nat,
    needle: Seq<char>,
) -> bool
    decreases k,
{
    reached[k as int] == needle || (parents[k as int] < k && on_path(
        reached,
        parents,
        parents[k as int],
        needle,
    ))
}

/// The list recorded for `key`, empty where there is none.
pub open spec fn list_at(m: Map<Seq<char>, Seq<Seq<char>>>, key: Seq<char>) -> Seq<Seq<char>> {
    if m.contains_key(key) {
        m[key]
    } else {
        Seq::empty()
    }
}

/// One caller of node number `k` is looked at. The target itself and callers
/// on the discovery path of `k` are passed over; any other caller gets `k`
/// among its predecessors and, if it is new, a number.
pub open spec fn see(w: Walk, k: nat, caller: Seq<char>) -> Walk {
    if caller == w.reached[0] || on_path(w.reached, w.parents, k, caller) {
        w
    } else {
        let preds = w.preds.insert(caller, list_at(w.preds, caller).push(w.reached[k as int]));
        if w.reached.contains(caller) {
            Walk { preds, ..w }
        } else {
            Walk { reached: w.reached.push(caller), parents: w.parents.push(k), preds }
        }
    }
}

/// The edges into node number `k` are looked at, in order.
pub open spec fn see_all(w: Walk, k: nat, ins: Seq<EdgeView>) -> Walk
    decreases ins.len(),
{
    if ins.len() == 0 {
        w
    } else {
        let before = see_all(w, k, ins.drop_last());
        if ins.last().kind == EdgeKind::Calls {
            see(before, k, ins.last().from)
        } else {
            before
        }
    }
}

/// Node number `k` is expanded.
pub open spec fn expand(es: Seq<EdgeView>, w: Walk, k: nat) -> Walk {
    see_all(w, k, edges_in(es, w.reached[k as int]))
}

/// The nodes numbered `lo..hi` are expanded, in order.
pub open spec fn expand_range(es: Seq<EdgeView>, w: Walk, lo: nat, hi: nat) -> Walk
    decreases hi,
{
    if hi <= lo {
        w
    } else {
        expand(es, expand_range(es, w, lo, (hi - 1) as nat), (hi - 1) as nat)
    }
}

/// The walk after `h` rounds, and the number of the first node that the next
/// round expands. Each round expands the nodes that the one before reached.
pub open spec fn rounds(es: Seq<EdgeView>, target: Seq<char>, h: nat) -> (Walk, nat)
    decreases h,
{
    if h == 0 {
        (start(target), 0)
    } else {
        let (w, lo) = rounds(es, target, (h - 1) as nat);
        (expand_range(es, w, lo, w.reached.len()), w.reached.len())
    }
}

/// The whole walk: `hops` rounds from `target`.
pub open spec fn walk(es: Seq<EdgeView>, target: Seq<char>, hops: nat) -> Walk {
    rounds(es, target, hops).0
}

/// Whether `x` gets to `target` by at most `n` calls.
pub open spec fn within(es: Seq<EdgeView>, target: Seq<char>, x: Seq<char>, n: nat) -> bool
    decreases n,
{
    if n == 0 {
        x == target
    } else {
        within(es, target, x, (n - 1) as nat) || exists|y: Seq<char>|
            within(es, target, y, (n - 1) as nat) && #[trigger] calls(es, x, y)
    }
}

/// One more call is one more step away.
proof fn lemma_within_step(
    es: Seq<EdgeView>,
    target: Seq<char>,
    x: Seq<char>,
    y: Seq<char>,
    n: nat,
)
    requires
        within(es, target, y, n),
        calls(es, x, y),
    ensures
        within(es, target, x, n + 1),
{
    let m = ((n + 1) - 1) as nat;
    assert(m == n);
    assert(within(es, target, y, m) && calls(es, x, y));
}

// ── What every step keeps ────────────────────────────────────────────────────

/// What holds of a walk at every point.
pub open spec fn sound(es: Seq<EdgeView>, target: Seq<char>, w: Walk) -> bool {
    &&& w.reached.len() > 0
    &&& w.reached[0] == target
    &&& w.reached.no_duplicates()
    &&& w.parents.len() == w.reached.len()
    &&& forall|k: int| 0 < k < w.reached.len() ==> (#[trigger] w.parents[k]) < k
    &&& forall|k: int|
        0 < k < w.reached.len() ==> w.preds.contains_key(#[trigger] w.reached[k])
            && w.preds[w.reached[k]].len() > 0 && w.preds[w.reached[k]][0]
            == w.reached[w.parents[k] as int]
    &&& forall|c: Seq<char>| #[trigger]
        w.preds.contains_key(c) ==> c != target && w.reached.contains(c)
    &&& forall|c: Seq<char>, i: int|
        w.preds.contains_key(c) && 0 <= i < w.preds[c].len() ==> w.reached.contains(
            #[trigger] w.preds[c][i],
        ) && w.preds[c][i] != c && calls(es, c, w.preds[c][i])
}

/// Whether `later` extends `earlier`: what was reached stays, under its number
/// and with its discoverer.
pub open spec fn extends(earlier: Walk, later: Walk) -> bool {
    &&& earlier.reached.len() <= later.reached.len()
    &&& later.reached.take(earlier.reached.len() as int) == earlier.reached
    &&& earlier.parents.len() <= later.parents.len()
    &&& later.parents.take(earlier.parents.len() as int) == earlier.parents
}

proof fn lemma_on_path_reached(w: Walk, k: nat, needle: Seq<char>)
    requires
        k < w.reached.len(),
        w.parents.len() == w.reached.len(),
        on_path(w.reached, w.parents, k, needle),
    ensures
        w.reached.contains(needle),
    decreases k,
{
    if w.reached[k as int] != needle {
        lemma_on_path_reached(w, w.parents[k as int], needle);
    }
}

proof fn lemma_see(es: Seq<EdgeView>, target: Seq<char>, w: Walk, k: nat, caller: Seq<char>)
    requires
        sound(es, target, w),
        k < w.reached.len(),
        calls(es, caller, w.reached[k as int]),
    ensures
        sound(es, target, see(w, k, caller)),
        extends(w, see(w, k, caller)),
        see(w, k, caller).reached.contains(caller),
        forall|i: int|
            w.reached.len() <= i < see(w, k, caller).reached.len() ==> see(
                w,
                k,
                caller,
            ).reached[i] == caller,
        forall|i: int|
            w.parents.len() <= i < see(w, k, caller).parents.len() ==> see(
                w,
                k,
                caller,
            ).parents[i] == k,
{
    let n = see(w, k, caller);
    assert(w.reached.take(w.reached.len() as int) =~= w.reached);
    assert(w.parents.take(w.parents.len() as int) =~= w.parents);
    if caller == w.reached[0] {
    } else if on_path(w.reached, w.parents, k, caller) {
        lemma_on_path_reached(w, k, caller);
    } else {
        assert(caller != w.reached[k as int]);
        let old_list = list_at(w.preds, caller);
        assert(n.preds[caller] == old_list.push(w.reached[k as int]));
        assert(n.reached.take(w.reached.len() as int) =~= w.reached);
        assert(n.parents.take(w.parents.len() as int) =~= w.parents);
        assert forall|x: Seq<char>| w.reached.contains(x) implies n.reached.contains(x) by {
            let i = choose|i: int| 0 <= i < w.reached.len() && w.reached[i] == x;
            assert(n.reached[i] == x);
        }
        if !w.reached.contains(caller) {
            assert(n.reached[w.reached.len() as int] == caller);
        }
        assert(w.reached.contains(w.reached[k as int]));
        assert forall|c: Seq<char>, i: int|
            n.preds.contains_key(c) && 0 <= i < n.preds[c].len() implies n.reached.contains(
            #[trigger] n.preds[c][i],
        ) && n.preds[c][i] != c && calls(es, c, n.preds[c][i]) by {
            if c == caller {
                if i < old_list.len() {
                    assert(w.preds.contains_key(c));
                    assert(n.preds[c][i] == w.preds[c][i]);
                } else {
                    assert(n.preds[c][i] == w.reached[k as int]);
                }
            } else {
                assert(w.preds.contains_key(c));
                assert(n.preds[c][i] == w.preds[c][i]);
            }
        }
        assert forall|j: int| 0 < j < n.reached.len() implies n.preds.contains_key(
            #[trigger] n.reached[j],
        ) && n.preds[n.reached[j]].len() > 0 && n.preds[n.reached[j]][0]
            == n.reached[n.parents[j] as int] by {
            if j < w.reached.len() {
                assert(n.reached[j] == w.reached[j]);
                assert(w.preds.contains_key(w.reached[j]));
                assert(w.parents[j] < j);
            } else {
                assert(!w.preds.contains_key(caller));
                assert(old_list.len() == 0);
            }
        }
        assert forall|j: int| 0 < j < n.reached.len() implies (#[trigger] n.parents[j]) < j by {
            if j < w.reached.len() {
                assert(n.parents[j] == w.parents[j]);
            }
        }
    }
}

proof fn lemma_extends_contains(a: Walk, b: Walk, x: Seq<char>)
    requires
        extends(a, b),
        a.reached.contains(x),
    ensures
        b.reached.contains(x),
{
    let i = choose|i: int| 0 <= i < a.reached.len() && a.reached[i] == x;
    assert(b.reached.take(a.reached.len() as int)[i] == x);
    assert(b.reached[i] == x);
}

proof fn lemma_extends_transitive(a: Walk, b: Walk, c: Walk)
    requires
        extends(a, b),
        extends(b, c),
    ensures
        extends(a, c),
{
    let n = a.reached.len() as int;
    assert forall|i: int| 0 <= i < n implies c.reached.take(n)[i] == a.reached[i] by {
        assert(b.reached.take(n)[i] == a.reached[i]);
        assert(c.reached.take(b.reached.len() as int)[i] == b.reached[i]);
    }
    assert(c.reached.take(n) =~= a.reached);
    let m = a.parents.len() as int;
    assert forall|i: int| 0 <= i < m implies c.parents.take(m)[i] == a.parents[i] by {
        assert(b.parents.take(m)[i] == a.parents[i]);
        assert(c.parents.take(b.parents.len() as int)[i] == b.parents[i]);
    }
    assert(c.parents.take(m) =~= a.parents);
}

/// Whether every new node of `n` over `w` calls node number `k` of `w`, which
/// discovered it.
spec fn new_call(es: Seq<EdgeView>, w: Walk, n: Walk, k: nat) -> bool {
    &&& forall|i: int|
        w.reached.len() <= i < n.reached.len() ==> calls(
            es,
            #[trigger] n.reached[i],
            w.reached[k as int],
        )
    &&& forall|i: int| w.parents.len() <= i < n.parents.len() ==> #[trigger] n.parents[i] == k
}

proof fn lemma_see_all(
    es: Seq<EdgeView>,
    target: Seq<char>,
    w: Walk,
    k: nat,
    ins: Seq<EdgeView>,
)
    requires
        sound(es, target, w),
        k < w.reached.len(),
        forall|i: int|
            0 <= i < ins.len() && (#[trigger] ins[i]).kind == EdgeKind::Calls ==> calls(
                es,
                ins[i].from,
                w.reached[k as int],
            ),
    ensures
        sound(es, target, see_all(w, k, ins)),
        extends(w, see_all(w, k, ins)),
        new_call(es, w, see_all(w, k, ins), k),
        forall|i: int|
            0 <= i < ins.len() && (#[trigger] ins[i]).kind == EdgeKind::Calls ==> see_all(
                w,
                k,
                ins,
            ).reached.contains(ins[i].from),
    decreases ins.len(),
{
    if ins.len() == 0 {
        assert(w.reached.take(w.reached.len() as int) =~= w.reached);
        assert(w.parents.take(w.parents.len() as int) =~= w.parents);
    } else {
        let front = ins.drop_last();
        let before = see_all(w, k, front);
        assert forall|i: int|
            0 <= i < front.len() && (#[trigger] front[i]).kind == EdgeKind::Calls implies calls(
            es,
            front[i].from,
            w.reached[k as int],
        ) by {
            assert(front[i] == ins[i]);
        }
        lemma_see_all(es, target, w, k, front);
        let after = see_all(w, k, ins);
        assert(before.reached.take(w.reached.len() as int)[k as int] == w.reached[k as int]);
        assert(before.reached[k as int] == w.reached[k as int]);
        let last = ins[ins.len() - 1];
        assert(ins.last() == last);
        if last.kind == EdgeKind::Calls {
            lemma_see(es, target, before, k, last.from);
            lemma_extends_transitive(w, before, after);
            assert forall|i: int| w.reached.len() <= i < after.reached.len() implies calls(
                es,
                #[trigger] after.reached[i],
                w.reached[k as int],
            ) by {
                if i < before.reached.len() {
                    assert(after.reached.take(before.reached.len() as int)[i]
                        == before.reached[i]);
                    assert(after.reached[i] == before.reached[i]);
                } else {
                    assert(after.reached[i] == last.from);
                }
            }
            assert forall|i: int| w.parents.len() <= i < after.parents.len() implies
                #[trigger] after.parents[i] == k by {
                if i < before.parents.len() {
                    assert(after.parents.take(before.parents.len() as int)[i]
                        == before.parents[i]);
                    assert(after.parents[i] == before.parents[i]);
                }
            }
        }
        assert forall|i: int|
            0 <= i < ins.len() && (#[trigger] ins[i]).kind == EdgeKind::Calls implies
            after.reached.contains(ins[i].from) by {
            if i < front.len() {
                assert(front[i] == ins[i]);
                if last.kind == EdgeKind::Calls {
                    lemma_extends_contains(before, after, ins[i].from);
                }
            }
        }
    }
}

proof fn lemma_edges_in(es: Seq<EdgeView>, id: Seq<char>)
    ensures
        forall|i: int|
            0 <= i < edges_in(es, id).len() ==> (#[trigger] edges_in(es, id)[i]).to == id
                && es.contains(edges_in(es, id)[i]),
        forall|i: int| 0 <= i < es.len() && (#[trigger] es[i]).to == id ==> edges_in(
            es,
            id,
        ).contains(es[i]),
{
    broadcast use vstd::seq_lib::group_filter_ensures;
    let p = |e: EdgeView| e.to == id;
    assert forall|i: int| 0 <= i < es.len() && (#[trigger] es[i]).to == id implies edges_in(
        es,
        id,
    ).contains(es[i]) by {
        assert(p(es[i]));
    }
    assert forall|i: int| 0 <= i < edges_in(es, id).len() implies (#[trigger] edges_in(
        es,
        id,
    )[i]).to == id && es.contains(edges_in(es, id)[i]) by {
        assert(p(edges_in(es, id)[i]));
        assert(edges_in(es, id).contains(edges_in(es, id)[i]));
        es.lemma_filter_contains_rev(p, edges_in(es, id)[i]);
    }
}

proof fn lemma_expand(es: Seq<EdgeView>, target: Seq<char>, w: Walk, k: nat)
    requires
        sound(es, target, w),
        k < w.reached.len(),
    ensures
        sound(es, target, expand(es, w, k)),
        extends(w, expand(es, w, k)),
        new_call(es, w, expand(es, w, k), k),
        forall|x: Seq<char>| #[trigger]
            calls(es, x, w.reached[k as int]) ==> expand(es, w, k).reached.contains(x),
{
    let id = w.reached[k as int];
    let ins = edges_in(es, id);
    lemma_edges_in(es, id);
    assert forall|i: int|
        0 <= i < ins.len() && (#[trigger] ins[i]).kind == EdgeKind::Calls implies calls(
        es,
        ins[i].from,
        id,
    ) by {
        let j = choose|j: int| 0 <= j < es.len() && es[j] == ins[i];
        assert(es[j].to == id);
    }
    lemma_see_all(es, target, w, k, ins);
    assert forall|x: Seq<char>| #[trigger] calls(es, x, id) implies expand(
        es,
        w,
        k,
    ).reached.contains(x) by {
        let j = choose|j: int|
            0 <= j < es.len() && (#[trigger] es[j]).from == x && es[j].to == id && es[j].kind
                == EdgeKind::Calls;
        assert(ins.contains(es[j]));
        let i = choose|i: int| 0 <= i < ins.len() && ins[i] == es[j];
        assert(ins[i].kind == EdgeKind::Calls);
    }
}

/// Whether every node of `w` numbered below `n` has all its callers reached.
spec fn closed_below(es: Seq<EdgeView>, w: Walk, n: nat) -> bool {
    forall|k: int, x: Seq<char>|
        0 <= k < n && k < w.reached.len() && #[trigger] calls(es, x, #[trigger] w.reached[k])
            ==> w.reached.contains(x)
}

proof fn lemma_closed_extends(es: Seq<EdgeView>, a: Walk, b: Walk, n: nat)
    requires
        extends(a, b),
        n <= a.reached.len(),
        closed_below(es, a, n),
    ensures
        closed_below(es, b, n),
{
    assert forall|k: int, x: Seq<char>|
        0 <= k < n && k < b.reached.len() && #[trigger] calls(
            es,
            x,
            #[trigger] b.reached[k],
        ) implies b.reached.contains(x) by {
        assert(b.reached.take(a.reached.len() as int)[k] == a.reached[k]);
        assert(calls(es, x, a.reached[k]));
        lemma_extends_contains(a, b, x);
    }
}

/// The walk is sound in the middle of a round, and keeps what it had reached.
pub proof fn lemma_expand_range_sound(
    es: Seq<EdgeView>,
    target: Seq<char>,
    w: Walk,
    lo: nat,
    hi: nat,
)
    requires
        sound(es, target, w),
        hi <= w.reached.len(),
    ensures
        sound(es, target, expand_range(es, w, lo, hi)),
        extends(w, expand_range(es, w, lo, hi)),
    decreases hi,
{
    if hi <= lo {
        assert(w.reached.take(w.reached.len() as int) =~= w.reached);
        assert(w.parents.take(w.parents.len() as int) =~= w.parents);
    } else {
        let k = (hi - 1) as nat;
        let mid = expand_range(es, w, lo, k);
        lemma_expand_range_sound(es, target, w, lo, k);
        lemma_expand(es, target, mid, k);
        lemma_extends_transitive(w, mid, expand(es, mid, k));
    }
}

proof fn lemma_extends_at(a: Walk, b: Walk, k: int)
    requires
        extends(a, b),
        0 <= k < a.reached.len(),
    ensures
        b.reached[k] == a.reached[k],
{
    assert(b.reached.take(a.reached.len() as int)[k] == a.reached[k]);
}

proof fn lemma_closed_step(es: Seq<EdgeView>, target: Seq<char>, w: Walk, k: nat)
    requires
        sound(es, target, w),
        k < w.reached.len(),
        closed_below(es, w, k),
    ensures
        closed_below(es, expand(es, w, k), k + 1),
{
    let end = expand(es, w, k);
    lemma_expand(es, target, w, k);
    lemma_closed_extends(es, w, end, k);
    lemma_extends_at(w, end, k as int);
    assert forall|j: int, x: Seq<char>|
        0 <= j < k + 1 && j < end.reached.len() && #[trigger] calls(
            es,
            x,
            #[trigger] end.reached[j],
        ) implies end.reached.contains(x) by {
        if j == k {
            assert(calls(es, x, w.reached[k as int]));
        }
    }
}

proof fn lemma_expand_range_closed(
    es: Seq<EdgeView>,
    target: Seq<char>,
    w: Walk,
    lo: nat,
    hi: nat,
)
    requires
        sound(es, target, w),
        lo <= hi <= w.reached.len(),
        closed_below(es, w, lo),
    ensures
        closed_below(es, expand_range(es, w, lo, hi), hi),
    decreases hi,
{
    if lo < hi {
        let k = (hi - 1) as nat;
        lemma_expand_range_closed(es, target, w, lo, k);
        lemma_expand_range_sound(es, target, w, lo, k);
        lemma_closed_step(es, target, expand_range(es, w, lo, k), k);
    }
}

proof fn lemma_expand_range_within(
    es: Seq<EdgeView>,
    target: Seq<char>,
    w: Walk,
    lo: nat,
    hi: nat,
    n: nat,
    i: int,
)
    requires
        sound(es, target, w),
        lo <= hi <= w.reached.len(),
        forall|j: int| 0 <= j < hi ==> within(es, target, #[trigger] w.reached[j], n),
        w.reached.len() <= i < expand_range(es, w, lo, hi).reached.len(),
    ensures
        within(es, target, expand_range(es, w, lo, hi).reached[i], n + 1),
    decreases hi,
{
    if lo < hi {
        let k = (hi - 1) as nat;
        let mid = expand_range(es, w, lo, k);
        lemma_expand_range_sound(es, target, w, lo, k);
        lemma_expand(es, target, mid, k);
        let end = expand(es, mid, k);
        if i < mid.reached.len() {
            lemma_expand_range_within(es, target, w, lo, k, n, i);
            lemma_extends_at(mid, end, i);
        } else {
            lemma_extends_at(w, mid, k as int);
            assert(calls(es, end.reached[i], mid.reached[k as int]));
            lemma_within_step(es, target, end.reached[i], w.reached[k as int], n);
        }
    }
}

proof fn lemma_rounds(es: Seq<EdgeView>, target: Seq<char>, h: nat)
    ensures
        sound(es, target, rounds(es, target, h).0),
        rounds(es, target, h).1 <= rounds(es, target, h).0.reached.len(),
        closed_below(es, rounds(es, target, h).0, rounds(es, target, h).1),
        forall|x: Seq<char>|
            rounds(es, target, h).0.reached.contains(x) <==> #[trigger] within(es, target, x, h),
    decreases h,
{
    let (w, lo) = rounds(es, target, h);
    if h == 0 {
        assert(w.reached[0] == target);
        assert forall|x: Seq<char>| w.reached.contains(x) <==> #[trigger] within(
            es,
            target,
            x,
            h,
        ) by {
            if within(es, target, x, h) {
                assert(w.reached[0] == x);
            }
        }
    } else {
        let m = (h - 1) as nat;
        let (v, mid) = rounds(es, target, m);
        lemma_rounds(es, target, m);
        assert forall|i: int| 0 <= i < v.reached.len() implies within(
            es,
            target,
            #[trigger] v.reached[i],
            m,
        ) by {
            assert(v.reached.contains(v.reached[i]));
        }
        lemma_expand_range_sound(es, target, v, mid, v.reached.len());
        lemma_expand_range_closed(es, target, v, mid, v.reached.len());
        assert forall|x: Seq<char>| w.reached.contains(x) <==> #[trigger] within(
            es,
            target,
            x,
            h,
        ) by {
            if w.reached.contains(x) {
                let i = choose|i: int| 0 <= i < w.reached.len() && w.reached[i] == x;
                if i < v.reached.len() {
                    lemma_extends_at(v, w, i);
                    assert(within(es, target, x, m));
                } else {
                    lemma_expand_range_within(es, target, v, mid, v.reached.len(), m, i);
                }
            }
            if within(es, target, x, h) {
                if within(es, target, x, m) {
                    lemma_extends_contains(v, w, x);
                } else {
                    let y = choose|y: Seq<char>|
                        within(es, target, y, m) && #[trigger] calls(es, x, y);
                    assert(v.reached.contains(y));
                    let k = choose|k: int| 0 <= k < v.reached.len() && v.reached[k] == y;
                    assert(w.reached.take(v.reached.len() as int)[k] == v.reached[k]);
                    assert(calls(es, x, w.reached[k]));
                }
            }
        }
    }
}

// ── Distances ────────────────────────────────────────────────────────────────

/// How many discoveries lie between node number `k` and the target.
pub open spec fn depth(parents: Seq<nat>, k: nat) -> nat
    decreases k,
{
    if parents[k as int] < k {
        depth(parents, parents[k as int]) + 1
    } else {
        0
    }
}

proof fn lemma_depth_prefix(a: Walk, b: Walk, k: nat)
    requires
        extends(a, b),
        k < a.parents.len(),
    ensures
        depth(a.parents, k) == depth(b.parents, k),
    decreases k,
{
    assert(b.parents.take(a.parents.len() as int)[k as int] == a.parents[k as int]);
    if a.parents[k as int] < k {
        lemma_depth_prefix(a, b, a.parents[k as int]);
    }
}

proof fn lemma_expand_range_parents(
    es: Seq<EdgeView>,
    target: Seq<char>,
    w: Walk,
    lo: nat,
    hi: nat,
    i: int,
)
    requires
        sound(es, target, w),
        lo <= hi <= w.reached.len(),
        w.reached.len() <= i < expand_range(es, w, lo, hi).reached.len(),
    ensures
        lo <= expand_range(es, w, lo, hi).parents[i] < hi,
    decreases hi,
{
    if lo < hi {
        let k = (hi - 1) as nat;
        let mid = expand_range(es, w, lo, k);
        lemma_expand_range_sound(es, target, w, lo, k);
        lemma_expand(es, target, mid, k);
        let end = expand(es, mid, k);
        if i < mid.reached.len() {
            lemma_expand_range_parents(es, target, w, lo, k, i);
            assert(end.parents.take(mid.parents.len() as int)[i] == mid.parents[i]);
        }
    }
}

/// The nodes that the last round reached are as many discoveries away as there
/// were rounds, and those from before are fewer.
proof fn lemma_rounds_depth(es: Seq<EdgeView>, target: Seq<char>, h: nat, i: nat)
    requires
        i < rounds(es, target, h).0.reached.len(),
    ensures
        i >= rounds(es, target, h).1 ==> depth(rounds(es, target, h).0.parents, i) == h,
        i < rounds(es, target, h).1 ==> depth(rounds(es, target, h).0.parents, i) < h,
    decreases h,
{
    if h > 0 {
        let m = (h - 1) as nat;
        let (v, mid) = rounds(es, target, m);
        let (w, lo) = rounds(es, target, h);
        lemma_rounds(es, target, m);
        lemma_rounds(es, target, h);
        lemma_expand_range_sound(es, target, v, mid, v.reached.len());
        if i < v.reached.len() {
            lemma_rounds_depth(es, target, m, i);
            lemma_depth_prefix(v, w, i);
        } else {
            lemma_expand_range_parents(es, target, v, mid, v.reached.len(), i as int);
            let p = w.parents[i as int];
            lemma_rounds_depth(es, target, m, p);
            lemma_depth_prefix(v, w, p);
            assert(p < i);
        }
    }
}

proof fn lemma_rounds_extend(es: Seq<EdgeView>, target: Seq<char>, m: nat, h: nat)
    requires
        m <= h,
    ensures
        extends(rounds(es, target, m).0, rounds(es, target, h).0),
    decreases h,
{
    let a = rounds(es, target, m).0;
    if m == h {
        assert(a.reached.take(a.reached.len() as int) =~= a.reached);
        assert(a.parents.take(a.parents.len() as int) =~= a.parents);
    } else {
        let n = (h - 1) as nat;
        let (v, mid) = rounds(es, target, n);
        lemma_rounds_extend(es, target, m, n);
        lemma_rounds(es, target, n);
        lemma_expand_range_sound(es, target, v, mid, v.reached.len());
        lemma_extends_transitive(a, v, rounds(es, target, h).0);
    }
}

proof fn lemma_depth_above(es: Seq<EdgeView>, target: Seq<char>, m: nat, h: nat, i: nat)
    requires
        m < h,
        rounds(es, target, m).0.reached.len() <= i < rounds(es, target, h).0.reached.len(),
    ensures
        depth(rounds(es, target, h).0.parents, i) > m,
    decreases h,
{
    let n = (h - 1) as nat;
    let v = rounds(es, target, n).0;
    if i >= v.reached.len() {
        lemma_rounds_depth(es, target, h, i);
    } else {
        lemma_depth_above(es, target, m, n, i);
        lemma_rounds_extend(es, target, n, h);
        lemma_rounds(es, target, n);
        lemma_depth_prefix(v, rounds(es, target, h).0, i);
    }
}

proof fn lemma_within_more(es: Seq<EdgeView>, target: Seq<char>, x: Seq<char>, m: nat, n: nat)
    requires
        within(es, target, x, m),
        m <= n,
    ensures
        within(es, target, x, n),
    decreases n,
{
    if m < n {
        lemma_within_more(es, target, x, m, (n - 1) as nat);
    }
}

/// The nodes of a walk are as many calls away from the target as discoveries.
pub proof fn lemma_depth_is_distance(
    es: Seq<EdgeView>,
    target: Seq<char>,
    hops: nat,
    i: nat,
    m: nat,
)
    requires
        i < walk(es, target, hops).reached.len(),
    ensures
        within(es, target, walk(es, target, hops).reached[i as int], m) <==> depth(
            walk(es, target, hops).parents,
            i,
        ) <= m,
        depth(walk(es, target, hops).parents, i) <= hops,
{
    let w = walk(es, target, hops);
    let x = w.reached[i as int];
    lemma_rounds(es, target, hops);
    lemma_rounds_depth(es, target, hops, i);
    assert(w.reached.contains(x));
    if m >= hops {
        lemma_within_more(es, target, x, hops, m);
    } else {
        let a = rounds(es, target, m).0;
        lemma_rounds(es, target, m);
        lemma_rounds_extend(es, target, m, hops);
        if within(es, target, x, m) {
            let j = choose|j: int| 0 <= j < a.reached.len() && a.reached[j] == x;
            lemma_extends_at(a, w, j);
            assert(i == j);
            lemma_rounds_depth(es, target, m, i);
            lemma_depth_prefix(a, w, i);
        } else if i < a.reached.len() {
            lemma_extends_at(a, w, i as int);
            assert(a.reached.contains(x));
        } else {
            lemma_depth_above(es, target, m, hops, i);
        }
    }
}

// ── Laws ─────────────────────────────────────────────────────────────────────

/// A walk reaches exactly the nodes that get to the target by at most `hops`
/// calls, the target first and each once. Every recorded predecessor is a
/// reached node that the caller calls, never the caller itself, and the
/// target is recorded as a caller of nothing.
pub proof fn law_walk_reaches(es: Seq<EdgeView>, target: Seq<char>, hops: nat)
    ensures
        sound(es, target, walk(es, target, hops)),
        forall|x: Seq<char>|
            walk(es, target, hops).reached.contains(x) <==> #[trigger] within(
                es,
                target,
                x,
                hops,
            ),
{
    lemma_rounds(es, target, hops);
}

/// Nodes are reached in the order of their distance from the target.
pub proof fn law_reached_by_distance(
    es: Seq<EdgeView>,
    target: Seq<char>,
    hops: nat,
    i: int,
    j: int,
    m: nat,
)
    requires
        0 <= i <= j < walk(es, target, hops).reached.len(),
        within(es, target, walk(es, target, hops).reached[j], m),
    ensures
        within(es, target, walk(es, target, hops).reached[i], m),
{
    let w = walk(es, target, hops);
    lemma_rounds(es, target, hops);
    if m >= hops {
        assert(w.reached.contains(w.reached[i]));
        lemma_within_more(es, target, w.reached[i], hops, m);
    } else {
        let a = rounds(es, target, m).0;
        lemma_rounds(es, target, m);
        lemma_rounds_extend(es, target, m, hops);
        let k = choose|k: int| 0 <= k < a.reached.len() && a.reached[k] == w.reached[j];
        lemma_extends_at(a, w, k);
        assert(k == j);
        lemma_extends_at(a, w, i);
        assert(a.reached.contains(w.reached[i]));
    }
}

/// With fewer hops a walk reaches the same nodes in the same order, up to where
/// it stops.
pub proof fn law_fewer_hops_prefix(es: Seq<EdgeView>, target: Seq<char>, fewer: nat, hops: nat)
    requires
        fewer <= hops,
    ensures
        walk(es, target, fewer).reached.len() <= walk(es, target, hops).reached.len(),
        walk(es, target, hops).reached.take(walk(es, target, fewer).reached.len() as int) == walk(
            es,
            target,
            fewer,
        ).reached,
{
    lemma_rounds_extend(es, target, fewer, hops);
}

// ── Toward the target ────────────────────────────────────────────────────────

/// Whether `n` is fewer calls away from the target than `c`.
pub open spec fn closer(es: Seq<EdgeView>, target: Seq<char>, n: Seq<char>, c: Seq<char>) -> bool {
    exists|m: nat| #[trigger] within(es, target, n, m) && !within(es, target, c, m)
}

/// Of the calls that a walk recorded, those that lead closer to the target.
pub open spec fn toward(
    es: Seq<EdgeView>,
    target: Seq<char>,
    preds: Map<Seq<char>, Seq<Seq<char>>>,
) -> Map<Seq<char>, Seq<Seq<char>>> {
    Map::new(
        |c: Seq<char>| preds.contains_key(c),
        |c: Seq<char>| preds[c].filter(|n: Seq<char>| closer(es, target, n, c)),
    )
}

/// Of two nodes of a walk the one that is fewer discoveries away is closer.
pub proof fn lemma_closer_depth(
    es: Seq<EdgeView>,
    target: Seq<char>,
    hops: nat,
    i: nat,
    j: nat,
)
    requires
        i < walk(es, target, hops).reached.len(),
        j < walk(es, target, hops).reached.len(),
    ensures
        closer(
            es,
            target,
            walk(es, target, hops).reached[i as int],
            walk(es, target, hops).reached[j as int],
        ) <==> depth(walk(es, target, hops).parents, i) < depth(
            walk(es, target, hops).parents,
            j,
        ),
{
    let w = walk(es, target, hops);
    let x = w.reached[i as int];
    let y = w.reached[j as int];
    let d = depth(w.parents, i);
    lemma_depth_is_distance(es, target, hops, i, d);
    lemma_depth_is_distance(es, target, hops, j, d);
    if closer(es, target, x, y) {
        let m = choose|m: nat| #[trigger] within(es, target, x, m) && !within(es, target, y, m);
        lemma_depth_is_distance(es, target, hops, i, m);
        lemma_depth_is_distance(es, target, hops, j, m);
    }
}

proof fn lemma_filter_first(s: Seq<Seq<char>>, f: spec_fn(Seq<char>) -> bool)
    requires
        s.len() > 0,
        f(s[0]),
    ensures
        s.filter(f).len() > 0,
        s.filter(f)[0] == s[0],
    decreases s.len(),
{
    reveal(Seq::filter);
    if s.len() > 1 {
        lemma_filter_first(s.drop_last(), f);
    } else {
        assert(s.drop_last().filter(f) =~= Seq::<Seq<char>>::empty());
    }
}

proof fn lemma_toward_first(es: Seq<EdgeView>, target: Seq<char>, hops: nat, c: Seq<char>)
    requires
        walk(es, target, hops).preds.contains_key(c),
    ensures
        ({
            let w = walk(es, target, hops);
            &&& w.preds[c].len() > 0
            &&& toward(es, target, w.preds)[c].len() > 0
            &&& toward(es, target, w.preds)[c][0] == w.preds[c][0]
        }),
{
    let w = walk(es, target, hops);
    lemma_rounds(es, target, hops);
    let k = choose|k: int| 0 <= k < w.reached.len() && w.reached[k] == c;
    let p = w.parents[k];
    assert(k != 0);
    assert(p < k);
    assert(w.preds[w.reached[k]][0] == w.reached[p as int]);
    lemma_closer_depth(es, target, hops, p, k as nat);
    lemma_filter_first(w.preds[c], |n: Seq<char>| closer(es, target, n, c));
}

/// What is recorded leads to the target, whatever is taken at each node: the
/// callers recorded are the reached nodes but the target, each has at least one
/// entry, and each entry is a reached node that the caller calls and that is
/// one call closer to the target.
pub proof fn law_leads_to_target(
    es: Seq<EdgeView>,
    target: Seq<char>,
    hops: nat,
    c: Seq<char>,
)
    ensures
        ({
            let w = walk(es, target, hops);
            let m = toward(es, target, w.preds);
            &&& m.contains_key(c) <==> w.reached.contains(c) && c != target
            &&& m.contains_key(c) ==> m[c].len() > 0
            &&& forall|i: int|
                m.contains_key(c) && 0 <= i < m[c].len() ==> is_step_closer(
                    es,
                    target,
                    c,
                    #[trigger] m[c][i],
                ) && w.reached.contains(m[c][i])
        }),
{
    let w = walk(es, target, hops);
    let m = toward(es, target, w.preds);
    lemma_rounds(es, target, hops);
    if w.reached.contains(c) && c != target {
        let k = choose|k: int| 0 <= k < w.reached.len() && w.reached[k] == c;
        assert(w.preds.contains_key(w.reached[k]));
    }
    if m.contains_key(c) {
        lemma_toward_first(es, target, hops, c);
        let f = |n: Seq<char>| closer(es, target, n, c);
        let j = choose|j: int| 0 <= j < w.reached.len() && w.reached[j] == c;
        assert forall|i: int| 0 <= i < m[c].len() implies is_step_closer(
            es,
            target,
            c,
            #[trigger] m[c][i],
        ) && w.reached.contains(m[c][i]) by {
            broadcast use vstd::seq_lib::group_filter_ensures;
            let n = m[c][i];
            assert(w.preds[c].filter(f)[i] == n);
            assert(f(n));
            assert(w.preds[c].filter(f).contains(n));
            w.preds[c].lemma_filter_contains_rev(f, n);
            let q = choose|q: int| 0 <= q < w.preds[c].len() && w.preds[c][q] == n;
            assert(calls(es, c, w.preds[c][q]));
            let k = choose|k: int| 0 <= k < w.reached.len() && w.reached[k] == n;
            lemma_closer_depth(es, target, hops, k as nat, j as nat);
            lemma_step_closer(es, target, hops, j as nat, k as nat);
        }
    }
}

/// Whether `c` calls `n`, and `n` is exactly one call closer to the target.
pub open spec fn is_step_closer(
    es: Seq<EdgeView>,
    target: Seq<char>,
    c: Seq<char>,
    n: Seq<char>,
) -> bool {
    &&& calls(es, c, n)
    &&& n != c
    &&& forall|m: nat| #[trigger]
        within(es, target, c, m) <==> m > 0 && within(es, target, n, (m - 1) as nat)
}

proof fn lemma_step_closer(es: Seq<EdgeView>, target: Seq<char>, hops: nat, j: nat, k: nat)
    requires
        j < walk(es, target, hops).reached.len(),
        k < walk(es, target, hops).reached.len(),
        calls(
            es,
            walk(es, target, hops).reached[j as int],
            walk(es, target, hops).reached[k as int],
        ),
        depth(walk(es, target, hops).parents, k) < depth(walk(es, target, hops).parents, j),
    ensures
        is_step_closer(
            es,
            target,
            walk(es, target, hops).reached[j as int],
            walk(es, target, hops).reached[k as int],
        ),
{
    let w = walk(es, target, hops);
    let c = w.reached[j as int];
    let n = w.reached[k as int];
    let d = depth(w.parents, k);
    lemma_depth_is_distance(es, target, hops, k, d);
    lemma_within_step(es, target, c, n, d);
    lemma_depth_is_distance(es, target, hops, j, d + 1);
    lemma_depth_is_distance(es, target, hops, j, d);
    assert(within(es, target, n, d) && !within(es, target, c, d));
    assert(n != c);
    assert(depth(w.parents, j) == d + 1);
    assert forall|m: nat| #[trigger] within(es, target, c, m) <==> m > 0 && within(
        es,
        target,
        n,
        (m - 1) as nat,
    ) by {
        lemma_depth_is_distance(es, target, hops, j, m);
        if m > 0 {
            lemma_depth_is_distance(es, target, hops, k, (m - 1) as nat);
        }
    }
}

// ── All calls are recorded ───────────────────────────────────────────────────

/// Whether `y` is recorded for `c`.
spec fn listed(w: Walk, c: Seq<char>, y: Seq<char>) -> bool {
    w.preds.contains_key(c) && w.preds[c].contains(y)
}

/// Whether what `a` records `b` records too.
spec fn keeps(a: Walk, b: Walk) -> bool {
    forall|c: Seq<char>, y: Seq<char>| #[trigger] listed(a, c, y) ==> listed(b, c, y)
}

/// Whether the call of `x` to node number `k` is recorded or passed over.
spec fn seen_call(w: Walk, k: nat, x: Seq<char>) -> bool {
    x == w.reached[0] || on_path(w.reached, w.parents, k, x) || listed(w, x, w.reached[k as int])
}

/// Whether all calls to nodes numbered below `n` have been looked at.
spec fn seen_below(es: Seq<EdgeView>, w: Walk, n: nat) -> bool {
    forall|k: int, x: Seq<char>|
        0 <= k < n && k < w.reached.len() && #[trigger] calls(es, x, #[trigger] w.reached[k])
            ==> seen_call(w, k as nat, x)
}

proof fn lemma_on_path_prefix(a: Walk, b: Walk, k: nat, x: Seq<char>)
    requires
        extends(a, b),
        a.parents.len() == a.reached.len(),
        k < a.reached.len(),
    ensures
        on_path(a.reached, a.parents, k, x) == on_path(b.reached, b.parents, k, x),
    decreases k,
{
    lemma_extends_at(a, b, k as int);
    assert(b.parents.take(a.parents.len() as int)[k as int] == a.parents[k as int]);
    if a.parents[k as int] < k {
        lemma_on_path_prefix(a, b, a.parents[k as int], x);
    }
}

proof fn lemma_seen_extends(a: Walk, b: Walk, k: nat, x: Seq<char>)
    requires
        extends(a, b),
        keeps(a, b),
        a.parents.len() == a.reached.len(),
        k < a.reached.len(),
        seen_call(a, k, x),
    ensures
        seen_call(b, k, x),
{
    lemma_extends_at(a, b, 0);
    lemma_extends_at(a, b, k as int);
    lemma_on_path_prefix(a, b, k, x);
}

proof fn lemma_see_seen(es: Seq<EdgeView>, target: Seq<char>, w: Walk, k: nat, caller: Seq<char>)
    requires
        sound(es, target, w),
        k < w.reached.len(),
        calls(es, caller, w.reached[k as int]),
    ensures
        keeps(w, see(w, k, caller)),
        seen_call(see(w, k, caller), k, caller),
{
    let n = see(w, k, caller);
    lemma_see(es, target, w, k, caller);
    lemma_extends_at(w, n, 0);
    lemma_extends_at(w, n, k as int);
    if caller != w.reached[0] && !on_path(w.reached, w.parents, k, caller) {
        let had = list_at(w.preds, caller);
        let now = n.preds[caller];
        assert(now == had.push(w.reached[k as int]));
        assert(now[had.len() as int] == w.reached[k as int]);
        assert forall|c: Seq<char>, y: Seq<char>| #[trigger] listed(w, c, y) implies listed(
            n,
            c,
            y,
        ) by {
            if c == caller {
                let i = choose|i: int| 0 <= i < had.len() && had[i] == y;
                assert(now[i] == y);
            }
        }
    } else {
        lemma_on_path_prefix(w, n, k, caller);
    }
}

proof fn lemma_see_all_seen(
    es: Seq<EdgeView>,
    target: Seq<char>,
    w: Walk,
    k: nat,
    ins: Seq<EdgeView>,
)
    requires
        sound(es, target, w),
        k < w.reached.len(),
        forall|i: int|
            0 <= i < ins.len() && (#[trigger] ins[i]).kind == EdgeKind::Calls ==> calls(
                es,
                ins[i].from,
                w.reached[k as int],
            ),
    ensures
        keeps(w, see_all(w, k, ins)),
        forall|i: int|
            0 <= i < ins.len() && (#[trigger] ins[i]).kind == EdgeKind::Calls ==> seen_call(
                see_all(w, k, ins),
                k,
                ins[i].from,
            ),
    decreases ins.len(),
{
    if ins.len() > 0 {
        let front = ins.drop_last();
        let before = see_all(w, k, front);
        let after = see_all(w, k, ins);
        assert forall|i: int|
            0 <= i < front.len() && (#[trigger] front[i]).kind == EdgeKind::Calls implies calls(
            es,
            front[i].from,
            w.reached[k as int],
        ) by {
            assert(front[i] == ins[i]);
        }
        lemma_see_all(es, target, w, k, front);
        lemma_see_all_seen(es, target, w, k, front);
        lemma_extends_at(w, before, k as int);
        let last = ins[ins.len() - 1];
        assert(ins.last() == last);
        if last.kind == EdgeKind::Calls {
            lemma_see(es, target, before, k, last.from);
            lemma_see_seen(es, target, before, k, last.from);
        }
        assert forall|i: int|
            0 <= i < ins.len() && (#[trigger] ins[i]).kind == EdgeKind::Calls implies seen_call(
            after,
            k,
            ins[i].from,
        ) by {
            if i < front.len() {
                assert(front[i] == ins[i]);
                if last.kind == EdgeKind::Calls {
                    lemma_seen_extends(before, after, k, ins[i].from);
                }
            }
        }
    }
}

proof fn lemma_expand_seen(es: Seq<EdgeView>, target: Seq<char>, w: Walk, k: nat)
    requires
        sound(es, target, w),
        k < w.reached.len(),
        seen_below(es, w, k),
    ensures
        keeps(w, expand(es, w, k)),
        seen_below(es, expand(es, w, k), k + 1),
{
    let id = w.reached[k as int];
    let ins = edges_in(es, id);
    let end = expand(es, w, k);
    lemma_edges_in(es, id);
    assert forall|i: int|
        0 <= i < ins.len() && (#[trigger] ins[i]).kind == EdgeKind::Calls implies calls(
        es,
        ins[i].from,
        id,
    ) by {
        let j = choose|j: int| 0 <= j < es.len() && es[j] == ins[i];
        assert(es[j].to == id);
    }
    lemma_see_all(es, target, w, k, ins);
    lemma_see_all_seen(es, target, w, k, ins);
    assert forall|q: int, x: Seq<char>|
        0 <= q < k + 1 && q < end.reached.len() && #[trigger] calls(
            es,
            x,
            #[trigger] end.reached[q],
        ) implies seen_call(end, q as nat, x) by {
        lemma_extends_at(w, end, q);
        if q == k {
            let j = choose|j: int|
                0 <= j < es.len() && (#[trigger] es[j]).from == x && es[j].to == id && es[j].kind
                    == EdgeKind::Calls;
            assert(ins.contains(es[j]));
            let i = choose|i: int| 0 <= i < ins.len() && ins[i] == es[j];
            assert(ins[i].kind == EdgeKind::Calls);
        } else {
            assert(calls(es, x, w.reached[q]));
            lemma_seen_extends(w, end, q as nat, x);
        }
    }
}

proof fn lemma_expand_range_seen(
    es: Seq<EdgeView>,
    target: Seq<char>,
    w: Walk,
    lo: nat,
    hi: nat,
)
    requires
        sound(es, target, w),
        lo <= hi <= w.reached.len(),
        seen_below(es, w, lo),
    ensures
        seen_below(es, expand_range(es, w, lo, hi), hi),
    decreases hi,
{
    if lo < hi {
        let k = (hi - 1) as nat;
        lemma_expand_range_seen(es, target, w, lo, k);
        lemma_expand_range_sound(es, target, w, lo, k);
        lemma_expand_seen(es, target, expand_range(es, w, lo, k), k);
    }
}

proof fn lemma_rounds_seen(es: Seq<EdgeView>, target: Seq<char>, h: nat)
    ensures
        seen_below(es, rounds(es, target, h).0, rounds(es, target, h).1),
    decreases h,
{
    if h > 0 {
        let m = (h - 1) as nat;
        let (v, mid) = rounds(es, target, m);
        lemma_rounds(es, target, m);
        lemma_rounds_seen(es, target, m);
        lemma_expand_range_seen(es, target, v, mid, v.reached.len());
    }
}

proof fn lemma_on_path_depth(
    es: Seq<EdgeView>,
    target: Seq<char>,
    w: Walk,
    k: nat,
    j: nat,
)
    requires
        sound(es, target, w),
        k < w.reached.len(),
        j < w.reached.len(),
        on_path(w.reached, w.parents, k, w.reached[j as int]),
    ensures
        depth(w.parents, j) <= depth(w.parents, k),
    decreases k,
{
    if w.reached[k as int] == w.reached[j as int] {
        assert(k == j);
    } else {
        lemma_on_path_depth(es, target, w, w.parents[k as int], j);
    }
}

proof fn lemma_on_path_below(
    es: Seq<EdgeView>,
    target: Seq<char>,
    w: Walk,
    k: nat,
    j: nat,
)
    requires
        sound(es, target, w),
        k < w.reached.len(),
        j < w.reached.len(),
        j != k,
        on_path(w.reached, w.parents, k, w.reached[j as int]),
    ensures
        depth(w.parents, j) < depth(w.parents, k),
{
    assert(w.reached[k as int] != w.reached[j as int]);
    lemma_on_path_depth(es, target, w, w.parents[k as int], j);
}

/// The calls that a walk records: each is a call of the graph between two
/// functions that get to the target by at most `hops` calls, and the target is
/// the caller of none. No call is left out that leads to a function fewer than
/// `hops` calls away, unless the caller is closer to the target than the
/// function that it calls.
pub proof fn law_walk_records(
    es: Seq<EdgeView>,
    target: Seq<char>,
    hops: nat,
    x: Seq<char>,
    y: Seq<char>,
)
    ensures
        list_at(walk(es, target, hops).preds, x).contains(y) ==> calls(es, x, y) && x != target
            && within(es, target, x, hops) && within(es, target, y, hops),
        calls(es, x, y) && x != target && x != y && hops > 0 && within(
            es,
            target,
            y,
            (hops - 1) as nat,
        ) && !closer(es, target, x, y) ==> list_at(walk(es, target, hops).preds, x).contains(y),
{
    let w = walk(es, target, hops);
    lemma_rounds(es, target, hops);
    if list_at(w.preds, x).contains(y) {
        let i = choose|i: int| 0 <= i < w.preds[x].len() && w.preds[x][i] == y;
        assert(w.reached.contains(w.preds[x][i]));
        assert(w.reached.contains(x));
    }
    if calls(es, x, y) && x != target && x != y && hops > 0 && within(
        es,
        target,
        y,
        (hops - 1) as nat,
    ) && !closer(es, target, x, y) {
        let m = (hops - 1) as nat;
        lemma_within_more(es, target, y, m, hops);
        lemma_within_step(es, target, x, y, m);
        lemma_rounds_seen(es, target, hops);
        let k = choose|k: int| 0 <= k < w.reached.len() && w.reached[k] == y;
        lemma_depth_is_distance(es, target, hops, k as nat, m);
        lemma_rounds_depth(es, target, hops, k as nat);
        assert(k < rounds(es, target, hops).1);
        assert(calls(es, x, w.reached[k]));
        assert(seen_call(w, k as nat, x));
        if on_path(w.reached, w.parents, k as nat, x) {
            lemma_on_path_reached(w, k as nat, x);
            let j = choose|j: int| 0 <= j < w.reached.len() && w.reached[j] == x;
            lemma_on_path_below(es, target, w, k as nat, j as nat);
            lemma_closer_depth(es, target, hops, j as nat, k as nat);
        }
        assert(listed(w, x, y));
    }
}

/// Every call of a reached node to one closer to the target is recorded, so
/// that no branch is lost.
pub proof fn law_all_steps_recorded(
    es: Seq<EdgeView>,
    target: Seq<char>,
    hops: nat,
    c: Seq<char>,
    n: Seq<char>,
)
    requires
        within(es, target, c, hops),
        calls(es, c, n),
        closer(es, target, n, c),
    ensures
        toward(es, target, walk(es, target, hops).preds).contains_key(c),
        toward(es, target, walk(es, target, hops).preds)[c].contains(n),
{
    let w = walk(es, target, hops);
    let f = |y: Seq<char>| closer(es, target, y, c);
    lemma_rounds(es, target, hops);
    lemma_rounds_seen(es, target, hops);
    assert(w.reached.contains(c));
    let m = choose|m: nat| #[trigger] within(es, target, n, m) && !within(es, target, c, m);
    if m >= hops {
        lemma_within_more(es, target, c, hops, m);
    }
    lemma_within_more(es, target, n, m, hops);
    assert(w.reached.contains(n));
    let j = choose|j: int| 0 <= j < w.reached.len() && w.reached[j] == c;
    let k = choose|k: int| 0 <= k < w.reached.len() && w.reached[k] == n;
    lemma_closer_depth(es, target, hops, k as nat, j as nat);
    lemma_rounds_depth(es, target, hops, k as nat);
    lemma_rounds_depth(es, target, hops, j as nat);
    assert(k < rounds(es, target, hops).1);
    assert(calls(es, c, w.reached[k]));
    assert(seen_call(w, k as nat, c));
    if c == target {
        assert(j == 0);
        assert(depth(w.parents, 0) == 0);
    }
    if on_path(w.reached, w.parents, k as nat, c) {
        lemma_on_path_depth(es, target, w, k as nat, j as nat);
    }
    assert(listed(w, c, n));
    broadcast use vstd::seq_lib::group_filter_ensures;
    let i = choose|i: int| 0 <= i < w.preds[c].len() && w.preds[c][i] == n;
    assert(f(w.preds[c][i]));
    assert(w.preds[c].filter(f).contains(w.preds[c][i]));
}

/// A round that reaches nothing new leaves nothing for later rounds.
pub proof fn lemma_rounds_done(es: Seq<EdgeView>, target: Seq<char>, h: nat, more: nat)
    requires
        rounds(es, target, h).1 == rounds(es, target, h).0.reached.len(),
        h <= more,
    ensures
        rounds(es, target, more) == rounds(es, target, h),
    decreases more,
{
    if h < more {
        lemma_rounds_done(es, target, h, (more - 1) as nat);
    }
}

/// The walk is sound at every point of a round.
pub proof fn lemma_rounds_sound(es: Seq<EdgeView>, target: Seq<char>, h: nat)
    ensures
        sound(es, target, rounds(es, target, h).0),
        rounds(es, target, h).1 <= rounds(es, target, h).0.reached.len(),
{
    lemma_rounds(es, target, h);
}

/// The walk is sound in the middle of an expansion.
pub proof fn lemma_see_all_sound(
    es: Seq<EdgeView>,
    target: Seq<char>,
    w: Walk,
    k: nat,
    n: int,
)
    requires
        sound(es, target, w),
        k < w.reached.len(),
        0 <= n <= edges_in(es, w.reached[k as int]).len(),
    ensures
        sound(es, target, see_all(w, k, edges_in(es, w.reached[k as int]).take(n))),
        extends(w, see_all(w, k, edges_in(es, w.reached[k as int]).take(n))),
{
    let id = w.reached[k as int];
    let ins = edges_in(es, id);
    lemma_edges_in(es, id);
    assert forall|i: int|
        0 <= i < ins.take(n).len() && (#[trigger] ins.take(n)[i]).kind
            == EdgeKind::Calls implies calls(es, ins.take(n)[i].from, id) by {
        assert(ins.take(n)[i] == ins[i]);
        let j = choose|j: int| 0 <= j < es.len() && es[j] == ins[i];
        assert(es[j].to == id);
    }
    lemma_see_all(es, target, w, k, ins.take(n));
}

// ── Paths ────────────────────────────────────────────────────────────────────

/// Whether `m` gives `x` a first predecessor.
pub open spec fn has_next(m: Map<Seq<char>, Seq<Seq<char>>>, x: Seq<char>) -> bool {
    m.contains_key(x) && m[x].len() > 0
}

/// Whether `r` is the path from `from` that takes the first predecessor at
/// each node, and ends where there is none or where it would close a cycle.
pub open spec fn first_path(
    m: Map<Seq<char>, Seq<Seq<char>>>,
    from: Seq<char>,
    r: Seq<Seq<char>>,
) -> bool {
    &&& r.len() > 0
    &&& r[0] == from
    &&& r.no_duplicates()
    &&& forall|i: int|
        0 <= i < r.len() - 1 ==> has_next(m, #[trigger] r[i]) && r[i + 1] == m[r[i]][0]
    &&& has_next(m, r.last()) ==> r.contains(m[r.last()][0])
}

/// There is only one such path.
pub proof fn law_first_path_unique(
    m: Map<Seq<char>, Seq<Seq<char>>>,
    from: Seq<char>,
    a: Seq<Seq<char>>,
    b: Seq<Seq<char>>,
)
    requires
        first_path(m, from, a),
        first_path(m, from, b),
    ensures
        a == b,
{
    let n = if a.len() <= b.len() {
        a.len() as int
    } else {
        b.len() as int
    };
    lemma_first_path_agree(m, from, a, b, n);
    if a.len() < b.len() {
        lemma_first_path_shorter(m, from, a, b);
    } else if b.len() < a.len() {
        assert forall|i: int| 0 <= i < n implies b[i] == a[i] by {}
        lemma_first_path_shorter(m, from, b, a);
    }
    assert(a =~= b);
}

proof fn lemma_first_path_agree(
    m: Map<Seq<char>, Seq<Seq<char>>>,
    from: Seq<char>,
    a: Seq<Seq<char>>,
    b: Seq<Seq<char>>,
    n: int,
)
    requires
        first_path(m, from, a),
        first_path(m, from, b),
        1 <= n <= a.len(),
        n <= b.len(),
    ensures
        forall|i: int| 0 <= i < n ==> a[i] == b[i],
    decreases n,
{
    if n > 1 {
        lemma_first_path_agree(m, from, a, b, n - 1);
        assert(a[n - 2] == b[n - 2]);
        assert(a[(n - 2) + 1] == m[a[n - 2]][0]);
        assert(b[(n - 2) + 1] == m[b[n - 2]][0]);
    }
}

proof fn lemma_first_path_shorter(
    m: Map<Seq<char>, Seq<Seq<char>>>,
    from: Seq<char>,
    a: Seq<Seq<char>>,
    b: Seq<Seq<char>>,
)
    requires
        first_path(m, from, a),
        first_path(m, from, b),
        a.len() <= b.len(),
        forall|i: int| 0 <= i < a.len() ==> a[i] == b[i],
    ensures
        a.len() == b.len(),
{
    if a.len() < b.len() {
        let k = a.len() - 1;
        assert(has_next(m, b[k]) && b[k + 1] == m[b[k]][0]);
        assert(a.last() == b[k]);
        let j = choose|j: int| 0 <= j < a.len() && a[j] == m[a.last()][0];
        assert(b[j] == b[k + 1]);
    }
}

/// The number of a reached node.
spec fn number(w: Walk, x: Seq<char>) -> int {
    choose|k: int| 0 <= k < w.reached.len() && w.reached[k] == x
}

proof fn lemma_first_path_descends(
    es: Seq<EdgeView>,
    target: Seq<char>,
    w: Walk,
    from: Seq<char>,
    r: Seq<Seq<char>>,
    i: int,
)
    requires
        sound(es, target, w),
        w.reached.contains(from),
        first_path(w.preds, from, r),
        0 <= i < r.len(),
    ensures
        w.reached.contains(r[i]),
        i > 0 ==> number(w, r[i]) < number(w, r[i - 1]),
        i > 0 ==> calls(es, r[i - 1], r[i]),
        forall|j: int| 0 <= j < i ==> number(w, r[i]) < number(w, #[trigger] r[j]),
    decreases i,
{
    if i > 0 {
        lemma_first_path_descends(es, target, w, from, r, i - 1);
        let x = r[i - 1];
        assert(has_next(w.preds, x) && r[(i - 1) + 1] == w.preds[x][0]);
        let k = number(w, x);
        assert(0 <= k < w.reached.len() && w.reached[k] == x);
        assert(x != target);
        assert(k != 0);
        let p = w.parents[k] as int;
        assert(w.preds[w.reached[k]][0] == w.reached[p]);
        assert(p < k);
        assert(r[i] == w.reached[p]);
        assert(w.reached.contains(r[i]));
        let q = number(w, r[i]);
        assert(w.reached[q] == w.reached[p]);
        assert(q == p);
    }
}

proof fn lemma_first_path_reaches_target(
    es: Seq<EdgeView>,
    target: Seq<char>,
    hops: nat,
    from: Seq<char>,
    r: Seq<Seq<char>>,
)
    requires
        walk(es, target, hops).reached.contains(from),
        first_path(walk(es, target, hops).preds, from, r),
    ensures
        r.last() == target,
        forall|i: int| 0 <= i < r.len() - 1 ==> #[trigger] calls(es, r[i], r[i + 1]),
{
    let w = walk(es, target, hops);
    lemma_rounds(es, target, hops);
    assert forall|i: int| 0 <= i < r.len() - 1 implies #[trigger] calls(es, r[i], r[i + 1]) by {
        lemma_first_path_descends(es, target, w, from, r, i + 1);
    }
    let last = r.len() - 1;
    lemma_first_path_descends(es, target, w, from, r, last);
    if r.last() != target {
        let k = number(w, r.last());
        assert(0 <= k < w.reached.len() && w.reached[k] == r.last());
        let p = w.parents[k] as int;
        assert(p < k);
        let next = w.preds[w.reached[k]][0];
        assert(next == w.reached[p]);
        assert(has_next(w.preds, r.last()));
        let j = choose|j: int| 0 <= j < r.len() && r[j] == next;
        assert(w.reached.contains(next));
        let q = number(w, next);
        assert(w.reached[q] == w.reached[p]);
        assert(q == p);
        if j < last {
            assert(number(w, r[last]) < number(w, r[j]));
        }
    }
}

proof fn lemma_first_path_toward(
    es: Seq<EdgeView>,
    target: Seq<char>,
    hops: nat,
    from: Seq<char>,
    r: Seq<Seq<char>>,
)
    requires
        first_path(toward(es, target, walk(es, target, hops).preds), from, r),
    ensures
        first_path(walk(es, target, hops).preds, from, r),
{
    let w = walk(es, target, hops);
    let m = toward(es, target, w.preds);
    assert forall|i: int| 0 <= i < r.len() - 1 implies has_next(w.preds, #[trigger] r[i]) && r[i
        + 1] == w.preds[r[i]][0] by {
        assert(has_next(m, r[i]));
        lemma_toward_first(es, target, hops, r[i]);
    }
    if has_next(w.preds, r.last()) {
        lemma_toward_first(es, target, hops, r.last());
        assert(has_next(m, r.last()));
    }
}

/// Along a path of first predecessors each node is one discovery closer.
proof fn lemma_first_path_depth(
    es: Seq<EdgeView>,
    target: Seq<char>,
    w: Walk,
    from: Seq<char>,
    r: Seq<Seq<char>>,
    i: int,
)
    requires
        sound(es, target, w),
        w.reached.contains(from),
        first_path(w.preds, from, r),
        0 <= i < r.len(),
    ensures
        depth(w.parents, number(w, r[i]) as nat) + i == depth(
            w.parents,
            number(w, from) as nat,
        ),
    decreases i,
{
    if i > 0 {
        lemma_first_path_depth(es, target, w, from, r, i - 1);
        lemma_first_path_descends(es, target, w, from, r, i - 1);
        let x = r[i - 1];
        assert(has_next(w.preds, x) && r[(i - 1) + 1] == w.preds[x][0]);
        let k = number(w, x);
        assert(0 <= k < w.reached.len() && w.reached[k] == x);
        assert(k != 0);
        let p = w.parents[k] as int;
        assert(p < k);
        assert(w.preds[w.reached[k]][0] == w.reached[p]);
        assert(w.reached.contains(r[i]));
        let q = number(w, r[i]);
        assert(w.reached[q] == w.reached[p]);
        assert(q == p);
    }
}

/// From every node that a walk reached, the path of first predecessors leads
/// to the target, each node of it calling the next, and there is no shorter
/// way.
pub proof fn law_first_path_shortest(
    es: Seq<EdgeView>,
    target: Seq<char>,
    hops: nat,
    from: Seq<char>,
    r: Seq<Seq<char>>,
)
    requires
        walk(es, target, hops).reached.contains(from),
        first_path(toward(es, target, walk(es, target, hops).preds), from, r),
    ensures
        r.last() == target,
        forall|i: int| 0 <= i < r.len() - 1 ==> #[trigger] calls(es, r[i], r[i + 1]),
        forall|m: nat| #[trigger] within(es, target, from, m) <==> r.len() <= m + 1,
{
    let w = walk(es, target, hops);
    lemma_rounds(es, target, hops);
    lemma_first_path_toward(es, target, hops, from, r);
    lemma_first_path_reaches_target(es, target, hops, from, r);
    lemma_first_path_depth(es, target, w, from, r, r.len() - 1);
    let k = number(w, from);
    let z = number(w, target);
    assert(w.reached[0] == target);
    assert(w.reached.contains(target));
    assert(w.reached[z] == w.reached[0] && z == 0);
    assert(depth(w.parents, 0) == 0);
    assert forall|m: nat| #[trigger] within(es, target, from, m) <==> r.len() <= m + 1 by {
        lemma_depth_is_distance(es, target, hops, k as nat, m);
    }
}

} // verus!
