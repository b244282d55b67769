//! What call sites say of how the calls are made: the control flow around them
//! and their order.

use crate::call_flags::{AWAIT, CONDITIONAL, REPEATED};
use crate::model::CallSiteView;
use crate::parser::calls::{
    flag_of, flags_above, is_function, rank_of, site_at, sites_below, sites_in, CallsView,
};
use crate::parser::scope::ScopeView;
use crate::parser::tree::{end_of, parent_of, NodeView};
use crate::parser::treesitter::Grammar;
use vstd::prelude::*;

verus! {

// ── Control flow ─────────────────────────────────────────────────────────────

/// Whether a node is an ancestor of another, a number of steps above it, with all
/// nodes on the way in the body of one function below `top`.
pub open spec fn encloses(t: Seq<NodeView>, top: int, p: int, j: int, n: nat) -> bool
    decreases n,
{
    if n == 0 {
        p == j
    } else {
        match parent_of(t, j) {
            Some(q) => 0 <= q < j && q > top && !is_function(t[q].kind) && encloses(
                t,
                top,
                p,
                q,
                (n - 1) as nat,
            ),
            None => false,
        }
    }
}

/// Whether a node waits for what is in it.
pub open spec fn awaits(kind: Seq<char>) -> bool {
    kind == "await_expression"@ || kind == "await"@
}

/// Whether a node chooses between its parts.
pub open spec fn chooses(kind: Seq<char>) -> bool {
    ||| kind == "if_expression"@
    ||| kind == "if_statement"@
    ||| kind == "match_expression"@
    ||| kind == "match_statement"@
    ||| kind == "switch_expression"@
    ||| kind == "switch_statement"@
    ||| kind == "conditional_expression"@
}

/// Whether a node repeats its parts.
pub open spec fn repeats(kind: Seq<char>) -> bool {
    ||| kind == "for_expression"@
    ||| kind == "for_statement"@
    ||| kind == "while_expression"@
    ||| kind == "while_statement"@
    ||| kind == "loop_expression"@
    ||| kind == "do_statement"@
}

proof fn lemma_flag_of(kind: Seq<char>)
    ensures
        flag_of(kind) & 1 != 0 <==> awaits(kind),
        flag_of(kind) & 2 != 0 <==> chooses(kind),
        flag_of(kind) & 4 != 0 <==> repeats(kind),
{
    reveal_strlit("await_expression");
    reveal_strlit("await");
    reveal_strlit("if_expression");
    reveal_strlit("if_statement");
    reveal_strlit("match_expression");
    reveal_strlit("match_statement");
    reveal_strlit("switch_expression");
    reveal_strlit("switch_statement");
    reveal_strlit("conditional_expression");
    reveal_strlit("for_expression");
    reveal_strlit("for_statement");
    reveal_strlit("while_expression");
    reveal_strlit("while_statement");
    reveal_strlit("loop_expression");
    reveal_strlit("do_statement");
    assert("await_expression"@[0] == 'a' && "await"@[0] == 'a');
    assert("if_expression"@[0] == 'i' && "if_statement"@[0] == 'i' && "match_expression"@[0] == 'm'
        && "match_statement"@[0] == 'm' && "switch_expression"@[0] == 's' && "switch_statement"@[0]
        == 's' && "conditional_expression"@[0] == 'c');
    assert("for_expression"@[0] == 'f' && "for_statement"@[0] == 'f' && "while_expression"@[0] == 'w'
        && "while_statement"@[0] == 'w' && "loop_expression"@[0] == 'l' && "do_statement"@[0]
        == 'd');
    assert(1u8 & 1 != 0 && 1u8 & 2 == 0 && 1u8 & 4 == 0) by (bit_vector);
    assert(2u8 & 1 == 0 && 2u8 & 2 != 0 && 2u8 & 4 == 0) by (bit_vector);
    assert(4u8 & 1 == 0 && 4u8 & 2 == 0 && 4u8 & 4 != 0) by (bit_vector);
    assert(0u8 & 1 == 0 && 0u8 & 2 == 0 && 0u8 & 4 == 0) by (bit_vector);
}

proof fn lemma_or(a: u8, b: u8)
    ensures
        (a | b) & 1 != 0 <==> a & 1 != 0 || b & 1 != 0,
        (a | b) & 2 != 0 <==> a & 2 != 0 || b & 2 != 0,
        (a | b) & 4 != 0 <==> a & 4 != 0 || b & 4 != 0,
{
    assert((a | b) & 1 != 0 <==> a & 1 != 0 || b & 1 != 0) by (bit_vector);
    assert((a | b) & 2 != 0 <==> a & 2 != 0 || b & 2 != 0) by (bit_vector);
    assert((a | b) & 4 != 0 <==> a & 4 != 0 || b & 4 != 0) by (bit_vector);
}

/// A call is marked as awaited, conditional or repeated where a node of its
/// function that waits, chooses or repeats encloses it.
pub proof fn law_flags_set(t: Seq<NodeView>, top: int, p: int, j: int, n: nat)
    requires
        encloses(t, top, p, j, n),
        n > 0,
    ensures
        awaits(t[p].kind) ==> flags_above(t, top, j) & AWAIT != 0,
        chooses(t[p].kind) ==> flags_above(t, top, j) & CONDITIONAL != 0,
        repeats(t[p].kind) ==> flags_above(t, top, j) & REPEATED != 0,
    decreases n,
{
    let q = parent_of(t, j)->0;
    assert(encloses(t, top, p, q, (n - 1) as nat));
    lemma_flag_of(t[q].kind);
    lemma_or(flag_of(t[q].kind), flags_above(t, top, q));
    if n > 1 {
        law_flags_set(t, top, p, q, (n - 1) as nat);
    }
}

/// Whether some node of the function that encloses a node waits.
pub open spec fn some_awaits(t: Seq<NodeView>, top: int, j: int) -> bool {
    exists|p: int, n: nat| n > 0 && #[trigger] encloses(t, top, p, j, n) && awaits(t[p].kind)
}

/// Whether one chooses.
pub open spec fn some_chooses(t: Seq<NodeView>, top: int, j: int) -> bool {
    exists|p: int, n: nat| n > 0 && #[trigger] encloses(t, top, p, j, n) && chooses(t[p].kind)
}

/// Whether one repeats.
pub open spec fn some_repeats(t: Seq<NodeView>, top: int, j: int) -> bool {
    exists|p: int, n: nat| n > 0 && #[trigger] encloses(t, top, p, j, n) && repeats(t[p].kind)
}

/// A call is marked so only there.
pub proof fn law_flags_only(t: Seq<NodeView>, top: int, j: int)
    ensures
        flags_above(t, top, j) & AWAIT != 0 ==> some_awaits(t, top, j),
        flags_above(t, top, j) & CONDITIONAL != 0 ==> some_chooses(t, top, j),
        flags_above(t, top, j) & REPEATED != 0 ==> some_repeats(t, top, j),
    decreases j,
{
    assert(0u8 & 1 == 0 && 0u8 & 2 == 0 && 0u8 & 4 == 0) by (bit_vector);
    if let Some(q) = parent_of(t, j) {
        if 0 <= q < j && q > top && !is_function(t[q].kind) {
            lemma_flag_of(t[q].kind);
            lemma_or(flag_of(t[q].kind), flags_above(t, top, q));
            law_flags_only(t, top, q);
            assert(encloses(t, top, q, q, 0));
            assert(encloses(t, top, q, j, 1));
            if some_awaits(t, top, q) {
                let (p, n) = choose|p: int, n: nat|
                    n > 0 && #[trigger] encloses(t, top, p, q, n) && awaits(t[p].kind);
                assert(encloses(t, top, p, j, n + 1));
            }
            if some_chooses(t, top, q) {
                let (p, n) = choose|p: int, n: nat|
                    n > 0 && #[trigger] encloses(t, top, p, q, n) && chooses(t[p].kind);
                assert(encloses(t, top, p, j, n + 1));
            }
            if some_repeats(t, top, q) {
                let (p, n) = choose|p: int, n: nat|
                    n > 0 && #[trigger] encloses(t, top, p, q, n) && repeats(t[p].kind);
                assert(encloses(t, top, p, j, n + 1));
            }
        }
    }
}

// ── Sites ────────────────────────────────────────────────────────────────────

/// The sites of a list that a node is in: those through a receiver, or the
/// others.
pub open spec fn sites_of(c: CallsView, method: bool) -> Seq<CallSiteView> {
    if method {
        c.method_calls
    } else {
        c.calls
    }
}

proof fn lemma_site_stays(
    grammar: Grammar,
    t: Seq<NodeView>,
    src: Seq<char>,
    s: ScopeView,
    limit: nat,
    top: int,
    hi: int,
    method: bool,
)
    requires
        top < hi,
    ensures
        ({
            let rest = sites_of(sites_below(grammar, t, src, s, limit, top, hi - 1), method);
            let all = sites_of(sites_below(grammar, t, src, s, limit, top, hi), method);
            rest.len() <= all.len() && forall|k: int|
                0 <= k < rest.len() ==> #[trigger] all[k] == rest[k]
        }),
{
}

/// Each callee has a site of its own, with the marks of the node and the number
/// of the callees before it: callees further down the file have higher ranks.
pub proof fn law_site_of_node(
    grammar: Grammar,
    t: Seq<NodeView>,
    src: Seq<char>,
    s: ScopeView,
    limit: nat,
    top: int,
    hi: int,
    j: int,
) -> (k: int)
    requires
        top <= j < hi,
        site_at(grammar, t, src, s, j, limit) is Some,
    ensures
        ({
            let (method, name) = site_at(grammar, t, src, s, j, limit)->0;
            let list = sites_of(sites_below(grammar, t, src, s, limit, top, hi), method);
            let before = sites_below(grammar, t, src, s, limit, top, j);
            &&& 0 <= k < list.len()
            &&& list[k].name == name
            &&& list[k].flags == flags_above(t, top, j)
            &&& list[k].rank == rank_of(before.calls.len() + before.method_calls.len())
        }),
    decreases hi - j,
{
    let (method, name) = site_at(grammar, t, src, s, j, limit)->0;
    if j == hi - 1 {
        sites_of(sites_below(grammar, t, src, s, limit, top, j), method).len() as int
    } else {
        lemma_site_stays(grammar, t, src, s, limit, top, hi, method);
        law_site_of_node(grammar, t, src, s, limit, top, hi - 1, j)
    }
}

/// The later of two callees has the higher rank, as far as ranks go.
pub proof fn law_ranks_in_order(
    grammar: Grammar,
    t: Seq<NodeView>,
    src: Seq<char>,
    s: ScopeView,
    limit: nat,
    top: int,
    i: int,
    j: int,
)
    requires
        top <= i < j,
        site_at(grammar, t, src, s, i, limit) is Some,
    ensures
        ({
            let a = sites_below(grammar, t, src, s, limit, top, i);
            let b = sites_below(grammar, t, src, s, limit, top, j);
            &&& a.calls.len() + a.method_calls.len() < b.calls.len() + b.method_calls.len()
            &&& b.calls.len() + b.method_calls.len() <= 0xffff ==> rank_of(
                a.calls.len() + a.method_calls.len(),
            ) < rank_of(b.calls.len() + b.method_calls.len())
        }),
    decreases j - i,
{
    if i < j - 1 {
        law_ranks_in_order(grammar, t, src, s, limit, top, i, j - 1);
        lemma_site_stays(grammar, t, src, s, limit, top, j, true);
        lemma_site_stays(grammar, t, src, s, limit, top, j, false);
    }
}

/// A callee in a body that a node of the body encloses has a site with its name
/// that is marked after the node.
pub proof fn law_marked_sites(
    grammar: Grammar,
    t: Seq<NodeView>,
    src: Seq<char>,
    s: ScopeView,
    limit: nat,
    top: int,
    p: int,
    j: int,
    n: nat,
)
    requires
        top <= j < end_of(t, top),
        site_at(grammar, t, src, s, j, limit) is Some,
        encloses(t, top, p, j, n),
        n > 0,
    ensures
        ({
            let (method, name) = site_at(grammar, t, src, s, j, limit)->0;
            let list = sites_of(sites_in(grammar, t, src, s, limit, top), method);
            exists|k: int|
                0 <= k < list.len() && (#[trigger] list[k]).name == name && (awaits(t[p].kind)
                    ==> list[k].flags & AWAIT != 0) && (chooses(t[p].kind) ==> list[k].flags
                    & CONDITIONAL != 0) && (repeats(t[p].kind) ==> list[k].flags & REPEATED != 0)
        }),
{
    law_flags_set(t, top, p, j, n);
    let k = law_site_of_node(grammar, t, src, s, limit, top, end_of(t, top), j);
    let method = (site_at(grammar, t, src, s, j, limit)->0).0;
    let list = sites_of(sites_in(grammar, t, src, s, limit, top), method);
    assert(list[k].flags == flags_above(t, top, j));
}

} // verus!
