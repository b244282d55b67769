//! Texts that are made of one piece for each element of a list.

use crate::chars::{dec, push_decimal};
use crate::keys::{is_tally, occurrences, tally, tally_keys};
use crate::render::util::{id_text, mermaid_id};
use crate::text::str_eq;
use vstd::prelude::*;
use vstd::string::*;

verus! {

/// The pieces that `f` makes of the elements of `s`, one after the other.
pub open spec fn lines<V>(s: Seq<V>, f: spec_fn(V) -> Seq<char>) -> Seq<char>
    decreases s.len(),
{
    if s.len() == 0 {
        Seq::empty()
    } else {
        lines(s.drop_last(), f) + f(s.last())
    }
}

/// One more element adds one more piece.
pub proof fn lemma_lines_step<V>(s: Seq<V>, f: spec_fn(V) -> Seq<char>, i: int)
    requires
        0 <= i < s.len(),
    ensures
        lines(s.take(i + 1), f) == lines(s.take(i), f) + f(s[i]),
        s.take(0) == Seq::<V>::empty(),
        s.take(s.len() as int) == s,
{
    assert(s.take(i + 1).drop_last() =~= s.take(i));
    assert(s.take(0) =~= Seq::<V>::empty());
    assert(s.take(s.len() as int) =~= s);
}

/// A list of calls between two places, each with the label `unit` behind their
/// number. Places that share a node id are not connected.
pub open spec fn call_line(
    calls: Seq<(Seq<char>, Seq<char>)>,
    unit: Seq<char>,
) -> spec_fn((Seq<char>, Seq<char>)) -> Seq<char> {
    |pair: (Seq<char>, Seq<char>)|
        if id_text(pair.0) == id_text(pair.1) {
            Seq::empty()
        } else {
            "    "@ + id_text(pair.0) + " -->|\""@ + dec(occurrences(calls, pair)) + unit + "\"| "@
                + id_text(pair.1) + "\n"@
        }
}

/// Appends one line for each pair of places that calls connect.
pub fn push_call_lines(out: &mut String, calls: &Vec<(String, String)>, unit: &str)
    ensures
        final(out)@ == old(out)@ + lines(
            crate::keys::sorted_keys::<(String, String)>(calls.deep_view()),
            call_line(calls.deep_view(), unit@),
        ),
{
    let ghost had = out@;
    let ghost cs = calls.deep_view();
    let ghost f = call_line(cs, unit@);
    let t = tally(calls);
    let ghost ks = tally_keys(t@);
    let mut i: usize = 0;
    assert(ks.take(0) =~= Seq::<(Seq<char>, Seq<char>)>::empty());
    assert(out@ =~= had + Seq::<char>::empty());
    while i < t.len()
        invariant
            i <= t.len(),
            cs == calls.deep_view(),
            ks == tally_keys(t@),
            is_tally(t@, cs),
            f == call_line(cs, unit@),
            out@ == had + lines(ks.take(i as int), f),
        decreases t.len() - i,
    {
        let ghost before = out@;
        let ghost pair = ks[i as int];
        proof {
            lemma_lines_step(ks, f, i as int);
            assert(pair == t[i as int].0.deep_view());
            assert(t[i as int].1 == occurrences(cs, pair));
        }
        let from_id = mermaid_id(t[i].0.0.as_str());
        let to_id = mermaid_id(t[i].0.1.as_str());
        if !str_eq(from_id.as_str(), to_id.as_str()) {
            out.append("    ");
            out.append(from_id.as_str());
            out.append(" -->|\"");
            push_decimal(out, t[i].1 as u64);
            out.append(unit);
            out.append("\"| ");
            out.append(to_id.as_str());
            out.append("\n");
            assert(out@ =~= before + f(pair));
        } else {
            assert(out@ =~= before + f(pair));
        }
        i += 1;
        assert(out@ =~= had + lines(ks.take(i as int), f));
    }
    assert(ks.take(t.len() as int) =~= ks);
}

} // verus!
