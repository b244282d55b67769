//! Syntax trees as plain values.
//!
//! A tree is the list of its nodes in pre-order, each with its depth. A node's
//! subtree is the run of deeper nodes after it, and its children are the nodes
//! of that run exactly one level deeper. Nothing here recurses, so the depth
//! of the source text does not matter.

use crate::model::clone_opt;
use crate::text::str_eq;
use vstd::prelude::*;
use vstd::string::*;
use vstd::utf8::*;

verus! {

// ── Nodes ────────────────────────────────────────────────────────────────────

/// One node of a syntax tree.
#[derive(Debug)]
pub struct SyntaxNode {
    /// Grammar kind, such as `function_item`.
    pub kind: String,
    /// Name of the field under which the parent holds the node.
    pub field: Option<String>,
    /// Distance from the root.
    pub depth: u32,
    /// Byte offsets of the node's text in the source.
    pub start_byte: usize,
    pub end_byte: usize,
    /// Zero-based rows of the node's first and last character.
    pub start_row: usize,
    pub end_row: usize,
}

/// What a [`SyntaxNode`] holds.
#[verifier::ext_equal]
pub struct NodeView {
    pub kind: Seq<char>,
    pub field: Option<Seq<char>>,
    pub depth: u32,
    pub start_byte: usize,
    pub end_byte: usize,
    pub start_row: usize,
    pub end_row: usize,
}

impl DeepView for SyntaxNode {
    type V = NodeView;

    open spec fn deep_view(&self) -> NodeView {
        NodeView {
            kind: self.kind@,
            field: self.field.deep_view(),
            depth: self.depth,
            start_byte: self.start_byte,
            end_byte: self.end_byte,
            start_row: self.start_row,
            end_row: self.end_row,
        }
    }
}

impl Clone for SyntaxNode {
    fn clone(&self) -> (r: Self)
        ensures
            r.deep_view() == self.deep_view(),
    {
        SyntaxNode {
            kind: self.kind.clone(),
            field: clone_opt(&self.field),
            depth: self.depth,
            start_byte: self.start_byte,
            end_byte: self.end_byte,
            start_row: self.start_row,
            end_row: self.end_row,
        }
    }
}

// ── Structure ────────────────────────────────────────────────────────────────

/// Whether `t` is the pre-order of a tree: the root first, at depth 0, and no
/// node more than one level below the one before it.
pub open spec fn nested(t: Seq<NodeView>) -> bool {
    &&& t.len() > 0
    &&& t[0].depth == 0
    &&& forall|i: int| 0 < i < t.len() ==> 1 <= (#[trigger] t[i]).depth <= t[i - 1].depth + 1
}

/// The first position from `j` on whose node is at most `d` deep.
pub open spec fn run_end(t: Seq<NodeView>, d: u32, j: int) -> int
    decreases t.len() - j,
{
    if j >= t.len() || t[j].depth <= d {
        j
    } else {
        run_end(t, d, j + 1)
    }
}

/// The position after the subtree of node `i`.
pub open spec fn end_of(t: Seq<NodeView>, i: int) -> int {
    run_end(t, t[i].depth, i + 1)
}

/// Whether node `j` is a child of node `i`.
pub open spec fn is_child(t: Seq<NodeView>, i: int, j: int) -> bool {
    i < j < end_of(t, i) && t[j].depth == t[i].depth + 1
}

/// The children of node `i` below position `hi`, in order.
pub open spec fn children_below(t: Seq<NodeView>, i: int, hi: int) -> Seq<int>
    decreases hi - i,
{
    if hi <= i + 1 {
        Seq::empty()
    } else {
        let rest = children_below(t, i, hi - 1);
        if is_child(t, i, hi - 1) {
            rest.push(hi - 1)
        } else {
            rest
        }
    }
}

/// The children of node `i`, in order.
pub open spec fn children(t: Seq<NodeView>, i: int) -> Seq<int> {
    children_below(t, i, end_of(t, i))
}

/// The first child of node `i` at or after position `j` that is held under
/// the field `name`.
pub open spec fn field_from(t: Seq<NodeView>, i: int, name: Seq<char>, j: int) -> Option<int>
    decreases t.len() - j,
{
    if j >= t.len() || j >= end_of(t, i) {
        None
    } else if is_child(t, i, j) && t[j].field == Some(name) {
        Some(j)
    } else {
        field_from(t, i, name, j + 1)
    }
}

/// The first child of node `i` that is held under the field `name`.
pub open spec fn field_of(t: Seq<NodeView>, i: int, name: Seq<char>) -> Option<int> {
    field_from(t, i, name, i + 1)
}

/// The last position before `j` whose node is less than `d` deep.
pub open spec fn above(t: Seq<NodeView>, d: u32, j: int) -> Option<int>
    decreases j,
{
    if j <= 0 {
        None
    } else if t[j - 1].depth < d {
        Some(j - 1)
    } else {
        above(t, d, j - 1)
    }
}

/// The parent of node `j`.
pub open spec fn parent_of(t: Seq<NodeView>, j: int) -> Option<int> {
    above(t, t[j].depth, j)
}

/// A run ends at or after its start, inside the tree, and is deeper than `d`
/// all along.
pub proof fn lemma_run_end(t: Seq<NodeView>, d: u32, j: int)
    requires
        0 <= j <= t.len(),
    ensures
        j <= run_end(t, d, j) <= t.len(),
        forall|k: int| j <= k < run_end(t, d, j) ==> (#[trigger] t[k]).depth > d,
        run_end(t, d, j) < t.len() ==> t[run_end(t, d, j)].depth <= d,
    decreases t.len() - j,
{
    if j < t.len() && t[j].depth > d {
        lemma_run_end(t, d, j + 1);
    }
}

pub proof fn lemma_run_end_is(t: Seq<NodeView>, d: u32, j: int, e: int)
    requires
        0 <= j <= e <= t.len(),
        forall|k: int| j <= k < e ==> (#[trigger] t[k]).depth > d,
        e < t.len() ==> t[e].depth <= d,
    ensures
        run_end(t, d, j) == e,
    decreases e - j,
{
    if j < e {
        assert(t[j].depth > d);
        lemma_run_end_is(t, d, j + 1, e);
    }
}

/// A subtree ends after its root and inside the tree.
pub proof fn lemma_end_of(t: Seq<NodeView>, i: int)
    requires
        0 <= i < t.len(),
    ensures
        i < end_of(t, i) <= t.len(),
{
    lemma_run_end(t, t[i].depth, i + 1);
}

pub proof fn lemma_above(t: Seq<NodeView>, d: u32, j: int)
    requires
        0 <= j <= t.len(),
    ensures
        match above(t, d, j) {
            Some(k) => 0 <= k < j && t[k].depth < d && forall|x: int|
                k < x < j ==> (#[trigger] t[x]).depth >= d,
            None => forall|x: int| 0 <= x < j ==> (#[trigger] t[x]).depth >= d,
        },
    decreases j,
{
    if j > 0 && t[j - 1].depth >= d {
        lemma_above(t, d, j - 1);
    }
}

// ── Navigation ───────────────────────────────────────────────────────────────

/// The position after the subtree of node `i`.
pub fn subtree_end(nodes: &Vec<SyntaxNode>, i: usize) -> (r: usize)
    requires
        i < nodes.len(),
    ensures
        r == end_of(nodes.deep_view(), i as int),
        i < r <= nodes.len(),
{
    let ghost t = nodes.deep_view();
    let mut j: usize = i + 1;
    while j < nodes.len() && nodes[j].depth > nodes[i].depth
        invariant
            i < j <= nodes.len(),
            t == nodes.deep_view(),
            end_of(t, i as int) == run_end(t, t[i as int].depth, j as int),
        decreases nodes.len() - j,
    {
        assert(t[j as int].depth == nodes[j as int].depth);
        j += 1;
    }
    assert(j < nodes.len() ==> t[j as int].depth == nodes[j as int].depth);
    j
}

/// Positions as integers.
pub open spec fn ints(s: Seq<usize>) -> Seq<int> {
    Seq::new(s.len(), |i: int| s[i] as int)
}

/// The children of node `i`, in order.
pub fn child_list(nodes: &Vec<SyntaxNode>, i: usize) -> (r: Vec<usize>)
    requires
        i < nodes.len(),
    ensures
        ints(r@) == children(nodes.deep_view(), i as int),
        forall|k: int| 0 <= k < r.len() ==> i < #[trigger] r@[k] < nodes.len(),
{
    let ghost t = nodes.deep_view();
    let end = subtree_end(nodes, i);
    let mut out: Vec<usize> = Vec::new();
    let mut j: usize = i + 1;
    assert(ints(out@) =~= Seq::<int>::empty());
    while j < end
        invariant
            i < j <= end <= nodes.len(),
            t == nodes.deep_view(),
            end == end_of(t, i as int),
            ints(out@) == children_below(t, i as int, j as int),
            forall|k: int| 0 <= k < out.len() ==> i < #[trigger] out@[k] < nodes.len(),
        decreases end - j,
    {
        let ghost had = out@;
        assert(t[j as int].depth == nodes[j as int].depth);
        assert(t[i as int].depth == nodes[i as int].depth);
        if nodes[j].depth > nodes[i].depth && nodes[j].depth - 1 == nodes[i].depth {
            out.push(j);
            assert(ints(out@) =~= ints(had).push(j as int));
        }
        j += 1;
    }
    out
}

/// The first child of node `i` that is held under the field `name`.
pub fn field_child(nodes: &Vec<SyntaxNode>, i: usize, name: &str) -> (r: Option<usize>)
    requires
        i < nodes.len(),
    ensures
        match r {
            Some(k) => field_of(nodes.deep_view(), i as int, name@) == Some(k as int) && i < k
                < nodes.len(),
            None => field_of(nodes.deep_view(), i as int, name@) is None,
        },
{
    let ghost t = nodes.deep_view();
    let mut j: usize = i + 1;
    while j < nodes.len() && nodes[j].depth > nodes[i].depth
        invariant
            i < j <= nodes.len(),
            t == nodes.deep_view(),
            forall|k: int| i < k < j ==> (#[trigger] t[k]).depth > t[i as int].depth,
            field_of(t, i as int, name@) == field_from(t, i as int, name@, j as int),
        decreases nodes.len() - j,
    {
        proof {
            assert(t[j as int].depth == nodes[j as int].depth);
            assert(t[i as int].depth == nodes[i as int].depth);
            lemma_run_end_past(t, t[i as int].depth, i + 1, j + 1);
            assert(t[j as int].field == nodes[j as int].field.deep_view());
        }
        if nodes[j].depth - 1 == nodes[i].depth {
            match &nodes[j].field {
                Some(f) => {
                    if str_eq(f.as_str(), name) {
                        return Some(j);
                    }
                },
                None => {},
            }
        }
        j += 1;
    }
    proof {
        assert(j < nodes.len() ==> t[j as int].depth == nodes[j as int].depth);
        lemma_run_end_is(t, t[i as int].depth, i + 1, j as int);
    }
    None
}

proof fn lemma_run_end_past(t: Seq<NodeView>, d: u32, j: int, m: int)
    requires
        0 <= j <= m <= t.len(),
        forall|k: int| j <= k < m ==> (#[trigger] t[k]).depth > d,
    ensures
        run_end(t, d, j) >= m,
    decreases m - j,
{
    if j < m {
        assert(t[j].depth > d);
        lemma_run_end_past(t, d, j + 1, m);
    } else {
        lemma_run_end(t, d, j);
    }
}

/// The parent of node `j`.
pub fn parent_node(nodes: &Vec<SyntaxNode>, j: usize) -> (r: Option<usize>)
    requires
        j < nodes.len(),
    ensures
        match r {
            Some(k) => parent_of(nodes.deep_view(), j as int) == Some(k as int) && k < j,
            None => parent_of(nodes.deep_view(), j as int) is None,
        },
{
    let ghost t = nodes.deep_view();
    let mut k: usize = j;
    while k > 0
        invariant
            k <= j < nodes.len(),
            t == nodes.deep_view(),
            parent_of(t, j as int) == above(t, t[j as int].depth, k as int),
        decreases k,
    {
        assert(t[k - 1].depth == nodes[k - 1].depth);
        assert(t[j as int].depth == nodes[j as int].depth);
        if nodes[k - 1].depth < nodes[j].depth {
            return Some(k - 1);
        }
        k -= 1;
    }
    None
}

/// Whether node `i` is of the given kind.
pub fn is_kind(nodes: &Vec<SyntaxNode>, i: usize, kind: &str) -> (r: bool)
    requires
        i < nodes.len(),
    ensures
        r == (nodes.deep_view()[i as int].kind == kind@),
{
    str_eq(nodes[i].kind.as_str(), kind)
}

/// The first of the nodes `cs` that is of the given kind.
pub open spec fn first_of_kind(t: Seq<NodeView>, cs: Seq<int>, kind: Seq<char>) -> Option<int>
    decreases cs.len(),
{
    if cs.len() == 0 {
        None
    } else if t[cs[0]].kind == kind {
        Some(cs[0])
    } else {
        first_of_kind(t, cs.drop_first(), kind)
    }
}

/// The first of the nodes `cs` that is of the given kind.
pub fn find_kind(nodes: &Vec<SyntaxNode>, cs: &Vec<usize>, kind: &str) -> (r: Option<usize>)
    requires
        forall|k: int| 0 <= k < cs.len() ==> #[trigger] cs@[k] < nodes.len(),
    ensures
        match r {
            Some(k) => first_of_kind(nodes.deep_view(), ints(cs@), kind@) == Some(k as int) && k
                < nodes.len(),
            None => first_of_kind(nodes.deep_view(), ints(cs@), kind@) is None,
        },
{
    let ghost t = nodes.deep_view();
    let ghost v = ints(cs@);
    let mut j: usize = 0;
    assert(v.skip(0) =~= v);
    while j < cs.len()
        invariant
            j <= cs.len(),
            t == nodes.deep_view(),
            v == ints(cs@),
            forall|k: int| 0 <= k < cs.len() ==> #[trigger] cs@[k] < nodes.len(),
            first_of_kind(t, v, kind@) == first_of_kind(t, v.skip(j as int), kind@),
        decreases cs.len() - j,
    {
        assert(v.skip(j as int)[0] == v[j as int]);
        assert(v.skip(j as int).drop_first() =~= v.skip(j + 1));
        if is_kind(nodes, cs[j], kind) {
            return Some(cs[j]);
        }
        j += 1;
    }
    None
}

// ── Text ─────────────────────────────────────────────────────────────────────

/// The part of `source` between two byte offsets, where both are character
/// boundaries in order.
pub open spec fn slice_text(source: Seq<char>, start: usize, end: usize) -> Option<Seq<char>> {
    let bytes = encode_utf8(source);
    if start <= end && is_char_boundary(bytes, start as int) && is_char_boundary(bytes, end as int)
        && end <= bytes.len() {
        Some(decode_utf8(bytes.subrange(start as int, end as int)))
    } else {
        None
    }
}

/// The text of a node.
pub open spec fn text_of(source: Seq<char>, n: NodeView) -> Option<Seq<char>> {
    slice_text(source, n.start_byte, n.end_byte)
}

/// The text of a node, empty where it has none.
pub open spec fn text_or_empty(source: Seq<char>, n: NodeView) -> Seq<char> {
    match text_of(source, n) {
        Some(s) => s,
        None => Seq::empty(),
    }
}

/// The part of `source` between two byte offsets.
pub fn slice_str(source: &str, start: usize, end: usize) -> (r: Option<&str>)
    ensures
        match r {
            Some(s) => slice_text(source@, start, end) == Some(s@),
            None => slice_text(source@, start, end) is None,
        },
{
    if start > end || end > source.as_bytes().len() || !source.is_char_boundary(start)
        || !source.is_char_boundary(end) {
        return None;
    }
    proof {
        encode_utf8_valid_utf8(source@);
    }
    let ghost bytes = encode_utf8(source@);
    let (head, _tail) = source.split_at(end);
    proof {
        lemma_boundary_of_prefix(bytes, start as int, end as int);
    }
    let (_front, part) = head.split_at(start);
    proof {
        assert(encode_utf8(part@) =~= bytes.subrange(start as int, end as int));
        encode_utf8_decode_utf8(part@);
    }
    Some(part)
}

/// A character boundary stays one where the text is cut off behind it.
proof fn lemma_boundary_of_prefix(bytes: Seq<u8>, start: int, end: int)
    requires
        valid_utf8(bytes),
        0 <= start <= end <= bytes.len(),
        is_char_boundary(bytes, start),
        is_char_boundary(bytes, end),
    ensures
        is_char_boundary(bytes.subrange(0, end), start),
{
    let prefix = bytes.subrange(0, end);
    valid_utf8_split(bytes, end);
    if start < end {
        is_char_boundary_iff_not_is_continuation_byte(bytes, start);
        is_char_boundary_iff_not_is_continuation_byte(prefix, start);
        assert(prefix[start] == bytes[start]);
    } else {
        is_char_boundary_start_end_of_seq(prefix);
    }
}

/// The text of node `i`.
pub fn node_text<'a>(nodes: &Vec<SyntaxNode>, i: usize, source: &'a str) -> (r: Option<&'a str>)
    requires
        i < nodes.len(),
    ensures
        match r {
            Some(s) => text_of(source@, nodes.deep_view()[i as int]) == Some(s@),
            None => text_of(source@, nodes.deep_view()[i as int]) is None,
        },
{
    slice_str(source, nodes[i].start_byte, nodes[i].end_byte)
}

/// The text of node `i`, empty where it has none.
pub fn node_text_or_empty<'a>(nodes: &Vec<SyntaxNode>, i: usize, source: &'a str) -> (r: &'a str)
    requires
        i < nodes.len(),
    ensures
        r@ == text_or_empty(source@, nodes.deep_view()[i as int]),
{
    match node_text(nodes, i, source) {
        Some(s) => s,
        None => {
            let empty: &str = "";
            proof {
                reveal_strlit("");
                assert(empty@ =~= Seq::<char>::empty());
            }
            empty
        },
    }
}

} // verus!
