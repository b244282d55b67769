//! The tree-sitter boundary: source text to a list of plain nodes.

use crate::parser::tree::{end_of, nested, parent_of, NodeView, SyntaxNode};
use vstd::prelude::*;

verus! {

/// A grammar that source text can be parsed with.
#[derive(Debug, Clone, Copy, PartialEq, Eq, Structural)]
pub enum Grammar {
    Rust,
    Python,
    Dart,
}

// ── Trusted boundary ─────────────────────────────────────────────────────────

/// `tree_sitter::Tree`: a parsed syntax tree.
#[verifier::external_type_specification]
#[verifier::external_body]
pub struct ExTree(tree_sitter::Tree);

/// `tree_sitter::TreeCursor`: a position in a syntax tree.
#[verifier::external_type_specification]
#[verifier::external_body]
pub struct ExTreeCursor<'cursor>(tree_sitter::TreeCursor<'cursor>);

/// What tree-sitter makes of a source text: the message of the error where the
/// grammar is of an incompatible version, `None` where it gives no tree, and
/// otherwise the nodes of the tree in pre-order.
pub uninterp spec fn ts_parsed(grammar: Grammar, source: Seq<u8>) -> Result<
    Option<Seq<NodeView>>,
    Seq<char>,
>;

/// The nodes of a tree, in pre-order.
pub uninterp spec fn tree_nodes(tree: tree_sitter::Tree) -> Seq<NodeView>;

/// The nodes of the tree that a cursor walks, in pre-order.
pub uninterp spec fn cursor_nodes(cursor: tree_sitter::TreeCursor<'_>) -> Seq<NodeView>;

/// The pre-order position of the node that a cursor is on.
pub uninterp spec fn cursor_at(cursor: tree_sitter::TreeCursor<'_>) -> int;

/// `tree_sitter::Parser::set_language` and `Parser::parse` on a fresh parser,
/// without an old tree, a timeout or a cancellation flag: the outcome is a
/// function of the grammar and the text.
#[verifier::external_body]
fn ts_parse(grammar: Grammar, source: &[u8]) -> (r: Result<Option<tree_sitter::Tree>, String>)
    ensures
        match r {
            Ok(Some(tree)) => ts_parsed(grammar, source@) == Ok::<_, Seq<char>>(
                Some(tree_nodes(tree)),
            ),
            Ok(None) => ts_parsed(grammar, source@) == Ok::<Option<Seq<NodeView>>, Seq<char>>(None),
            Err(e) => ts_parsed(grammar, source@) == Err::<Option<Seq<NodeView>>, _>(e@),
        },
{
    let language: tree_sitter::Language = match grammar {
        Grammar::Rust => tree_sitter_rust::LANGUAGE.into(),
        Grammar::Python => tree_sitter_python::LANGUAGE.into(),
        Grammar::Dart => tree_sitter_dart::LANGUAGE.into(),
    };
    let mut parser = tree_sitter::Parser::new();
    parser.set_language(&language).map_err(|e| e.to_string())?;
    Ok(parser.parse(source, None))
}

/// `tree_sitter::Tree::walk`: a cursor on the root of the tree. The pre-order
/// of a tree starts with its root, and no node in it is more than one level
/// below the one before.
#[verifier::external_body]
fn ts_walk<'a>(tree: &'a tree_sitter::Tree) -> (r: tree_sitter::TreeCursor<'a>)
    ensures
        cursor_nodes(r) == tree_nodes(*tree),
        cursor_at(r) == 0,
        nested(cursor_nodes(r)),
{
    tree.walk()
}

/// `TreeCursor::node`, `field_name` and `depth`, with `Node::kind`, the byte
/// range and the positions of the node: the node that the cursor is on.
#[verifier::external_body]
fn ts_node(cursor: &tree_sitter::TreeCursor<'_>) -> (r: SyntaxNode)
    ensures
        r.deep_view() == cursor_nodes(*cursor)[cursor_at(*cursor)],
{
    let node = cursor.node();
    SyntaxNode {
        kind: node.kind().to_owned(),
        field: cursor.field_name().map(str::to_owned),
        depth: cursor.depth(),
        start_byte: node.start_byte(),
        end_byte: node.end_byte(),
        start_row: node.start_position().row,
        end_row: node.end_position().row,
    }
}

/// `TreeCursor::goto_first_child`: moves to the first child, if there is one,
/// and says whether it did.
#[verifier::external_body]
fn ts_first_child(cursor: &mut tree_sitter::TreeCursor<'_>) -> (r: bool)
    ensures
        cursor_nodes(*final(cursor)) == cursor_nodes(*old(cursor)),
        r == (end_of(cursor_nodes(*old(cursor)), cursor_at(*old(cursor))) > cursor_at(*old(cursor))
            + 1),
        cursor_at(*final(cursor)) == if r {
            cursor_at(*old(cursor)) + 1
        } else {
            cursor_at(*old(cursor))
        },
{
    cursor.goto_first_child()
}

/// `TreeCursor::goto_next_sibling`: moves to the node after the subtree of the
/// current one, if that is a sibling, and says whether it did.
#[verifier::external_body]
fn ts_next_sibling(cursor: &mut tree_sitter::TreeCursor<'_>) -> (r: bool)
    ensures
        cursor_nodes(*final(cursor)) == cursor_nodes(*old(cursor)),
        ({
            let t = cursor_nodes(*old(cursor));
            let at = cursor_at(*old(cursor));
            let end = end_of(t, at);
            &&& r == (end < t.len() && t[end].depth == t[at].depth)
            &&& cursor_at(*final(cursor)) == if r { end } else { at }
        }),
{
    cursor.goto_next_sibling()
}

/// `TreeCursor::goto_parent`: moves to the parent, if there is one, and says
/// whether it did.
#[verifier::external_body]
fn ts_parent(cursor: &mut tree_sitter::TreeCursor<'_>) -> (r: bool)
    ensures
        cursor_nodes(*final(cursor)) == cursor_nodes(*old(cursor)),
        match parent_of(cursor_nodes(*old(cursor)), cursor_at(*old(cursor))) {
            Some(k) => r && cursor_at(*final(cursor)) == k,
            None => !r && cursor_at(*final(cursor)) == cursor_at(*old(cursor)),
        },
{
    cursor.goto_parent()
}

// ── Nodes of a tree ──────────────────────────────────────────────────────────

/// Where a node without a next sibling ends, its parent ends too.
proof fn lemma_parent_end(t: Seq<NodeView>, at: int, k: int)
    requires
        nested(t),
        0 <= at < t.len(),
        parent_of(t, at) == Some(k),
        !(end_of(t, at) < t.len() && t[end_of(t, at)].depth == t[at].depth),
    ensures
        0 <= k < at,
        end_of(t, k) == end_of(t, at),
{
    let d = t[at].depth;
    let end = end_of(t, at);
    crate::parser::tree::lemma_above(t, d, at);
    crate::parser::tree::lemma_run_end(t, d, at + 1);
    assert(t[k].depth == d - 1) by {
        assert(t[k + 1].depth >= d);
        assert(t[k + 1].depth <= t[k].depth + 1);
    }
    assert forall|x: int| k + 1 <= x < end implies (#[trigger] t[x]).depth > t[k].depth by {
        if x < at {
            assert(t[x].depth >= d);
        }
    }
    crate::parser::tree::lemma_run_end_is(t, t[k].depth, k + 1, end);
}

/// The nodes of a tree, in pre-order.
fn flatten(tree: &tree_sitter::Tree) -> (r: Vec<SyntaxNode>)
    ensures
        r.deep_view() == tree_nodes(*tree),
        nested(r.deep_view()),
{
    let mut cursor = ts_walk(tree);
    let ghost t = tree_nodes(*tree);
    let mut out: Vec<SyntaxNode> = Vec::new();
    out.push(ts_node(&cursor));
    assert(out.deep_view() =~= t.take(1));
    loop
        invariant_except_break
            cursor_nodes(cursor) == t,
            nested(t),
            0 <= cursor_at(cursor) < t.len(),
            out.len() == cursor_at(cursor) + 1,
            out.deep_view() == t.take(out.len() as int),
        ensures
            out.deep_view() == t,
        decreases t.len() - out.len(),
    {
        let ghost at = cursor_at(cursor);
        proof {
            crate::parser::tree::lemma_end_of(t, at);
        }
        if ts_first_child(&mut cursor) {
            let ghost had = out.deep_view();
            out.push(ts_node(&cursor));
            assert(out.deep_view() =~= had.push(t[at + 1]));
            assert(t.take(at + 1).push(t[at + 1]) =~= t.take(at + 2));
            continue;
        }
        let mut done = false;
        let mut moved = false;
        while !done && !moved
            invariant
                cursor_nodes(cursor) == t,
                nested(t),
                0 <= cursor_at(cursor) < t.len(),
                done ==> out.len() == t.len(),
                moved ==> cursor_at(cursor) == out.len(),
                !moved && !done ==> end_of(t, cursor_at(cursor)) == out.len(),
            decreases
                    (if moved || done {
                        0
                    } else {
                        1 + cursor_at(cursor)
                    }),
        {
            let ghost here = cursor_at(cursor);
            proof {
                crate::parser::tree::lemma_end_of(t, here);
                crate::parser::tree::lemma_above(t, t[here].depth, here);
            }
            if ts_next_sibling(&mut cursor) {
                moved = true;
            } else if ts_parent(&mut cursor) {
                proof {
                    lemma_parent_end(t, here, cursor_at(cursor));
                }
            } else {
                done = true;
                proof {
                    if here > 0 {
                        assert(t[0].depth >= t[here].depth);
                    }
                    crate::parser::tree::lemma_run_end(t, t[here].depth, here + 1);
                }
            }
        }
        if done {
            assert(t.take(out.len() as int) =~= t);
            break;
        }
        let ghost had = out.deep_view();
        out.push(ts_node(&cursor));
        proof {
            let n = had.len() as int;
            assert(out.deep_view() =~= had.push(t[n]));
            assert(t.take(n).push(t[n]) =~= t.take(n + 1));
        }
    }
    out
}

/// The syntax tree of a source text, as its nodes in pre-order: the message of
/// the error where the grammar cannot be used, `None` where there is no tree.
pub fn parse_tree(grammar: Grammar, source: &[u8]) -> (r: Result<
    Option<Vec<SyntaxNode>>,
    String,
>)
    ensures
        match r {
            Ok(Some(nodes)) => ts_parsed(grammar, source@) == Ok::<_, Seq<char>>(
                Some(nodes.deep_view()),
            ) && nested(nodes.deep_view()),
            Ok(None) => ts_parsed(grammar, source@) == Ok::<Option<Seq<NodeView>>, Seq<char>>(None),
            Err(e) => ts_parsed(grammar, source@) == Err::<Option<Seq<NodeView>>, _>(e@),
        },
{
    match ts_parse(grammar, source) {
        Ok(Some(tree)) => Ok(Some(flatten(&tree))),
        Ok(None) => Ok(None),
        Err(e) => Err(e),
    }
}

} // verus!
