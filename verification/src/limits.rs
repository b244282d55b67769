//! The depth limit shared by every recursive walk over syntax.

use crate::chars::{number, parse_number};
use vstd::prelude::*;

verus! {

/// Default depth limit.
pub const MAX_AST_DEPTH: usize = 256;

/// The depth limit that a raw setting asks for: a positive integer, or else
/// the default.
pub open spec fn depth_limit(raw: Option<Seq<char>>) -> nat {
    match raw {
        Some(s) => match number(s, usize::MAX as nat) {
            Ok(n) => if n > 0 {
                n
            } else {
                MAX_AST_DEPTH as nat
            },
            Err(_) => MAX_AST_DEPTH as nat,
        },
        None => MAX_AST_DEPTH as nat,
    }
}

/// The depth limit that a raw setting asks for.
pub fn resolve_max_ast_depth(raw: Option<&str>) -> (r: usize)
    ensures
        r == depth_limit(raw.deep_view()),
        r > 0,
{
    match raw {
        Some(s) => match parse_number(s, usize::MAX as u64) {
            Ok(n) => if n > 0 {
                n as usize
            } else {
                MAX_AST_DEPTH
            },
            Err(_) => MAX_AST_DEPTH,
        },
        None => MAX_AST_DEPTH,
    }
}

} // verus!
