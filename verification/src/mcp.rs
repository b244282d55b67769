//! Model Context Protocol server entry point.

use crate::error::{AstToMermaidError, Result};
use vstd::prelude::*;

verus! {

/// Starts the server on the standard streams. Not implemented at this version.
pub fn serve_stdio() -> (r: Result<()>)
    ensures
        r matches Err(AstToMermaidError::NotImplemented(what)) && what@ == "mcp::serve_stdio"@,
{
    Err(AstToMermaidError::NotImplemented("mcp::serve_stdio"))
}

} // verus!
