//! Control-flow context a call site sits in, as a bit field.
//!
//! Detected by walking the callee's ancestors up to the enclosing function.
//! Only the presence of a control node matters, so one set of node kinds
//! covers all grammars.

use vstd::prelude::*;

verus! {

/// The call is awaited.
pub const AWAIT: u8 = 1;

/// The call sits under an `if`, `match` or `switch`, so it may not run.
pub const CONDITIONAL: u8 = 2;

/// The call sits in a loop and may run many times.
pub const REPEATED: u8 = 4;

} // verus!
