//! In-memory code graph: atoms, edges, and reverse call reachability.

pub mod catalog;
pub mod memory;
pub mod reach;

pub use memory::{reconstruct_path, Predecessors, Store};
