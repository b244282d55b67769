//! Verified core of an AST-to-Mermaid pipeline: the code graph, the parsers'
//! extraction rules, the renderers, and the cache and bundle bookkeeping.

pub mod artifacts;
pub mod bundle;
pub mod cache;
pub mod call_flags;
pub mod chars;
pub mod cli;
pub mod dates;
pub mod diff;
pub mod encoding;
pub mod error;
pub mod git_source;
pub mod graph;
pub mod hash;
pub mod keys;
pub mod limits;
pub mod mcp;
pub mod model;
pub mod order;
pub mod parser;
pub mod paths;
pub mod pipeline;
pub mod records;
pub mod render;
pub mod text;
pub mod walk;
