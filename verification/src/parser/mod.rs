//! Source files to code atoms: tree-sitter syntax trees, the per-language
//! extractors, and the parser that ties them together.

pub mod calls;
pub mod code;
pub mod dart;
pub mod dart_laws;
pub mod extract;
pub mod flow_laws;
pub mod import_laws;
pub mod language;
pub mod laws;
pub mod links;
pub mod python;
pub mod rust;
pub mod scope;
pub mod source_laws;
pub mod tree;
pub mod treesitter;
pub mod unit;

pub use crate::encoding::{normalize_eol, strip_bom};
pub use crate::hash::{git_blob_sha1, hex_sha256};
pub use code::CodeParser;
pub use language::Language;
pub use unit::{module_name, ParseFailure, ParseUnit};
