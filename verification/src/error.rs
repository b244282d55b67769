//! Error types of the pipeline.

use vstd::prelude::*;
use vstd::string::*;

verus! {

/// Errors raised by the parser, the renderers, the resolver or the storage.
#[derive(Debug)]
pub enum AstToMermaidError {
    /// A storage backend failed.
    Storage(String),
    /// The requested feature is not implemented at this version.
    NotImplemented(&'static str),
    /// Invalid command-line arguments or user input.
    InvalidInput(String),
    /// A file could not be read or written.
    Io(String),
    /// A required artifact file was not found in a bundle directory.
    ArtifactNotFound(String),
}

/// Convenience alias used throughout the crate.
pub type Result<T> = std::result::Result<T, AstToMermaidError>;

impl AstToMermaidError {
    /// What the error says: its category and its detail.
    pub open spec fn text(self) -> Seq<char> {
        match self {
            AstToMermaidError::Storage(s) => "storage: "@ + s@,
            AstToMermaidError::NotImplemented(s) => "not implemented: "@ + s@,
            AstToMermaidError::InvalidInput(s) => "invalid input: "@ + s@,
            AstToMermaidError::Io(s) => "io: "@ + s@,
            AstToMermaidError::ArtifactNotFound(s) => "artifact not found: "@ + s@,
        }
    }

    /// The error as displayed.
    pub fn to_string(&self) -> (r: String)
        ensures
            r@ == self.text(),
    {
        match self {
            AstToMermaidError::Storage(s) => "storage: ".to_owned().concat(s.as_str()),
            AstToMermaidError::NotImplemented(s) => "not implemented: ".to_owned().concat(s),
            AstToMermaidError::InvalidInput(s) => "invalid input: ".to_owned().concat(s.as_str()),
            AstToMermaidError::Io(s) => "io: ".to_owned().concat(s.as_str()),
            AstToMermaidError::ArtifactNotFound(s) => "artifact not found: ".to_owned().concat(
                s.as_str(),
            ),
        }
    }
}

/// Whether a result is the error `InvalidInput` with the given detail.
pub open spec fn is_invalid<T>(r: Result<T>, detail: Seq<char>) -> bool {
    r matches Err(AstToMermaidError::InvalidInput(s)) && s@ == detail
}

} // verus!
