//! The source-code parser: bytes to a [`ParseUnit`].

use crate::encoding::{normalize_eol, normalized, strip_bom};
use crate::error::{is_invalid, AstToMermaidError, Result};
use crate::limits::MAX_AST_DEPTH;
use crate::parser::extract::{file_scope, tree_unit, unit_from_tree};
use crate::parser::language::Language;
use crate::parser::laws::{law_well_built, well_built};
use crate::parser::links::{law_well_linked, well_linked};
use crate::parser::treesitter::{parse_tree, ts_parsed};
use crate::parser::unit::{FileView, ParseUnit, UnitView};
use std::borrow::Cow;
use vstd::prelude::*;
use vstd::string::*;
use vstd::utf8::{decode_utf8, valid_utf8};

verus! {

/// What the error of decoding a byte string as UTF-8 says.
pub uninterp spec fn utf8_error_text(bytes: Seq<u8>) -> Seq<char>;

/// `std::str::from_utf8`: the text that valid UTF-8 encodes; otherwise the
/// message of the error.
#[verifier::external_body]
pub(crate) fn decode_text(bytes: &[u8]) -> (r: std::result::Result<&str, String>)
    ensures
        match r {
            Ok(s) => valid_utf8(bytes@) && s@ == decode_utf8(bytes@),
            Err(e) => !valid_utf8(bytes@) && e@ == utf8_error_text(bytes@),
        },
{
    std::str::from_utf8(bytes).map_err(|e| e.to_string())
}

/// Source-code parser. Construct one per language; re-use it across files.
#[derive(Debug, Clone, Copy)]
pub struct CodeParser {
    pub(crate) language: Language,
    pub(crate) depth_limit: usize,
}

/// What parsing comes to: a unit, or the detail of the error.
pub open spec fn parse_outcome(
    language: Language,
    limit: nat,
    content: Seq<u8>,
    path: Seq<char>,
) -> std::result::Result<UnitView, Seq<char>> {
    let bytes = normalized(content);
    if !valid_utf8(bytes) {
        Err("invalid utf-8 in "@ + path + ": "@ + utf8_error_text(bytes))
    } else {
        match ts_parsed(language.spec_grammar(), bytes) {
            Err(e) => Err("tree-sitter set_language failed for "@ + path + ": "@ + e),
            Ok(None) => Err("tree-sitter parse failed for "@ + path),
            Ok(Some(t)) => Ok(tree_unit(language, t, decode_utf8(bytes), path, limit)),
        }
    }
}

/// Whatever is parsed, the unit starts with the atom of the file's module, has
/// no other module, holds all that its edges connect, and contains each atom in
/// another. Its edges are the calls within the file and the containments.
pub proof fn law_parsed(language: Language, limit: nat, content: Seq<u8>, path: Seq<char>)
    ensures
        parse_outcome(language, limit, content, path) matches Ok(unit) ==> well_built(unit, path)
            && well_linked(unit, path),
{
    let bytes = normalized(content);
    let src = decode_utf8(bytes);
    if let Ok(Some(t)) = ts_parsed(language.spec_grammar(), bytes) {
        let f = FileView {
            t,
            src,
            path,
            language,
            scope: file_scope(language, t, src, limit),
            limit,
        };
        law_well_built(f);
        law_well_linked(f);
    }
}

impl CodeParser {
    /// The language that the parser handles.
    pub closed spec fn spec_language(&self) -> Language {
        self.language
    }

    /// The depth limit of recursive walks.
    pub closed spec fn spec_limit(&self) -> nat {
        self.depth_limit as nat
    }

    /// A Rust parser.
    pub fn rust() -> (r: Self)
        ensures
            r.spec_language() == Language::Rust,
            r.spec_limit() == MAX_AST_DEPTH,
    {
        CodeParser { language: Language::Rust, depth_limit: MAX_AST_DEPTH }
    }

    /// A Python parser.
    pub fn python() -> (r: Self)
        ensures
            r.spec_language() == Language::Python,
            r.spec_limit() == MAX_AST_DEPTH,
    {
        CodeParser { language: Language::Python, depth_limit: MAX_AST_DEPTH }
    }

    /// A Dart parser.
    pub fn dart() -> (r: Self)
        ensures
            r.spec_language() == Language::Dart,
            r.spec_limit() == MAX_AST_DEPTH,
    {
        CodeParser { language: Language::Dart, depth_limit: MAX_AST_DEPTH }
    }

    /// The same parser with another depth limit.
    pub fn with_depth_limit(self, limit: usize) -> (r: Self)
        ensures
            r.spec_language() == self.spec_language(),
            r.spec_limit() == limit,
    {
        CodeParser { language: self.language, depth_limit: limit }
    }

    /// Which language this parser handles.
    pub fn language(&self) -> (r: Language)
        ensures
            r == self.spec_language(),
    {
        self.language
    }

    /// Parses `content` of the file `file_path` into a unit. The outcome is
    /// determined by the content, the path, the language and the depth limit.
    pub fn parse(&self, content: &[u8], file_path: &str) -> (r: Result<ParseUnit>)
        ensures
            match parse_outcome(
                self.spec_language(),
                self.spec_limit(),
                content@,
                file_path@,
            ) {
                Ok(unit) => r matches Ok(u) && u.deep_view() == unit && well_built(
                    u.deep_view(),
                    file_path@,
                ) && well_linked(u.deep_view(), file_path@),
                Err(detail) => is_invalid(r, detail),
            },
    {
        let cow = normalize_eol(strip_bom(content));
        let bytes: &[u8] = match &cow {
            Cow::Borrowed(b) => b,
            Cow::Owned(v) => v.as_slice(),
        };
        assert(bytes@ == normalized(content@));
        let text = match decode_text(bytes) {
            Ok(text) => text,
            Err(e) => {
                return Err(
                    AstToMermaidError::InvalidInput(
                        "invalid utf-8 in ".to_owned().concat(file_path).concat(": ").concat(
                            e.as_str(),
                        ),
                    ),
                );
            },
        };
        match parse_tree(self.language.grammar(), bytes) {
            Err(e) => Err(
                AstToMermaidError::InvalidInput(
                    "tree-sitter set_language failed for ".to_owned().concat(file_path).concat(
                        ": ",
                    ).concat(e.as_str()),
                ),
            ),
            Ok(None) => Err(
                AstToMermaidError::InvalidInput(
                    "tree-sitter parse failed for ".to_owned().concat(file_path),
                ),
            ),
            Ok(Some(nodes)) => {
                assert(nodes.deep_view().len() == nodes.len());
                proof {
                    law_parsed(
                        self.spec_language(),
                        self.spec_limit(),
                        content@,
                        file_path@,
                    );
                }
                Ok(
                    unit_from_tree(
                        self.language,
                        &nodes,
                        text,
                        file_path,
                        self.depth_limit,
                    ),
                )
            },
        }
    }
}

} // verus!
