//! Supported source languages and what their node kinds become.

use crate::parser::treesitter::Grammar;
use crate::text::str_eq;
use vstd::prelude::*;

verus! {

/// Source language supported by the parser.
#[derive(Debug, Clone, Copy, PartialEq, Eq, Hash, Structural)]
pub enum Language {
    /// Rust source (`.rs`).
    Rust,
    /// Python source (`.py`).
    Python,
    /// Dart source (`.dart`).
    Dart,
}

/// Whether nodes of a kind become top-level atoms.
pub open spec fn is_item_kind(language: Language, kind: Seq<char>) -> bool {
    match language {
        Language::Rust => kind == "function_item"@ || kind == "struct_item"@ || kind
            == "trait_item"@ || kind == "impl_item"@ || kind == "enum_item"@ || kind
            == "type_item"@ || kind == "const_item"@ || kind == "static_item"@ || kind
            == "macro_definition"@,
        Language::Python => kind == "function_definition"@ || kind == "class_definition"@ || kind
            == "decorated_definition"@,
        Language::Dart => kind == "function_declaration"@ || is_dart_container(kind) || kind
            == "type_alias"@,
    }
}

/// Whether nodes of a kind hold the members of a Dart class, mixin, extension or
/// enum.
pub open spec fn is_dart_container(kind: Seq<char>) -> bool {
    kind == "class_declaration"@ || kind == "mixin_declaration"@ || kind
        == "extension_declaration"@ || kind == "enum_declaration"@
}

/// The atom kind that nodes of a kind become.
pub open spec fn atom_kind(language: Language, kind: Seq<char>) -> Option<Seq<char>> {
    match language {
        Language::Rust => if kind == "function_item"@ {
            Some("function"@)
        } else if kind == "struct_item"@ {
            Some("struct"@)
        } else if kind == "trait_item"@ {
            Some("trait"@)
        } else if kind == "impl_item"@ {
            Some("impl"@)
        } else if kind == "enum_item"@ {
            Some("enum"@)
        } else if kind == "type_item"@ {
            Some("type_alias"@)
        } else if kind == "const_item"@ {
            Some("const"@)
        } else if kind == "static_item"@ {
            Some("static"@)
        } else if kind == "macro_definition"@ {
            Some("macro"@)
        } else {
            None
        },
        Language::Python => if kind == "function_definition"@ {
            Some("function"@)
        } else if kind == "class_definition"@ {
            Some("struct"@)
        } else {
            None
        },
        Language::Dart => if kind == "function_declaration"@ {
            Some("function"@)
        } else if kind == "class_declaration"@ {
            Some("struct"@)
        } else if kind == "mixin_declaration"@ {
            Some("trait"@)
        } else if kind == "extension_declaration"@ {
            Some("impl"@)
        } else if kind == "enum_declaration"@ {
            Some("enum"@)
        } else if kind == "type_alias"@ {
            Some("type_alias"@)
        } else {
            None
        },
    }
}

/// Whether nodes of a kind hold the members of a Dart class, mixin, extension or
/// enum.
pub(crate) fn holds_dart_members(kind: &str) -> (r: bool)
    ensures
        r == is_dart_container(kind@),
{
    str_eq(kind, "class_declaration") || str_eq(kind, "mixin_declaration") || str_eq(
        kind,
        "extension_declaration",
    ) || str_eq(kind, "enum_declaration")
}

impl Language {
    /// The human-readable tag.
    pub open spec fn text(self) -> Seq<char> {
        match self {
            Language::Rust => "rust"@,
            Language::Python => "python"@,
            Language::Dart => "dart"@,
        }
    }

    /// The grammar that parses the language.
    pub open spec fn spec_grammar(self) -> Grammar {
        match self {
            Language::Rust => Grammar::Rust,
            Language::Python => Grammar::Python,
            Language::Dart => Grammar::Dart,
        }
    }

    /// Human-readable tag.
    pub fn name(self) -> (r: &'static str)
        ensures
            r@ == self.text(),
    {
        match self {
            Language::Rust => "rust",
            Language::Python => "python",
            Language::Dart => "dart",
        }
    }

    /// The grammar that parses the language.
    pub fn grammar(self) -> (r: Grammar)
        ensures
            r == self.spec_grammar(),
    {
        match self {
            Language::Rust => Grammar::Rust,
            Language::Python => Grammar::Python,
            Language::Dart => Grammar::Dart,
        }
    }

    /// Whether nodes of a kind become top-level atoms.
    pub fn is_item(self, kind: &str) -> (r: bool)
        ensures
            r == is_item_kind(self, kind@),
    {
        match self {
            Language::Rust => str_eq(kind, "function_item") || str_eq(kind, "struct_item")
                || str_eq(kind, "trait_item") || str_eq(kind, "impl_item") || str_eq(
                kind,
                "enum_item",
            ) || str_eq(kind, "type_item") || str_eq(kind, "const_item") || str_eq(
                kind,
                "static_item",
            ) || str_eq(kind, "macro_definition"),
            Language::Python => str_eq(kind, "function_definition") || str_eq(
                kind,
                "class_definition",
            ) || str_eq(kind, "decorated_definition"),
            Language::Dart => str_eq(kind, "function_declaration") || holds_dart_members(kind)
                || str_eq(kind, "type_alias"),
        }
    }

    /// The atom kind that nodes of a kind become.
    pub fn map_node_kind(self, kind: &str) -> (r: Option<&'static str>)
        ensures
            r.deep_view() == atom_kind(self, kind@),
    {
        match self {
            Language::Rust => if str_eq(kind, "function_item") {
                Some("function")
            } else if str_eq(kind, "struct_item") {
                Some("struct")
            } else if str_eq(kind, "trait_item") {
                Some("trait")
            } else if str_eq(kind, "impl_item") {
                Some("impl")
            } else if str_eq(kind, "enum_item") {
                Some("enum")
            } else if str_eq(kind, "type_item") {
                Some("type_alias")
            } else if str_eq(kind, "const_item") {
                Some("const")
            } else if str_eq(kind, "static_item") {
                Some("static")
            } else if str_eq(kind, "macro_definition") {
                Some("macro")
            } else {
                None
            },
            Language::Python => if str_eq(kind, "function_definition") {
                Some("function")
            } else if str_eq(kind, "class_definition") {
                Some("struct")
            } else {
                None
            },
            Language::Dart => if str_eq(kind, "function_declaration") {
                Some("function")
            } else if str_eq(kind, "class_declaration") {
                Some("struct")
            } else if str_eq(kind, "mixin_declaration") {
                Some("trait")
            } else if str_eq(kind, "extension_declaration") {
                Some("impl")
            } else if str_eq(kind, "enum_declaration") {
                Some("enum")
            } else if str_eq(kind, "type_alias") {
                Some("type_alias")
            } else {
                None
            },
        }
    }
}

} // verus!
