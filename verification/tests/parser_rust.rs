//! Rust sources: items, methods, calls and imports.

use ast_to_mermaid::graph::Store;
use ast_to_mermaid::limits::MAX_AST_DEPTH;
use ast_to_mermaid::model::EntityId;
use ast_to_mermaid::parser::rust::{extract_use_decls, use_decls_to_imports, UseDecl};
use ast_to_mermaid::parser::scope::{lookup_str, Imports};
use ast_to_mermaid::parser::tree::SyntaxNode;
use ast_to_mermaid::parser::treesitter::{parse_tree, Grammar};
use ast_to_mermaid::parser::CodeParser;

fn tree(src: &str) -> Vec<SyntaxNode> {
    parse_tree(Grammar::Rust, src.as_bytes())
        .expect("rust grammar")
        .expect("parse")
}

fn imports_from(src: &str) -> Imports {
    use_decls_to_imports(&extract_use_decls(&tree(src), src, MAX_AST_DEPTH))
}

fn decls_from(src: &str) -> Vec<UseDecl> {
    extract_use_decls(&tree(src), src, MAX_AST_DEPTH)
}

#[test]
fn rust_parser_creates_module_and_function() {
    let mut store = Store::new();
    let src = b"pub fn hello() {}\npub fn world() { hello(); }\n";
    CodeParser::rust()
        .parse(src, "src/lib.rs")
        .expect("parse")
        .apply_to(&mut store);
    // module + 2 functions = 3 atoms
    assert_eq!(store.atom_count(), 3);
    // module contains 2 functions
    let module_id = EntityId::new("code:src/lib.rs");
    let children = store.children_of(&module_id);
    assert_eq!(children.len(), 2);
}

#[test]
fn rust_intra_file_calls_resolved() {
    let mut store = Store::new();
    let src = b"fn a() { b(); }\nfn b() {}\n";
    CodeParser::rust()
        .parse(src, "src/lib.rs")
        .expect("parse")
        .apply_to(&mut store);
    let a = EntityId::new("code:src/lib.rs::function::a");
    let b = EntityId::new("code:src/lib.rs::function::b");
    assert!(store.has_call_edge(&a, &b));
}

#[test]
fn rust_parser_struct_and_trait_atoms() {
    let mut store = Store::new();
    let src = b"pub struct Foo {}\npub trait Bar {}\n";
    CodeParser::rust()
        .parse(src, "src/types.rs")
        .expect("parse")
        .apply_to(&mut store);
    assert!(!store.atoms_by_kind("struct").is_empty());
    assert!(!store.atoms_by_kind("trait").is_empty());
}

#[test]
fn rust_parser_enum_impl_const_static_macro() {
    let mut store = Store::new();
    let src = b"\
pub enum Color { Red }\n\
impl Color { pub fn is_red(&self) -> bool { true } }\n\
const MAX: u32 = 42;\n\
static NAME: &str = \"x\";\n\
macro_rules! say_hi { () => {} }\n\
pub type Alias = u32;\n";
    CodeParser::rust()
        .parse(src, "src/misc.rs")
        .expect("parse")
        .apply_to(&mut store);
    assert!(!store.atoms_by_kind("enum").is_empty());
    assert!(!store.atoms_by_kind("impl").is_empty());
    assert!(!store.atoms_by_kind("const").is_empty());
    assert!(!store.atoms_by_kind("static").is_empty());
    assert!(!store.atoms_by_kind("macro").is_empty());
    assert!(!store.atoms_by_kind("type_alias").is_empty());
}

#[test]
fn rust_doc_comment_extracted() {
    let mut store = Store::new();
    let src = b"/// Does something.\npub fn documented() {}\n";
    CodeParser::rust()
        .parse(src, "src/lib.rs")
        .expect("parse")
        .apply_to(&mut store);
    let id = EntityId::new("code:src/lib.rs::function::documented");
    let atom = store.get_atom(&id).expect("atom");
    assert!(atom.doc.contains("Does something"), "doc={:?}", atom.doc);
}

#[test]
fn rust_impl_for_trait_naming() {
    let mut store = Store::new();
    let src = b"pub trait Foo {}\npub struct Bar;\nimpl Foo for Bar {}\n";
    CodeParser::rust()
        .parse(src, "src/impl_trait.rs")
        .expect("parse")
        .apply_to(&mut store);
    // The impl atom should exist with "Foo for Bar" as name
    let atoms = store.atoms_by_kind("impl");
    assert!(!atoms.is_empty(), "expected impl atom");
    assert!(
        atoms
            .iter()
            .any(|a| a.name.contains("Foo") && a.name.contains("Bar")),
        "got names: {:?}",
        atoms.iter().map(|a| &a.name).collect::<Vec<_>>()
    );
}

#[test]
fn use_imports_simple_path_records_leaf_name() {
    let map = imports_from("use crate::resolve::resolve_cross_module_calls;\n");
    assert_eq!(
        lookup_str(&map.symbols, "resolve_cross_module_calls"),
        Some("crate::resolve::resolve_cross_module_calls")
    );
}

#[test]
fn use_imports_group_form_unfolds() {
    let map = imports_from("use crate::render::{Level, render};\n");
    assert_eq!(
        lookup_str(&map.symbols, "render"),
        Some("crate::render::render")
    );
    assert_eq!(
        lookup_str(&map.symbols, "Level"),
        Some("crate::render::Level")
    );
}

#[test]
fn use_imports_alias_keeps_alias_as_key() {
    let map = imports_from("use crate::error::Result as Res;\n");
    assert_eq!(
        lookup_str(&map.symbols, "Res"),
        Some("crate::error::Result")
    );
    assert!(!lookup_str(&map.symbols, "Result").is_some());
}

#[test]
fn use_imports_nested_group_unfolds_recursively() {
    let map = imports_from("use crate::a::{b::c, d};\n");
    assert_eq!(lookup_str(&map.symbols, "c"), Some("crate::a::b::c"));
    assert_eq!(lookup_str(&map.symbols, "d"), Some("crate::a::d"));
}

#[test]
fn bare_call_expanded_via_use_import() {
    let mut store = Store::new();
    let src = b"\
use crate::other::helper;\n\
fn caller() { helper(); }\n";
    CodeParser::rust()
        .parse(src, "src/lib.rs")
        .expect("parse")
        .apply_to(&mut store);
    let id = EntityId::new("code:src/lib.rs::function::caller");
    let atom = store.get_atom(&id).expect("atom");
    // Bare `helper()` should be normalised to the imported full path.
    assert!(
        atom.calls.iter().any(|c| c.name == "crate::other::helper"),
        "calls={:?}",
        atom.calls
    );
}

#[test]
fn qualified_inline_call_keeps_full_path() {
    let mut store = Store::new();
    let src = b"fn caller() { project::render(s); }\n";
    CodeParser::rust()
        .parse(src, "src/lib.rs")
        .expect("parse")
        .apply_to(&mut store);
    let id = EntityId::new("code:src/lib.rs::function::caller");
    let atom = store.get_atom(&id).expect("atom");
    assert!(
        atom.calls.iter().any(|c| c.name == "project::render"),
        "calls={:?}",
        atom.calls
    );
}

#[test]
fn intra_file_linker_skips_qualified_calls() {
    // A locally-defined `render` should NOT be linked from a call written
    // as `module::render(...)` — that's a cross-module call.
    let mut store = Store::new();
    let src = b"\
fn render(s: u32) {}\n\
fn caller() { project::render(0); }\n";
    CodeParser::rust()
        .parse(src, "src/lib.rs")
        .expect("parse")
        .apply_to(&mut store);
    let caller_id = EntityId::new("code:src/lib.rs::function::caller");
    let local_render = EntityId::new("code:src/lib.rs::function::render");
    assert!(
        !store.has_call_edge(&caller_id, &local_render),
        "qualified call should not bind to same-file function"
    );
}

#[test]
fn use_imports_pub_use_is_skipped() {
    // `pub use` is a re-export, not a binding in this file's scope.
    // The local name should NOT appear in the imports map (otherwise a
    // bare call to `Foo` here would get rewritten to `crate::other::Foo`).
    let map = imports_from("pub use crate::other::Foo;\n");
    assert!(map.symbols.is_empty(), "pub use must not bind locally: {:?}", map);
}

#[test]
fn use_imports_wildcard_is_recorded_as_glob() {
    let decls = decls_from("use crate::prelude::*;\n");
    assert_eq!(decls.len(), 1);
    assert_eq!(decls[0].local, "*");
    assert_eq!(decls[0].path, "crate::prelude");
    assert!(decls[0].glob);
    // Wildcards drop out of the bare→qualified map (no specific name to
    // bind), so the call extractor doesn't accidentally rewrite something.
    let map = imports_from("use crate::prelude::*;\n");
    assert!(map.symbols.is_empty());
}

#[test]
fn use_imports_recurse_into_inline_modules() {
    // tree-sitter parses `mod inner { use … }` with the use_declaration
    // nested under the mod's body. The walker must descend.
    let src = "\
mod inner {\n\
use crate::other::helper;\n\
}\n";
    let map = imports_from(src);
    assert_eq!(
        lookup_str(&map.symbols, "helper"),
        Some("crate::other::helper")
    );
}

#[test]
fn use_imports_self_super_crate_path_roots() {
    let src = "\
use self::sub::a;\n\
use super::sib::b;\n\
use crate::root::c;\n";
    let map = imports_from(src);
    assert_eq!(lookup_str(&map.symbols, "a"), Some("self::sub::a"));
    assert_eq!(lookup_str(&map.symbols, "b"), Some("super::sib::b"));
    assert_eq!(lookup_str(&map.symbols, "c"), Some("crate::root::c"));
}

#[test]
fn impl_methods_become_first_class_atoms() {
    let mut store = Store::new();
    let src = b"\
pub struct Foo;\n\
impl Foo {\n\
pub fn build(&self) -> u32 { 0 }\n\
pub fn update(&self) {}\n\
}\n";
    CodeParser::rust()
        .parse(src, "src/foo.rs")
        .expect("parse")
        .apply_to(&mut store);
    // Expect: 1 module + 1 struct + 1 impl + 2 method = 5 atoms.
    assert_eq!(store.atom_count(), 5, "impl methods must produce atoms");
    let build_id = EntityId::new("code:src/foo.rs::function::Foo::build");
    let update_id = EntityId::new("code:src/foo.rs::function::Foo::update");
    let build = store.get_atom(&build_id).expect("build atom");
    let update = store.get_atom(&update_id).expect("update atom");
    assert_eq!(build.kind, "function");
    assert_eq!(build.name, "build");
    assert_eq!(update.name, "update");
}

#[test]
fn impl_method_atoms_are_contained_by_their_impl() {
    let mut store = Store::new();
    let src = b"\
pub struct Foo;\n\
impl Foo { pub fn build(&self) {} }\n";
    CodeParser::rust()
        .parse(src, "src/foo.rs")
        .expect("parse")
        .apply_to(&mut store);
    let impl_id = EntityId::new("code:src/foo.rs::impl::Foo");
    let build_id = EntityId::new("code:src/foo.rs::function::Foo::build");
    let children = store.children_of(&impl_id);
    assert!(
        children.contains(&build_id),
        "impl→method Contains edge missing: {children:?}"
    );
}

#[test]
fn intra_impl_calls_resolve_directly() {
    // `update` calls `build` — both methods of the same impl. The
    // file-wide name lookup can't disambiguate "build" because every
    // impl might define it; the impl-local linker resolves it directly.
    let mut store = Store::new();
    let src = b"\
pub struct Foo;\n\
impl Foo {\n\
pub fn build(&self) -> u32 { 0 }\n\
pub fn update(&self) { let _ = self.build(); }\n\
}\n";
    CodeParser::rust()
        .parse(src, "src/foo.rs")
        .expect("parse")
        .apply_to(&mut store);
    let update_id = EntityId::new("code:src/foo.rs::function::Foo::update");
    let build_id = EntityId::new("code:src/foo.rs::function::Foo::build");
    assert!(
        store.has_call_edge(&update_id, &build_id),
        "intra-impl method call not linked"
    );
}

#[test]
fn methods_in_different_impls_do_not_collide() {
    // `Foo::new` and `Bar::new` both exist; a call to `new` inside
    // `Foo::build` must NOT silently resolve to `Bar::new` (and vice
    // versa). The intra-impl linker only sees this impl's methods.
    let mut store = Store::new();
    let src = b"\
pub struct Foo;\n\
pub struct Bar;\n\
impl Foo {\n\
pub fn new() -> Self { Self }\n\
pub fn build() { let _ = Self::new(); }\n\
}\n\
impl Bar {\n\
pub fn new() -> Self { Self }\n\
}\n";
    CodeParser::rust()
        .parse(src, "src/foo.rs")
        .expect("parse")
        .apply_to(&mut store);
    let foo_build = EntityId::new("code:src/foo.rs::function::Foo::build");
    let foo_new = EntityId::new("code:src/foo.rs::function::Foo::new");
    let bar_new = EntityId::new("code:src/foo.rs::function::Bar::new");
    assert!(store.has_call_edge(&foo_build, &foo_new));
    assert!(!store.has_call_edge(&foo_build, &bar_new));
}

#[test]
fn trait_impl_methods_use_full_impl_name_in_id() {
    // `impl Display for Foo` produces an impl named "Display for Foo";
    // its methods get ids prefixed with that full string.
    let mut store = Store::new();
    let src = b"\
pub struct Foo;\n\
pub trait Display { fn fmt(&self); }\n\
impl Display for Foo { fn fmt(&self) {} }\n";
    CodeParser::rust()
        .parse(src, "src/foo.rs")
        .expect("parse")
        .apply_to(&mut store);
    let fmt_id = EntityId::new("code:src/foo.rs::function::Display for Foo::fmt");
    let fmt = store
        .get_atom(&fmt_id)
        .expect("trait-impl method atom must exist");
    assert_eq!(fmt.name, "fmt");
}
