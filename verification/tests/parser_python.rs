//! Python sources: items, docstrings, calls and imports.

use ast_to_mermaid::graph::Store;
use ast_to_mermaid::limits::MAX_AST_DEPTH;
use ast_to_mermaid::model::EntityId;
use ast_to_mermaid::parser::calls::{extract_calls, ExtractedCalls};
use ast_to_mermaid::parser::python::extract_imports;
use ast_to_mermaid::parser::scope::{lookup_str, Imports};
use ast_to_mermaid::parser::tree::SyntaxNode;
use ast_to_mermaid::parser::treesitter::{parse_tree, Grammar};
use ast_to_mermaid::parser::CodeParser;

fn parse(src: &str) -> Vec<SyntaxNode> {
    parse_tree(Grammar::Python, src.as_bytes())
        .expect("python grammar")
        .expect("parse")
}

fn imports_of(src: &str) -> Imports {
    extract_imports(&parse(src), src)
}

fn calls_of(src: &str, imports: &Imports) -> ExtractedCalls {
    extract_calls(Grammar::Python, &parse(src), 0, src, imports, MAX_AST_DEPTH)
}

#[test]
fn from_import_maps_symbol_to_module_last() {
    let imp = imports_of("from lib.catalog import load_catalog\n");
    assert_eq!(
        lookup_str(&imp.symbols, "load_catalog"),
        Some("catalog::load_catalog")
    );
}

#[test]
fn from_import_alias_keeps_alias_key() {
    let imp = imports_of("from lib.catalog import load_catalog as lc\n");
    assert_eq!(
        lookup_str(&imp.symbols, "lc"),
        Some("catalog::load_catalog")
    );
    assert!(!lookup_str(&imp.symbols, "load_catalog").is_some());
}

#[test]
fn import_aliased_module_maps_to_last_component() {
    let imp = imports_of("import lib.config as config\n");
    assert_eq!(
        lookup_str(&imp.modules, "config"),
        Some("config")
    );
}

#[test]
fn import_single_module_maps_to_itself() {
    let imp = imports_of("import os\n");
    assert_eq!(lookup_str(&imp.modules, "os"), Some("os"));
}

#[test]
fn relative_from_import_submodule_is_module() {
    // `from . import sib` — sib is itself a submodule alias.
    let imp = imports_of("from . import sib\n");
    assert_eq!(lookup_str(&imp.modules, "sib"), Some("sib"));
    // `from .mod import rel` — rel is a symbol of module `mod`.
    let imp2 = imports_of("from .mod import rel\n");
    assert_eq!(
        lookup_str(&imp2.symbols, "rel"),
        Some("mod::rel")
    );
}

#[test]
fn bare_call_rewritten_via_symbol_import() {
    let imp = imports_of("from lib.catalog import load_catalog\n");
    let calls = calls_of("load_catalog()\n", &imp);
    assert!(
        calls.calls.iter().any(|c| c.name == "catalog::load_catalog"),
        "calls={:?}",
        calls.calls
    );
}

#[test]
fn module_attribute_call_rewritten_to_qualified() {
    let imp = imports_of("import lib.config as config\n");
    let calls = calls_of("config.current()\n", &imp);
    assert!(
        calls.calls.iter().any(|c| c.name == "config::current"),
        "calls={:?}",
        calls.calls
    );
}

#[test]
fn unimported_bare_call_stays_bare() {
    let calls = calls_of("helper()\n", &Imports::new());
    assert!(
        calls.calls.iter().any(|c| c.name == "helper"),
        "{:?}",
        calls.calls
    );
}

#[test]
fn instance_method_call_stays_method_call() {
    // `self.method()` / `obj.method()` — receiver type unknown, must not
    // become a resolver-eligible qualified call.
    let calls = calls_of("self.gettext(k)\nobj.run()\n", &Imports::new());
    assert!(calls.calls.is_empty(), "calls leaked: {:?}", calls.calls);
    assert!(calls.method_calls.iter().any(|m| m.name == "gettext"));
    assert!(calls.method_calls.iter().any(|m| m.name == "run"));
}

#[test]
fn python_parser_extracts_functions_and_classes() {
    let mut store = Store::new();
    let src = b"def foo():\n    pass\n\nclass Bar:\n    pass\n";
    CodeParser::python()
        .parse(src, "mod.py")
        .expect("parse")
        .apply_to(&mut store);
    assert!(!store.atoms_by_kind("function").is_empty());
    assert!(!store.atoms_by_kind("struct").is_empty()); // class → struct
}

#[test]
fn python_docstring_extracted() {
    let mut store = Store::new();
    let src = b"def greet():\n    \"\"\"Say hello.\"\"\"\n    pass\n";
    CodeParser::python()
        .parse(src, "greet.py")
        .expect("parse")
        .apply_to(&mut store);
    let id = EntityId::new("code:greet.py::function::greet");
    let atom = store.get_atom(&id).expect("atom");
    assert!(atom.doc.contains("Say hello"), "doc={:?}", atom.doc);
}

#[test]
fn python_method_calls_extracted() {
    let mut store = Store::new();
    // obj.method() — triggers method_call_expression in Python grammar
    let src = b"def runner():\n    obj.run()\n    helper()\n";
    CodeParser::python()
        .parse(src, "runner.py")
        .expect("parse")
        .apply_to(&mut store);
    let id = EntityId::new("code:runner.py::function::runner");
    let atom = store.get_atom(&id).expect("atom");
    // calls list should contain extracted call names
    assert!(
        !atom.calls.is_empty(),
        "expected some calls, got {:?}",
        atom.calls
    );
}
