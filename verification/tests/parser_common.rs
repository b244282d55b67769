//! The parser's shared parts: encodings, hashes, names and decorators.

use ast_to_mermaid::error::AstToMermaidError;
use ast_to_mermaid::graph::Store;
use ast_to_mermaid::model::{EdgeKind, EntityId};
use ast_to_mermaid::parser::{
    hex_sha256, module_name, normalize_eol, strip_bom, CodeParser, Language,
};

#[test]
fn invalid_utf8_errors() {
    let err = CodeParser::rust()
        .parse(&[0xff, 0xfe], "bad.rs")
        .expect_err("must fail");
    assert!(matches!(err, AstToMermaidError::InvalidInput(_)));
}

#[test]
fn module_name_strips_path_and_extension() {
    assert_eq!(module_name("src/lib.rs"), "lib");
    assert_eq!(module_name("crates/foo/src/main.rs"), "main");
    assert_eq!(module_name("mod.py"), "mod");
}

#[test]
fn module_name_no_extension() {
    // file with no dot → returns full basename
    assert_eq!(module_name("Makefile"), "Makefile");
}

#[test]
fn hex_sha256_deterministic() {
    let a = hex_sha256(b"hello");
    let b = hex_sha256(b"hello");
    assert_eq!(a, b);
    let c = hex_sha256(b"world");
    assert_ne!(a, c);
}

#[test]
fn language_name_returns_correct_tag() {
    assert_eq!(Language::Rust.name(), "rust");
    assert_eq!(Language::Python.name(), "python");
}

#[test]
fn code_parser_language_accessor() {
    assert_eq!(CodeParser::rust().language(), Language::Rust);
    assert_eq!(CodeParser::python().language(), Language::Python);
}

#[test]
fn encoding_edges_strip_bom_removes_leading_efbbbf() {
    assert_eq!(strip_bom(&[0xEF, 0xBB, 0xBF, b'a', b'b']), b"ab");
    // Idempotent on input without BOM.
    assert_eq!(strip_bom(b"ab"), b"ab");
    // Only leading BOM is stripped — mid-buffer bytes are kept.
    assert_eq!(
        strip_bom(&[b'a', 0xEF, 0xBB, 0xBF, b'b']),
        &[b'a', 0xEF, 0xBB, 0xBF, b'b']
    );
    // Partial / single-byte input doesn't panic.
    assert_eq!(strip_bom(b""), b"");
    assert_eq!(strip_bom(&[0xEF]), &[0xEF]);
}

#[test]
fn encoding_edges_normalize_eol_rewrites_cr_only_keeps_crlf() {
    // CR-only → LF.
    assert_eq!(normalize_eol(b"a\rb\rc").as_ref(), b"a\nb\nc");
    // CRLF stays as-is.
    assert_eq!(normalize_eol(b"a\r\nb").as_ref(), b"a\r\nb");
    // Mixed: CRLF preserved, lone CR rewritten.
    assert_eq!(normalize_eol(b"a\r\nb\rc").as_ref(), b"a\r\nb\nc");
    // No change → borrowed (no allocation).
    let s: &[u8] = b"plain\nlf\nonly";
    let cow = normalize_eol(s);
    assert!(matches!(cow, std::borrow::Cow::Borrowed(_)));
    // Trailing bare CR is rewritten too.
    assert_eq!(normalize_eol(b"end\r").as_ref(), b"end\n");
}

#[test]
fn encoding_edges_parser_accepts_file_with_bom() {
    // EF BB BF prefix on otherwise-valid Rust source. Without
    // BOM-stripping tree-sitter reports the whole file as malformed.
    let mut src: Vec<u8> = vec![0xEF, 0xBB, 0xBF];
    src.extend_from_slice(b"/// hello\nfn main() {}\n");
    let mut store = Store::new();
    CodeParser::rust()
        .parse(&src, "bom.rs")
        .expect("parse must succeed after BOM strip")
        .apply_to(&mut store);
    let id = EntityId::new("code:bom.rs::function::main");
    let atom = store.get_atom(&id).expect("function atom");
    assert!(atom.doc.contains("hello"), "doc={:?}", atom.doc);
}

#[test]
fn encoding_edges_parser_accepts_cr_only_line_endings() {
    // Classic-Mac line endings: bare \r between lines.
    let src = b"/// docline\rfn cr_only() {}\r";
    let mut store = Store::new();
    CodeParser::rust()
        .parse(src, "cr.rs")
        .expect("parse must succeed after CR-only normalisation")
        .apply_to(&mut store);
    let id = EntityId::new("code:cr.rs::function::cr_only");
    let atom = store.get_atom(&id).expect("function atom");
    assert!(atom.doc.contains("docline"), "doc={:?}", atom.doc);
}

#[test]
fn extract_item_decorator_unwraps_to_inner_function() {
    // A Python `@deco`-prefixed top-level function. tree-sitter wraps
    // it in `decorated_definition`; extract_item must unwrap that and
    // surface the inner `function_definition`'s name + body.
    let src = b"@deco\ndef wrapped():\n    pass\n";
    let mut store = Store::new();
    CodeParser::python()
        .parse(src, "deco.py")
        .expect("parse")
        .apply_to(&mut store);
    let id = EntityId::new("code:deco.py::function::wrapped");
    let atom = store
        .get_atom(&id)
        .expect("decorated function should produce a function atom");
    assert_eq!(atom.name, "wrapped");
    assert_eq!(atom.kind, "function");
}

#[test]
fn extract_item_handles_stacked_decorators_iteratively() {
    // Multiple stacked decorators on one definition. The wrapper is a
    // single `decorated_definition` (tree-sitter's grammar collapses
    // the chain), but the iterative unwrap must still terminate
    // correctly and yield the inner def. This is the canonical
    // shape that exercises the loop body.
    let src = b"@deco_one\n@deco_two\n@deco_three\ndef triple():\n    pass\n";
    let mut store = Store::new();
    CodeParser::python()
        .parse(src, "stacked.py")
        .expect("parse")
        .apply_to(&mut store);
    let id = EntityId::new("code:stacked.py::function::triple");
    assert!(
        store.get_atom(&id).is_some(),
        "stacked-decorator function must extract"
    );
}

#[test]
fn a_unit_is_closed_and_all_but_the_module_is_contained() {
    let src = b"pub struct S;\nimpl S {\n    fn a(&self) { self.b(); helper(); }\n    fn b(&self) {}\n}\nfn helper() { helper(); other(); }\nfn other() {}\n";
    let unit = CodeParser::rust().parse(src, "src/s.rs").expect("parse");
    assert_eq!(unit.atoms[0].kind, "module");
    assert_eq!(unit.atoms.iter().filter(|a| a.kind == "module").count(), 1);
    let ids: Vec<&str> = unit.atoms.iter().map(|a| a.id.as_str()).collect();
    assert!(unit.atoms.iter().all(|a| a.file_path == "src/s.rs"));
    for e in &unit.edges {
        assert!(ids.contains(&e.from.as_str()), "from={:?}", e.from);
        assert!(ids.contains(&e.to.as_str()), "to={:?}", e.to);
        assert!(e.kind != EdgeKind::Calls || e.from.as_str() != e.to.as_str());
    }
    for id in &ids[1..] {
        assert!(
            unit.edges
                .iter()
                .any(|e| e.kind == EdgeKind::Contains && e.to.as_str() == *id),
            "id={id}"
        );
    }
    assert!(unit
        .edges
        .iter()
        .any(|e| e.kind == EdgeKind::Calls && e.to.as_str() == "code:src/s.rs::function::other"));
}
