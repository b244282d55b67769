use ast_to_mermaid::dates::{days_to_ymd, utc_timestamp};
use ast_to_mermaid::error::{AstToMermaidError, Result};
use ast_to_mermaid::hash::{git_blob_sha1, hash_disambig, hex_sha256};
use ast_to_mermaid::limits::{resolve_max_ast_depth, MAX_AST_DEPTH};
use ast_to_mermaid::mcp::serve_stdio;
use ast_to_mermaid::paths::{base_name, display_path, join, parent, part_name, sort_key};

// Errors

#[test]
fn error_not_implemented_displays() {
    let e = AstToMermaidError::NotImplemented("parser");
    assert_eq!(e.to_string(), "not implemented: parser");
}

#[test]
fn error_invalid_input_displays() {
    let e = AstToMermaidError::InvalidInput("bad scope".to_owned());
    assert_eq!(e.to_string(), "invalid input: bad scope");
}

#[test]
fn error_debug_renders() {
    let e = AstToMermaidError::NotImplemented("render");
    assert!(format!("{e:?}").contains("NotImplemented"));
}

#[test]
fn error_result_alias_carries_value_or_error() {
    fn maybe(success: bool) -> Result<i32> {
        if success {
            Ok(42)
        } else {
            Err(AstToMermaidError::NotImplemented("foo"))
        }
    }
    assert_eq!(maybe(true).expect("ok"), 42);
    assert!(maybe(false).is_err());
}

#[test]
fn other_errors_display() {
    assert_eq!(AstToMermaidError::Storage("x".to_owned()).to_string(), "storage: x");
    assert_eq!(AstToMermaidError::Io("x".to_owned()).to_string(), "io: x");
    assert_eq!(
        AstToMermaidError::ArtifactNotFound("x".to_owned()).to_string(),
        "artifact not found: x"
    );
}

#[test]
fn serve_stdio_is_not_implemented_yet() {
    let err = serve_stdio().expect_err("v0.1.0 must return NotImplemented");
    let AstToMermaidError::NotImplemented(what) = err else {
        unreachable!("guarded by previous expect_err contract")
    };
    assert_eq!(what, "mcp::serve_stdio");
}

// Limits

#[test]
fn resolve_max_ast_depth_respects_env_override() {
    assert_eq!(resolve_max_ast_depth(Some("8")), 8);
    assert_eq!(resolve_max_ast_depth(Some("1024")), 1024);
}

#[test]
fn resolve_max_ast_depth_falls_back_on_garbage() {
    assert_eq!(resolve_max_ast_depth(Some("0")), MAX_AST_DEPTH);
    assert_eq!(resolve_max_ast_depth(Some("-3")), MAX_AST_DEPTH);
    assert_eq!(resolve_max_ast_depth(Some("not-a-number")), MAX_AST_DEPTH);
    assert_eq!(resolve_max_ast_depth(Some("")), MAX_AST_DEPTH);
    assert_eq!(resolve_max_ast_depth(None), MAX_AST_DEPTH);
}

#[test]
fn max_ast_depth_default_constant_value() {
    assert_eq!(MAX_AST_DEPTH, 256);
}

// Dates

#[test]
fn generated_at_uses_rfc3339_zulu_format() {
    let secs = std::time::SystemTime::now()
        .duration_since(std::time::UNIX_EPOCH)
        .map_or(0, |d| d.as_secs());
    let s = utc_timestamp(secs);
    // YYYY-MM-DDTHH:MM:SSZ — 20 chars, fixed shape.
    assert_eq!(s.len(), 20);
    assert!(s.ends_with('Z'));
    assert_eq!(&s[4..5], "-");
    assert_eq!(&s[7..8], "-");
    assert_eq!(&s[10..11], "T");
    assert_eq!(&s[13..14], ":");
    assert_eq!(&s[16..17], ":");
}

#[test]
fn days_to_ymd_recognises_unix_epoch() {
    assert_eq!(days_to_ymd(0), (1970, 1, 1));
}

#[test]
fn days_to_ymd_handles_leap_year_boundary() {
    // 2024-03-01 is day 19_783 since epoch (2024 is a leap year).
    let (y, m, d) = days_to_ymd(19_783);
    assert_eq!((y, m, d), (2024, 3, 1));
}

#[test]
fn timestamps_are_exact() {
    assert_eq!(utc_timestamp(0), "1970-01-01T00:00:00Z");
    assert_eq!(utc_timestamp(951_826_154), "2000-02-29T12:09:14Z");
    assert_eq!(utc_timestamp(1_709_251_199), "2024-02-29T23:59:59Z");
}

// Hashes

#[test]
fn hashes_of_known_contents() {
    assert_eq!(
        hex_sha256(b"hello"),
        "2cf24dba5fb0a30e26e83b2ac5b9e29e1b161e5c1fa7425e73043362938b9824"
    );
    assert_eq!(
        git_blob_sha1(b"hello\n"),
        "ce013625030ba8dba906f756967f9e9ca394464a"
    );
    assert_eq!(git_blob_sha1(b""), "e69de29bb2d1d6434b8b29ae775ad8c2e48c5391");
    assert_eq!(hash_disambig("hello"), "2cf24d");
}

// Paths

#[test]
fn display_path_strips_root_prefix() {
    assert_eq!(display_path("/work", "/work/src/foo.rs"), "src/foo.rs");
}

#[test]
fn display_path_falls_back_when_strip_fails() {
    let s = display_path("/work", "/elsewhere/foo.rs");
    assert!(s.contains("foo.rs"));
    // A name that only starts alike is no directory above.
    assert_eq!(display_path("/work", "/workshop/foo.rs"), "foo.rs");
    assert_eq!(s, "foo.rs");
}

#[test]
fn paths_are_seen_by_their_components() {
    assert_eq!(display_path("/w", "/w//a"), "a");
    assert_eq!(display_path("/w/", "/w/./a/b.rs"), "a/b.rs");
    assert_eq!(display_path("/w//x", "/w/x/a//b/"), "a//b");
    assert_eq!(display_path("", "/a/b"), "/a/b");
    assert_eq!(display_path(".", "./a"), "a");
    assert_eq!(display_path("/w", "/w"), "");
    assert_eq!(display_path("/w", "w/a"), "a");
    assert_eq!(base_name("/a/b/"), "b");
    assert_eq!(base_name("/a/b/."), "b");
    assert_eq!(base_name("/"), "");
    assert_eq!(parent("/c/"), Some("/".to_owned()));
    assert_eq!(parent("/a//b"), Some("/a".to_owned()));
    assert_eq!(parent("/a/./b/"), Some("/a".to_owned()));
    assert_eq!(parent("./a"), Some(".".to_owned()));
    assert_eq!(parent("a"), Some(String::new()));
    assert_eq!(parent("/"), None);
    assert_eq!(parent("//"), None);
    assert_eq!(parent(""), None);
}

#[test]
fn paths_are_ordered_by_their_components() {
    assert_eq!(sort_key("/a//b/"), sort_key("/a/./b"));
    assert_ne!(sort_key("a"), sort_key("./a"));
    for (small, large) in [("a/b", "a-b"), ("/a", "a"), ("a", "a/b"), ("./a", "../a"), ("../a", "-a")] {
        assert!(sort_key(small) < sort_key(large), "{small} {large}");
    }
}

#[test]
fn paths_join_and_part() {
    assert_eq!(join("/a", "b"), "/a/b");
    assert_eq!(join("/a/", "b"), "/a/b");
    assert_eq!(base_name("/a/b.rs"), "b.rs");
    assert_eq!(parent("/a/b"), Some("/a".to_owned()));
    assert_eq!(part_name("b.rs"), ("b".to_owned(), Some("rs".to_owned())));
    assert_eq!(part_name(".hidden"), (".hidden".to_owned(), None));
}
