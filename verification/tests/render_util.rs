use ast_to_mermaid::render::util::{crate_name, escape_label, mermaid_id, mermaid_id_char};

#[test]
fn mermaid_id_keeps_alphanumeric_and_underscore() {
    assert_eq!(mermaid_id("foo_bar123"), "foo_bar123");
}

#[test]
fn mermaid_id_replaces_punctuation() {
    assert_eq!(mermaid_id("foo-bar.rs"), "foo_bar_rs");
    assert_eq!(mermaid_id("crates/anatta-api"), "crates_anatta_api");
    assert_eq!(mermaid_id("a::b::c"), "a__b__c");
}

#[test]
fn mermaid_id_handles_empty() {
    assert_eq!(mermaid_id(""), "_");
}

#[test]
fn mermaid_id_handles_unicode() {
    // is_alphanumeric is unicode-aware
    assert_eq!(mermaid_id("café"), "café");
    assert_eq!(mermaid_id("ε-greedy"), "ε_greedy");
}

#[test]
fn mermaid_id_char_keeps_what_may_stay() {
    assert_eq!(mermaid_id_char('a', true), 'a');
    assert_eq!(mermaid_id_char('_', false), '_');
    assert_eq!(mermaid_id_char('-', false), '_');
}

#[test]
fn escape_label_replaces_quotes() {
    assert_eq!(escape_label("foo"), "foo");
    assert_eq!(escape_label(r#"a "b" c"#), "a &quot;b&quot; c");
    assert_eq!(escape_label(""), "");
}

#[test]
fn crate_name_under_crates_dir() {
    assert_eq!(crate_name("crates/anatta-api/src/lib.rs"), "anatta-api");
    assert_eq!(crate_name("crates/foo/src/mod_a.rs"), "foo");
}

#[test]
fn crate_name_outside_crates_dir() {
    assert_eq!(crate_name("src/lib.rs"), "src");
    assert_eq!(crate_name("just_a_file.rs"), "just_a_file.rs");
}

#[test]
fn crate_name_empty() {
    assert_eq!(crate_name(""), "");
}
