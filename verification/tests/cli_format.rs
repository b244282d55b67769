use ast_to_mermaid::cli::format::{
    format_summary_comment, parse_csv_exclude, parse_duration, parse_size,
};
use ast_to_mermaid::cli::AnalyzeFormat;
use ast_to_mermaid::dates::Duration;

#[test]
fn parse_csv_exclude_trims_and_drops_empties() {
    assert_eq!(parse_csv_exclude("a,, b ,c"), vec!["a", "b", "c"]);
    assert!(parse_csv_exclude("").is_empty());
    assert!(parse_csv_exclude(" , , ").is_empty());
    assert_eq!(parse_csv_exclude("target"), vec!["target"]);
}

#[test]
fn format_parse_size_plain_bytes() {
    assert_eq!(parse_size("42").unwrap(), 42);
}

#[test]
fn format_parse_size_suffixes_kilo_mega_giga() {
    assert_eq!(parse_size("2K").unwrap(), 2 * 1024);
    assert_eq!(parse_size("3m").unwrap(), 3 * 1024 * 1024);
    assert_eq!(parse_size("1G").unwrap(), 1024 * 1024 * 1024);
    assert_eq!(parse_size("4k").unwrap(), 4 * 1024);
}

#[test]
fn format_parse_size_empty_errors() {
    let err = parse_size("   ").unwrap_err().to_string();
    assert!(err.contains("empty"), "got: {err}");
}

#[test]
fn format_parse_size_non_numeric_errors() {
    let err = parse_size("abc").unwrap_err().to_string();
    assert!(err.contains("expected"), "got: {err}");
}

#[test]
fn parse_size_non_ascii_suffix_errors_without_panic() {
    let err = parse_size("5€").unwrap_err().to_string();
    assert!(err.contains("expected"), "got: {err}");
}

#[test]
fn parse_size_overflow_errors() {
    // u64::MAX / (1<<30) ≈ 1.7e10, so 1e11 G overflows.
    let err = parse_size("99999999999G").unwrap_err().to_string();
    assert!(err.contains("size overflow"), "got: {err}");
}

#[test]
fn format_parse_duration_units() {
    assert_eq!(parse_duration("30s").unwrap(), Duration::from_secs(30));
    assert_eq!(parse_duration("2m").unwrap(), Duration::from_secs(120));
    assert_eq!(parse_duration("1h").unwrap(), Duration::from_secs(3600));
    assert_eq!(parse_duration("1d").unwrap(), Duration::from_secs(86400));
    assert_eq!(parse_duration("1w").unwrap(), Duration::from_secs(604_800));
    assert_eq!(parse_duration("7").unwrap(), Duration::from_secs(7));
}

#[test]
fn format_parse_duration_empty_errors() {
    assert!(
        parse_duration("")
            .unwrap_err()
            .to_string()
            .contains("empty")
    );
}

#[test]
fn format_parse_duration_non_numeric_errors() {
    let err = parse_duration("xs").unwrap_err().to_string();
    assert!(err.contains("expected"), "got: {err}");
}

#[test]
fn parse_duration_non_ascii_suffix_errors_without_panic() {
    let err = parse_duration("5€").unwrap_err().to_string();
    assert!(err.contains("expected"), "got: {err}");
}

#[test]
fn parse_duration_overflow_errors() {
    let err = parse_duration("999999999999999999w")
        .unwrap_err()
        .to_string();
    assert!(err.contains("duration overflow"), "got: {err}");
}

#[test]
fn format_summary_comment_uses_mermaid_prefix() {
    let line = format_summary_comment(AnalyzeFormat::Mermaid, 10, 20, 30);
    assert!(line.starts_with("%% analyzed 10 files"), "got: {line}");
    assert!(line.contains("20 atoms"));
    assert!(line.contains("30 cross-module edges"));
}

#[test]
fn format_summary_comment_uses_dot_prefix() {
    let line = format_summary_comment(AnalyzeFormat::Dot, 1, 2, 3);
    assert!(line.starts_with("// analyzed 1 files"), "got: {line}");
}

#[test]
fn cli_support_parse_size_plain_bytes() {
    assert_eq!(parse_size("42").unwrap(), 42);
}

#[test]
fn cli_support_parse_size_suffixes_kilo_mega_giga() {
    assert_eq!(parse_size("2K").unwrap(), 2 * 1024);
    assert_eq!(parse_size("3m").unwrap(), 3 * 1024 * 1024);
    assert_eq!(parse_size("1G").unwrap(), 1024 * 1024 * 1024);
    // Mixed-case suffixes accepted.
    assert_eq!(parse_size("4k").unwrap(), 4 * 1024);
}

#[test]
fn cli_support_parse_size_empty_errors() {
    let err = parse_size("   ").unwrap_err().to_string();
    assert!(err.contains("empty"), "got: {err}");
}

#[test]
fn cli_support_parse_size_non_numeric_errors() {
    let err = parse_size("abc").unwrap_err().to_string();
    assert!(err.contains("expected"), "got: {err}");
}

#[test]
fn cli_support_parse_duration_units() {
    assert_eq!(parse_duration("30s").unwrap(), Duration::from_secs(30));
    assert_eq!(parse_duration("2m").unwrap(), Duration::from_secs(120));
    assert_eq!(parse_duration("1h").unwrap(), Duration::from_secs(3600));
    assert_eq!(parse_duration("1d").unwrap(), Duration::from_secs(86400));
    assert_eq!(parse_duration("1w").unwrap(), Duration::from_secs(604_800));
    // No suffix => seconds.
    assert_eq!(parse_duration("7").unwrap(), Duration::from_secs(7));
}

#[test]
fn cli_support_parse_duration_empty_errors() {
    assert!(parse_duration("").unwrap_err().to_string().contains("empty"));
}

#[test]
fn cli_support_parse_duration_non_numeric_errors() {
    let err = parse_duration("xs").unwrap_err().to_string();
    assert!(err.contains("expected"), "got: {err}");
}

#[test]
fn format_summary_comment_is_exact() {
    assert_eq!(
        format_summary_comment(AnalyzeFormat::Mermaid, 10, 20, 30),
        "%% analyzed 10 files, 20 atoms, 30 cross-module edges"
    );
}

#[test]
fn parse_errors_name_the_shape() {
    assert_eq!(
        parse_size("abc").unwrap_err().to_string(),
        "invalid input: expected `<num>[K|M|G]`, got `abc`: invalid digit found in string"
    );
    assert_eq!(
        parse_duration("d").unwrap_err().to_string(),
        "invalid input: expected `<num>[s|m|h|d|w]`, got `d`: cannot parse integer from empty string"
    );
}

#[test]
fn numbers_without_a_unit_are_read_as_written() {
    for n in [0u64, 7, 10, 4096, u64::MAX] {
        assert_eq!(parse_size(&n.to_string()).expect("size"), n);
        assert_eq!(parse_duration(&n.to_string()).expect("duration").as_secs(), n);
    }
}
