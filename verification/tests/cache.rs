use ast_to_mermaid::cache::gc::{plan_gc, GcEntry, GcOptions, GcPolicy, Removal};
use ast_to_mermaid::cache::safety::{decide, PathKind, Purpose, Treatment};
use ast_to_mermaid::cache::{
    cache_version, gitignore, is_stale, is_tmp_name, open_envelope, tmp_dir_name, tmp_name, Cache,
    BLOB_ENVELOPE_VERSION, BLOB_MAGIC,
};
use ast_to_mermaid::dates::Duration;

fn entry(path: &str, mtime: i128, size: u64) -> GcEntry {
    GcEntry { path: path.to_owned(), mtime, size }
}

fn removed(plan: &[GcEntry]) -> Vec<&str> {
    plan.iter().map(|e| e.path.as_str()).collect()
}

#[test]
fn version_mismatch_wipes_blobs() {
    let want = cache_version("1.2.3");
    assert_eq!(want, "schema=6;grammar=6;a2m=1.2.3");
    assert!(is_stale(Some("stale"), &want));
    assert!(is_stale(None, &want));
    assert!(!is_stale(Some(&format!("{want}\n")), &want));
}

#[test]
fn ensure_gitignore_creates_file_with_wildcard() {
    assert!(gitignore().contains('*'));
    let cache = Cache::at("/r/.a2m/cache");
    assert_eq!(cache.gitignore_path(), Some("/r/.a2m/.gitignore".to_owned()));
}

#[test]
fn has_bundle_returns_false_until_index_written() {
    let cache = Cache::at("c");
    assert!(!cache.has_bundle("deadbeef", &Vec::new()));
    let dir = cache.bundle_dir("deadbeef");
    assert!(!cache.has_bundle("deadbeef", &vec![dir.clone()]));
    assert!(cache.has_bundle("deadbeef", &vec![format!("{dir}/index.json")]));
    assert_eq!(cache.bundle_index("deadbeef"), "c/refs/deadbeef/index.json");
}

#[test]
fn default_root_is_dot_a2m_cache() {
    assert_eq!(Cache::default_root("/tmp/repo"), "/tmp/repo/.a2m/cache");
}

#[test]
fn paths_of_a_cache() {
    let cache = Cache::at("/c");
    assert_eq!(cache.root(), "/c");
    assert_eq!(cache.subdir("blobs"), "/c/blobs");
    assert_eq!(cache.blob_path("abc123"), "/c/blobs/abc123.cbor");
}

#[test]
fn gc_size_cap_evicts_oldest_first() {
    let entries = vec![entry("blobs/a", 1, 10), entry("blobs/b", 2, 10), entry("blobs/c", 3, 10)];
    let plan = plan_gc(
        &entries,
        100,
        &GcOptions { max_size_bytes: Some(30 / 3 + 1), older_than: None, dry_run: false },
    );
    assert_eq!(plan.total_before, 30);
    assert_eq!(plan.count_before, 3);
    assert_eq!(removed(&plan.removals), vec!["blobs/a", "blobs/b"]);
}

#[test]
fn gc_dry_run_touches_nothing() {
    let plan = plan_gc(
        &vec![entry("blobs/x", 1, 10)],
        100,
        &GcOptions { max_size_bytes: Some(0), older_than: None, dry_run: true },
    );
    let report = plan.start(true);
    assert!(report.dry_run);
    assert_eq!(report.removed_count, 1);
    assert_eq!(report.removed_size, 10);
}

#[test]
fn version_mismatch_envelope_is_treated_as_miss() {
    assert_eq!(open_envelope(BLOB_MAGIC, 9999, "unit"), None);
    assert_eq!(open_envelope(0, BLOB_ENVELOPE_VERSION, "unit"), None);
    assert_eq!(open_envelope(BLOB_MAGIC, BLOB_ENVELOPE_VERSION, "unit"), Some("unit"));
}

#[test]
fn gc_empty_cache_is_a_noop() {
    let plan = plan_gc(&Vec::new(), 100, &GcOptions::default());
    let r = plan.start(false);
    assert_eq!(r.removed_count, 0);
    assert_eq!(r.total_before, 0);
    assert!(r.errors.is_empty());
}

#[test]
fn gc_dedups_when_age_and_size_passes_overlap() {
    let entries = vec![entry("blobs/a", 1, 10), entry("blobs/b", 2, 10), entry("blobs/c", 3, 10)];
    let plan = plan_gc(
        &entries,
        100,
        &GcOptions {
            max_size_bytes: Some(0),
            older_than: Some(Duration::from_secs(0)),
            dry_run: false,
        },
    );
    assert_eq!(removed(&plan.removals), vec!["blobs/a", "blobs/b", "blobs/c"]);
    let mut report = plan.start(false);
    for e in &plan.removals {
        report.note(e, Removal::Removed).expect("removed");
    }
    assert_eq!(report.removed_count, 3, "expected 3 removed: {report:?}");
    assert!(report.errors.is_empty(), "no errors expected: {report:?}");
}

#[test]
fn gc_partial_success_records_errors_instead_of_bubbling() {
    let e = entry("refs/locked", 1, 2);
    let plan = plan_gc(
        &vec![entry("refs/locked", 1, 2)],
        100,
        &GcOptions { max_size_bytes: Some(0), older_than: None, dry_run: false },
    );
    let mut report = plan.start(false);
    report
        .note(&e, Removal::Failed("permission denied".to_owned()))
        .expect("partial-success path must keep gc Ok-not-Err");
    report.note(&e, Removal::Vanished).expect("gone already");
    assert_eq!(report.removed_count, 0);
    assert_eq!(
        report.errors,
        vec![("refs/locked".to_owned(), "permission denied".to_owned())]
    );
    assert!(report.note(&e, Removal::Symlink).is_err());
}

#[test]
fn gc_age_limit_takes_what_is_older() {
    let second: i128 = 1_000_000_000;
    let entries = vec![entry("a", 0, 1), entry("b", 90 * second, 1)];
    let plan = plan_gc(
        &entries,
        100 * second,
        &GcOptions {
            max_size_bytes: None,
            older_than: Some(Duration::from_secs(50)),
            dry_run: false,
        },
    );
    assert_eq!(removed(&plan.removals), vec!["a"]);
    let all = plan_gc(
        &entries,
        100 * second,
        &GcOptions { max_size_bytes: None, older_than: None, dry_run: false },
    );
    assert!(all.removals.is_empty());
}

#[test]
fn gc_age_limit_is_exact_to_the_nanosecond() {
    let limit = GcOptions {
        max_size_bytes: None,
        older_than: Some(Duration::new(1, 500_000_000)),
        dry_run: false,
    };
    let entries = vec![entry("a", 0, 1), entry("b", 1, 1)];
    assert_eq!(removed(&plan_gc(&entries, 1_500_000_001, &limit).removals), vec!["a"]);
    assert!(plan_gc(&entries, 1_500_000_000, &limit).removals.is_empty());
}

#[test]
fn gc_leaves_what_fits_under_the_cap() {
    let second: i128 = 1_000_000_000;
    let entries = vec![
        entry("d", 95 * second, 7),
        entry("a", 0, 100),
        entry("c", 92 * second, 5),
        entry("b", 91 * second, 9),
    ];
    for cap in [0, 6, 7, 11, 12, 20, 21, 500] {
        let plan = plan_gc(
            &entries,
            100 * second,
            &GcOptions {
                max_size_bytes: Some(cap),
                older_than: Some(Duration::from_secs(50)),
                dry_run: false,
            },
        );
        let gone: u64 = plan.removals.iter().map(|e| e.size).sum();
        assert_eq!(plan.total_before, 121);
        assert!(plan.total_before - gone <= cap);
    }
    let at = |cap: u64| {
        let limit = GcOptions { max_size_bytes: Some(cap), older_than: None, dry_run: false };
        let plan = plan_gc(&entries, 100 * second, &limit);
        plan.removals.iter().map(|e| e.path.clone()).collect::<Vec<String>>()
    };
    assert_eq!(at(12), vec!["a", "b"]);
    assert_eq!(at(11), vec!["a", "b", "c"]);
    assert_eq!(at(121), Vec::<String>::new());
}

#[test]
fn gc_takes_each_path_once() {
    let second: i128 = 1_000_000_000;
    let entries = vec![
        entry("refs/b", 70 * second, 4),
        entry("refs/a", 0, 1),
        entry("refs/a", 90 * second, 2),
        entry("refs/b", 60 * second, 8),
    ];
    let plan = plan_gc(
        &entries,
        100 * second,
        &GcOptions {
            max_size_bytes: Some(0),
            older_than: Some(Duration::from_secs(50)),
            dry_run: true,
        },
    );
    assert_eq!(removed(&plan.removals), vec!["refs/a", "refs/b"]);
    // The entry that is too old stands for its path; of the others the oldest.
    assert_eq!(plan.removals[0].size, 1);
    assert_eq!(plan.removals[1].size, 8);
    assert_eq!(plan.start(true).removed_size, 9);
}

#[test]
fn open_sweeps_stale_tmp_blobs() {
    assert!(is_tmp_name(".foo.tmp.123.456.0"));
    assert!(is_tmp_name(&tmp_name("ab.cbor", 1, 2, 3)));
    assert!(is_tmp_name(&tmp_dir_name("sha", 7)));
    assert!(!is_tmp_name("ab.cbor"));
    assert_eq!(tmp_name("ab.cbor", 1, 2, 3), ".ab.cbor.tmp.1.2.3");
    assert_ne!(tmp_name("x", 1, 2, 3), tmp_name("x", 1, 2, 4));
}

#[test]
fn policies_come_from_settings() {
    assert!(GcPolicy::from_env(Some("0"), None, None).is_none());
    let p = GcPolicy::from_env(None, Some("5"), Some("junk")).expect("policy");
    assert_eq!(p.max_total_bytes, Some(5));
    assert_eq!(p.max_age_secs, Some(2_592_000));
    assert!(p.is_due(0));
    let o = p.options();
    assert_eq!(o.max_size_bytes, Some(5));
    assert_eq!(o.older_than, Some(Duration::from_secs(2_592_000)));
    assert!(!o.dry_run);
    let by_size = GcPolicy { max_total_bytes: Some(5), max_age_secs: None };
    assert!(by_size.is_due(6));
    assert!(!by_size.is_due(5));
}

#[test]
fn links_are_refused_everywhere() {
    for purpose in [
        Purpose::Walk,
        Purpose::List,
        Purpose::Measure,
        Purpose::RemoveTree,
        Purpose::RemoveChild,
        Purpose::Sweep,
        Purpose::BundleParent,
        Purpose::BundleScratch,
        Purpose::BundleTarget,
    ] {
        let err = decide(purpose, PathKind::Symlink, "x").expect_err("link");
        assert!(err.to_string().contains("refusing"));
        assert_eq!(decide(purpose, PathKind::Missing, "x").expect("skip"), Treatment::Skip);
    }
    assert_eq!(
        decide(Purpose::Walk, PathKind::Directory, "x").expect("tree"),
        Treatment::Tree
    );
    assert_eq!(
        decide(Purpose::Sweep, PathKind::File, "x").expect("file"),
        Treatment::Single
    );
    assert!(decide(Purpose::RemoveTree, PathKind::File, "x").is_err());
}

#[test]
fn a_dry_run_reports_what_a_run_reports() {
    let entries = vec![entry("blobs/a", 1, 10), entry("blobs/b", 2, 20), entry("blobs/c", 3, 30)];
    let options = GcOptions { max_size_bytes: Some(30), older_than: None, dry_run: true };
    let plan = plan_gc(&entries, 100, &options);
    let dry = plan.start(true);
    let mut run = plan.start(false);
    for e in &plan.removals {
        run.note(e, Removal::Removed).expect("removed");
    }
    assert_eq!(dry.removed_count, 2);
    assert_eq!(
        (dry.removed_count, dry.removed_size, dry.count_before, dry.total_before),
        (run.removed_count, run.removed_size, run.count_before, run.total_before)
    );
    assert!(dry.errors.is_empty() && run.errors.is_empty());
    assert!(dry.dry_run && !run.dry_run);
}

#[test]
fn the_ignore_file_is_next_to_the_root() {
    assert_eq!(Cache::at("/c/").gitignore_path(), Some("/.gitignore".to_owned()));
    assert_eq!(Cache::at("/r//c").gitignore_path(), Some("/r/.gitignore".to_owned()));
    assert_eq!(Cache::at("/").gitignore_path(), None);
}
