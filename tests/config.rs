use langstats::config::{Args, ConfigError, DataSource};
use langstats::materialize::FileChangeRecord;

fn args(token: Option<&str>, cache: Option<&str>, threshold: usize) -> Args {
    Args {
        personal_token: token.map(|s| s.to_string()),
        cache_path: cache.map(|s| s.to_string()),
        categories: vec![],
        hidden: vec![],
        group_threshold: threshold,
    }
}

#[test]
fn exactly_one_source_is_required() {
    assert!(matches!(args(None, None, 1).data_source(), Err(ConfigError::NoSource)));
    assert!(matches!(args(Some("t"), Some("c"), 1).data_source(), Err(ConfigError::BothSources)));
    match args(Some("tok"), None, 1).data_source() {
        Ok(DataSource::Live(t)) => assert_eq!(t, "tok"),
        _ => panic!("expected a live source"),
    }
    match args(None, Some("cache.json"), 1).data_source() {
        Ok(DataSource::Cache(p)) => assert_eq!(p, "cache.json"),
        _ => panic!("expected a cache source"),
    }
}

#[test]
fn unclassified_shown_only_when_grouping() {
    assert!(args(None, None, 100).keep_unclassified());
    assert!(!args(None, None, 0).keep_unclassified());
}

fn record(path: &str, locator: Option<&str>) -> FileChangeRecord {
    FileChangeRecord {
        path: path.to_string(),
        additions: 3,
        deletions: 4,
        changes: 9,
        content_locator: locator.map(|s| s.to_string()),
    }
}

#[test]
fn file_name_is_last_segment() {
    assert_eq!(record("src/lib/main.rs", None).file_name(), Some("main.rs".to_string()));
    assert_eq!(record("Makefile", None).file_name(), Some("Makefile".to_string()));
    assert_eq!(record("a/.gitignore", None).file_name(), Some(".gitignore".to_string()));
    assert_eq!(record("a/b/", None).file_name(), None);
    assert_eq!(record("a/..", None).file_name(), None);
    assert_eq!(record(".", None).file_name(), None);
    assert_eq!(record("", None).file_name(), None);
}

#[test]
fn missing_locator_writes_empty_content() {
    assert_eq!(record("x.rs", None).content(), "");
    assert_eq!(record("x.rs", Some("https://example.org/raw/x.rs")).content(), "https://example.org/raw/x.rs");
}

#[test]
fn record_stats_keep_each_field() {
    let s = record("x.rs", None).stats();
    assert_eq!((s.additions, s.deletions, s.changes), (3, 4, 9));
}
