use langstats::chart::{metric_bars, project, Metric};
use langstats::filter::filter_languages;
use langstats::language::{LanguageIdentity, LanguageType};
use langstats::stats::LanguageStats;

fn lang(name: &str, category: LanguageType) -> Option<LanguageIdentity> {
    Some(LanguageIdentity::new(name.to_string(), category))
}

fn st(a: u64, d: u64, c: u64) -> LanguageStats {
    LanguageStats { additions: a, deletions: d, changes: c }
}

fn names(v: &[(Option<LanguageIdentity>, LanguageStats)]) -> Vec<Option<String>> {
    v.iter().map(|(k, _)| k.as_ref().map(|i| i.name.clone())).collect()
}

fn sample() -> Vec<(Option<LanguageIdentity>, LanguageStats)> {
    vec![
        (lang("Rust", LanguageType::Programming), st(1, 1, 1)),
        (lang("Markdown", LanguageType::Prose), st(2, 2, 2)),
        (lang("HTML", LanguageType::Markup), st(3, 3, 3)),
        (lang("Go", LanguageType::Programming), st(4, 4, 4)),
        (None, st(5, 5, 5)),
        (lang("Python", LanguageType::Programming), st(6, 6, 6)),
    ]
}

#[test]
fn scenario_category_and_hidden_name_excluded() {
    let out = filter_languages(sample(), &vec![LanguageType::Programming], &vec!["Go".to_string()], false);
    assert_eq!(names(&out), vec![Some("Rust".to_string()), Some("Python".to_string())]);
}

#[test]
fn empty_categories_keep_every_category() {
    let out = filter_languages(sample(), &vec![], &vec![], false);
    assert_eq!(out.len(), 5);
}

#[test]
fn unclassified_kept_by_flag() {
    let out = filter_languages(sample(), &vec![LanguageType::Markup], &vec![], true);
    assert_eq!(names(&out), vec![Some("HTML".to_string()), None]);
}

#[test]
fn hidden_wins_over_empty_categories() {
    let out = filter_languages(sample(), &vec![], &vec!["Rust".to_string(), "HTML".to_string()], true);
    assert_eq!(
        names(&out),
        vec![Some("Markdown".to_string()), Some("Go".to_string()), None, Some("Python".to_string())]
    );
}

#[test]
fn project_labels_unclassified_as_others() {
    let out = project(&sample(), Metric::Deletions);
    assert_eq!(out[4], ("Others".to_string(), 5));
    assert_eq!(out[0], ("Rust".to_string(), 1));
    let adds = project(&vec![(None, st(9, 8, 7))], Metric::Additions);
    let changes = project(&vec![(None, st(9, 8, 7))], Metric::Changes);
    assert_eq!(adds[0].1, 9);
    assert_eq!(changes[0].1, 7);
}

#[test]
fn metric_bars_bucket_each_metric() {
    let entries = vec![
        (lang("Rust", LanguageType::Programming), st(1000, 1, 40)),
        (lang("Go", LanguageType::Programming), st(5, 100, 40)),
        (lang("Lisp", LanguageType::Programming), st(2, 2, 40)),
    ];
    let adds = metric_bars(&entries, Metric::Additions, 100).unwrap();
    assert_eq!(adds, vec![("Rust".to_string(), 1000), ("Others".to_string(), 7)]);
    let dels = metric_bars(&entries, Metric::Deletions, 10).unwrap();
    assert_eq!(dels, vec![("Go".to_string(), 100), ("Others".to_string(), 3)]);
    let changes = metric_bars(&entries, Metric::Changes, 100).unwrap();
    assert_eq!(changes.len(), 3);
}

#[test]
fn metric_bars_overflow_is_none() {
    let entries = vec![(None, st(u64::MAX, 0, 0)), (lang("Go", LanguageType::Programming), st(1, 0, 0))];
    assert!(metric_bars(&entries, Metric::Additions, 100).is_none());
    assert!(metric_bars(&entries, Metric::Deletions, 100).is_some());
}
