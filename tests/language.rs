use langstats::aggregate::resolve_cached;
use langstats::language::{language_named, same_key, LanguageIdentity, LanguageType};
use langstats::materialize::{classified_pair, FileChangeRecord};
use langstats::stats::LanguageStats;

#[test]
fn known_name_resolves_with_category() {
    let rust = language_named("Rust").unwrap();
    assert_eq!(rust.name, "Rust");
    assert_eq!(rust.category, LanguageType::Programming);
    let md = language_named("Markdown").unwrap();
    assert_eq!(md.category, LanguageType::Prose);
}

#[test]
fn unknown_name_is_unclassified() {
    assert!(language_named("NoSuchLanguage").is_none());
}

#[test]
fn cached_pairs_resolve_in_order() {
    let st = LanguageStats { additions: 1, deletions: 2, changes: 3 };
    let out = resolve_cached(vec![
        ("Rust".to_string(), st),
        ("unknown".to_string(), st),
        ("HTML".to_string(), st),
    ]);
    assert_eq!(out.len(), 3);
    assert_eq!(out[0].0.as_ref().map(|i| i.category), Some(LanguageType::Programming));
    assert!(out[1].0.is_none());
    assert_eq!(out[2].0.as_ref().map(|i| i.category), Some(LanguageType::Markup));
    assert_eq!(out[2].1, st);
}

#[test]
fn classified_pair_uses_detection() {
    let rec = FileChangeRecord {
        path: "a/b.go".to_string(),
        additions: 7,
        deletions: 1,
        changes: 8,
        content_locator: None,
    };
    let (key, stats) = classified_pair(Some("Go".to_string()), &rec);
    assert_eq!(key.map(|i| i.name), Some("Go".to_string()));
    assert_eq!(stats, LanguageStats { additions: 7, deletions: 1, changes: 8 });
    assert!(classified_pair(None, &rec).0.is_none());
}

#[test]
fn keys_compare_by_name_and_category() {
    let a = Some(LanguageIdentity::new("Go".to_string(), LanguageType::Programming));
    let b = Some(LanguageIdentity::new("Go".to_string(), LanguageType::Programming));
    let c = Some(LanguageIdentity::new("Go".to_string(), LanguageType::Data));
    assert!(same_key(&a, &b));
    assert!(!same_key(&a, &c));
    assert!(!same_key(&a, &None));
    assert!(same_key(&None, &None));
}
