use langstats::aggregate::{accumulate, Accumulator};
use langstats::language::{LanguageIdentity, LanguageType};
use langstats::stats::LanguageStats;

fn lang(name: &str, category: LanguageType) -> Option<LanguageIdentity> {
    Some(LanguageIdentity::new(name.to_string(), category))
}

fn st(a: u64, d: u64, c: u64) -> LanguageStats {
    LanguageStats { additions: a, deletions: d, changes: c }
}

fn lookup(
    entries: &[(Option<LanguageIdentity>, LanguageStats)],
    name: Option<&str>,
) -> Option<LanguageStats> {
    entries
        .iter()
        .find(|(k, _)| k.as_ref().map(|i| i.name.as_str()) == name)
        .map(|(_, s)| *s)
}

#[test]
fn scenario_same_language_merges_in_either_order() {
    let rust = LanguageType::Programming;
    let a = accumulate(vec![(lang("Rust", rust), st(10, 2, 12)), (lang("Rust", rust), st(5, 1, 6))])
        .unwrap()
        .into_entries();
    let b = accumulate(vec![(lang("Rust", rust), st(5, 1, 6)), (lang("Rust", rust), st(10, 2, 12))])
        .unwrap()
        .into_entries();
    assert_eq!(a.len(), 1);
    assert_eq!(b.len(), 1);
    assert_eq!(lookup(&a, Some("Rust")), Some(st(15, 3, 18)));
    assert_eq!(lookup(&b, Some("Rust")), Some(st(15, 3, 18)));
}

#[test]
fn permutation_gives_same_aggregate() {
    let p = LanguageType::Programming;
    let pairs = vec![
        (lang("Rust", p), st(1, 2, 3)),
        (None, st(4, 0, 4)),
        (lang("Go", p), st(7, 7, 1)),
        (lang("Rust", p), st(10, 0, 10)),
        (None, st(1, 1, 1)),
    ];
    let mut reversed = pairs.clone();
    reversed.reverse();
    let a = accumulate(pairs).unwrap().into_entries();
    let b = accumulate(reversed).unwrap().into_entries();
    assert_eq!(a.len(), 3);
    assert_eq!(b.len(), 3);
    for name in [Some("Rust"), Some("Go"), None] {
        assert_eq!(lookup(&a, name), lookup(&b, name));
    }
    assert_eq!(lookup(&a, Some("Rust")), Some(st(11, 2, 13)));
    assert_eq!(lookup(&a, None), Some(st(5, 1, 5)));
}

#[test]
fn fields_are_summed_independently() {
    let mut acc = Accumulator::new();
    assert!(acc.merge(lang("C", LanguageType::Programming), st(1, 2, 100)));
    assert!(acc.merge(lang("C", LanguageType::Programming), st(3, 4, 0)));
    let e = acc.into_entries();
    assert_eq!(lookup(&e, Some("C")), Some(st(4, 6, 100)));
}

#[test]
fn same_name_other_category_is_another_key() {
    let mut acc = Accumulator::new();
    assert!(acc.merge(lang("X", LanguageType::Data), st(1, 1, 1)));
    assert!(acc.merge(lang("X", LanguageType::Prose), st(1, 1, 1)));
    assert_eq!(acc.into_entries().len(), 2);
}

#[test]
fn overflowing_merge_changes_nothing() {
    let mut acc = Accumulator::new();
    assert!(acc.merge(None, st(u64::MAX, 0, 0)));
    assert!(!acc.merge(None, st(1, 0, 0)));
    let e = acc.into_entries();
    assert_eq!(lookup(&e, None), Some(st(u64::MAX, 0, 0)));
}

#[test]
fn accumulate_reports_overflow() {
    assert!(accumulate(vec![(None, st(0, u64::MAX, 0)), (None, st(0, 1, 0))]).is_none());
    assert!(accumulate(vec![(None, st(0, u64::MAX, 0)), (lang("Go", LanguageType::Programming), st(0, 1, 0))]).is_some());
}

#[test]
fn empty_accumulation() {
    assert_eq!(accumulate(Vec::new()).unwrap().into_entries().len(), 0);
}

#[test]
fn stats_add_is_fieldwise() {
    assert_eq!(st(1, 2, 3).add(&st(10, 20, 30)), st(11, 22, 33));
    let mut s = LanguageStats::zero();
    s.add_assign(st(5, 6, 7));
    assert_eq!(s, st(5, 6, 7));
}
