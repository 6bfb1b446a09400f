use langstats::histogram::{bucket, sort_descending};

fn bars(v: &[(&str, u64)]) -> Vec<(String, u64)> {
    v.iter().map(|(l, n)| (l.to_string(), *n)).collect()
}

#[test]
fn scenario_all_above_cutoff_adds_no_others() {
    let out = bucket(bars(&[("Rust", 100), ("Go", 40), ("Lisp", 1)]), 100);
    assert_eq!(out, bars(&[("Rust", 100), ("Go", 40), ("Lisp", 1)]));
}

#[test]
fn scenario_long_tail_grouped_into_others() {
    let out = bucket(bars(&[("Rust", 1000), ("Go", 5), ("Lisp", 2)]), 100);
    assert_eq!(out, bars(&[("Rust", 1000), ("Others", 7)]));
}

#[test]
fn unsorted_input_grouped() {
    let out = bucket(bars(&[("Lisp", 2), ("Go", 5), ("Rust", 1000)]), 100);
    assert_eq!(out, bars(&[("Rust", 1000), ("Others", 7)]));
}

#[test]
fn existing_others_receives_tail() {
    let out = bucket(bars(&[("Rust", 1000), ("Others", 50), ("Go", 5), ("Lisp", 2)]), 100);
    assert_eq!(out, bars(&[("Rust", 1000), ("Others", 57)]));
}

#[test]
fn tail_can_outgrow_big_bars() {
    let out = bucket(bars(&[("A", 10), ("B", 9), ("C", 9)]), 1);
    assert_eq!(out, bars(&[("Others", 18), ("A", 10)]));
}

#[test]
fn threshold_zero_only_sorts() {
    let input = bars(&[("Go", 3), ("Rust", 1000), ("Lisp", 0), ("C", 3)]);
    let out = bucket(input, 0);
    assert_eq!(out, bars(&[("Rust", 1000), ("Go", 3), ("C", 3), ("Lisp", 0)]));
}

#[test]
fn empty_input_gives_empty_output() {
    assert_eq!(bucket(Vec::new(), 100), Vec::<(String, u64)>::new());
    assert_eq!(bucket(Vec::new(), 0), Vec::<(String, u64)>::new());
}

#[test]
fn all_equal_values_stay_big() {
    let out = bucket(bars(&[("A", 7), ("B", 7), ("C", 7)]), 1);
    assert_eq!(out, bars(&[("A", 7), ("B", 7), ("C", 7)]));
}

#[test]
fn zero_values_below_cutoff_make_zero_others() {
    let out = bucket(bars(&[("A", 100), ("B", 0)]), 100);
    assert_eq!(out, bars(&[("A", 100), ("Others", 0)]));
}

#[test]
fn sum_is_preserved() {
    let input = bars(&[("A", 500), ("B", 3), ("C", 250), ("D", 1), ("E", 4), ("Others", 2)]);
    let before: u64 = input.iter().map(|b| b.1).sum();
    let out = bucket(input, 100);
    let after: u64 = out.iter().map(|b| b.1).sum();
    assert_eq!(before, after);
    assert_eq!(out, bars(&[("A", 500), ("C", 250), ("Others", 10)]));
}

#[test]
fn rebucketing_keeps_bars() {
    let once = bucket(bars(&[("Rust", 1000), ("Go", 50), ("Lisp", 2), ("C", 3)]), 100);
    assert_eq!(once, bars(&[("Rust", 1000), ("Go", 50), ("Others", 5)]));
    let twice = bucket(once.clone(), 100);
    assert_eq!(twice, bars(&[("Rust", 1000), ("Go", 50), ("Others", 5)]));
    let b = bars(&[("Rust", 1000), ("Others", 200), ("Go", 150)]);
    assert_eq!(bucket(b.clone(), 10), b);
}

#[test]
fn sort_is_stable_and_descending() {
    let out = sort_descending(bars(&[("a", 1), ("b", 5), ("c", 1), ("d", 5), ("e", 3)]));
    assert_eq!(out, bars(&[("b", 5), ("d", 5), ("e", 3), ("a", 1), ("c", 1)]));
}

#[test]
fn largest_values_do_not_overflow() {
    let out = bucket(bars(&[("A", u64::MAX - 1), ("B", 1)]), 2);
    assert_eq!(out, bars(&[("A", u64::MAX - 1), ("Others", 1)]));
}
