use hegel::native::shrinker::bin_search_down;
use hegel::native::shrinker::value_shrinkers::{
    BytesShrinker, CollectionShrinker, IntegerShrinker, OrderingShrinker, StringShrinker,
};

#[test]
fn integer_shrinks_to_zero_when_zero_is_accepted() {
    let mut s = IntegerShrinker::new(1000, |_v: u64| true);
    s.run();
    assert_eq!(*s.current(), 0);
    assert_eq!(s.calls(), 2);
}

#[test]
fn integer_finds_the_threshold() {
    let mut s = IntegerShrinker::new(1000, |v: u64| v >= 37);
    s.run();
    assert_eq!(*s.current(), 37);
}

#[test]
fn integer_keeps_initial_when_nothing_smaller_is_accepted() {
    let mut s = IntegerShrinker::new(5, |v: u64| v == 5);
    s.run();
    assert_eq!(*s.current(), 5);
    assert!(s.calls() >= 2);
}

#[test]
fn integer_large_values_shrink() {
    let mut s = IntegerShrinker::new(u64::MAX, |v: u64| v > 100);
    s.run();
    assert!(*s.current() > 100);
    assert!(*s.current() <= 300);
}

#[test]
fn ordering_sorts_when_allowed() {
    let mut s = OrderingShrinker::new(vec![5, 3, 1, 4, 2], |_v: &[u64]| true);
    s.run();
    assert_eq!(s.current(), &[1, 2, 3, 4, 5]);
    assert_eq!(s.calls(), 2);
}

#[test]
fn ordering_keeps_contents() {
    let mut s = OrderingShrinker::new(vec![3, 2, 1, 0], |v: &[u64]| v[0] == 3).full(true);
    s.run();
    let mut got = s.current().to_vec();
    assert_eq!(got[0], 3);
    got.sort();
    assert_eq!(got, vec![0, 1, 2, 3]);
    assert_eq!(s.current(), &[3, 0, 1, 2]);
}

#[test]
fn ordering_respects_a_fixed_position() {
    let mut s = OrderingShrinker::new(vec![2, 9, 1], |v: &[u64]| v[1] == 9);
    s.run();
    assert_eq!(s.current(), &[1, 9, 2]);
}

#[test]
fn collection_prefers_shorter_then_smaller() {
    let c = CollectionShrinker::new(vec![1, 2, 3], |_v: &[u64]| true, 0);
    assert!(c.left_is_better(&[9], &[0, 0]));
    assert!(c.left_is_better(&[1, 2], &[1, 3]));
    assert!(!c.left_is_better(&[1, 3], &[1, 2]));
    assert!(!c.left_is_better(&[1, 2], &[1, 2]));
    assert!(!c.left_is_better(&[1, 2, 0], &[1, 2]));
    assert!(c.left_is_better(&[0, 0], &[1]));
    assert_eq!(c.current(), &[1, 2, 3]);
    assert_eq!(c.calls(), 1);
}

#[test]
fn bytes_shrink_to_min_size_zeros() {
    let r = BytesShrinker::shrink(&[7, 8, 9], |_b: &[u8]| true, 2);
    assert_eq!(r, vec![0, 0]);
}

#[test]
fn bytes_shrink_keeps_a_needed_byte() {
    let r = BytesShrinker::shrink(&[5, 200, 3], |b: &[u8]| b.iter().any(|&x| x >= 100), 0);
    assert_eq!(r, vec![100]);
}

#[test]
fn bytes_shrink_returns_initial_when_nothing_else_works() {
    let r = BytesShrinker::shrink(&[1, 2], |b: &[u8]| b == [1, 2], 0);
    assert_eq!(r, vec![1, 2]);
}

#[test]
fn bin_search_down_finds_the_least_accepted_value() {
    assert_eq!(bin_search_down(0, 100, &|x: i128| x >= 37), 37);
    assert_eq!(bin_search_down(5, 100, &|x: i128| x >= 0), 5);
    assert_eq!(bin_search_down(0, 100, &|_: i128| false), 100);
    assert_eq!(bin_search_down(7, 7, &|_: i128| false), 7);
    assert_eq!(bin_search_down(i128::MIN, -1, &|x: i128| x >= -3), -3);
}

fn lowercase() -> Vec<char> {
    ('a'..='z').collect()
}

#[test]
fn string_shrink_to_min_size_simplest_chars() {
    let r = StringShrinker::shrink("hello", |_s: &str| true, &lowercase(), 3);
    assert_eq!(r, vec!['a', 'a', 'a']);
}

#[test]
fn string_shrink_keeps_length_and_simplifies() {
    let r = StringShrinker::shrink("hello", |s: &str| s.chars().count() >= 2, &lowercase(), 0);
    assert_eq!(r, vec!['a', 'a']);
}

#[test]
fn string_shrink_keeps_a_needed_char() {
    let r = StringShrinker::shrink("xyz", |s: &str| s.contains('y'), &lowercase(), 0);
    assert_eq!(r, vec!['y']);
}

#[test]
fn string_shrink_follows_the_alphabet_order() {
    // 'z' is the simplest character here.
    let alphabet: Vec<char> = vec!['z', 'q', 'a'];
    let r = StringShrinker::shrink("aqa", |s: &str| s.len() == 3, &alphabet, 0);
    assert_eq!(r, vec!['z', 'z', 'z']);
}

#[test]
fn string_shrink_returns_initial_when_nothing_else_works() {
    let r = StringShrinker::shrink("hi", |s: &str| s == "hi", &lowercase(), 0);
    assert_eq!(r, vec!['h', 'i']);
}

#[test]
fn full_ordering_shrink_leaves_sorted_runs_it_cannot_merge() {
    let mut s = OrderingShrinker::new(vec![3, 1, 2], |v: &[u64]| v[0] == 3).full(true);
    s.run();
    assert_eq!(s.current(), &[3, 1, 2]);
    let mut t = OrderingShrinker::new(vec![5, 4, 3, 2, 1], |_v: &[u64]| true).full(true);
    t.run();
    assert_eq!(t.current(), &[1, 2, 3, 4, 5]);
}

#[test]
fn ordering_finds_the_least_arrangement_keeping_the_first_element() {
    let mut s = OrderingShrinker::new(vec![3, 2, 1], |v: &[u64]| v[0] == 3);
    s.run();
    assert_eq!(s.current(), &[3, 1, 2]);
}

#[test]
fn ordering_asks_each_arrangement_once_and_never_the_initial_one() {
    let asked = std::cell::RefCell::new(Vec::new());
    let mut s = OrderingShrinker::new(vec![4, 1, 3, 2], |v: &[u64]| {
        asked.borrow_mut().push(v.to_vec());
        v[0] == 4
    })
    .full(true);
    s.run();
    let calls = s.calls();
    let asked = asked.borrow().clone();
    assert!(!asked.contains(&vec![4, 1, 3, 2]));
    for (i, a) in asked.iter().enumerate() {
        assert!(!asked[i + 1..].contains(a));
    }
    assert_eq!(asked.len() + 1, calls);
}

#[test]
fn integer_asks_each_value_once_and_never_the_initial_one() {
    let asked = std::cell::RefCell::new(Vec::new());
    let mut s = IntegerShrinker::new(1000, |v: u64| {
        asked.borrow_mut().push(v);
        v >= 37
    });
    s.run();
    let calls = s.calls();
    let asked = asked.borrow().clone();
    assert!(!asked.contains(&1000));
    for (i, a) in asked.iter().enumerate() {
        assert!(!asked[i + 1..].contains(a));
    }
    assert_eq!(asked.len() + 1, calls);
}

#[test]
fn bytes_shrink_deletes_then_lowers() {
    let r = BytesShrinker::shrink(&[5, 3], |b: &[u8]| !b.is_empty() && b[0] >= 2, 0);
    assert_eq!(r, vec![2u8]);
}
