use std::cell::RefCell;

use hegel::native::shrinker::ordering::shrink_ordering;

fn is_permutation(p: &[usize], n: usize) -> bool {
    let mut seen = vec![false; n];
    if p.len() != n {
        return false;
    }
    for &i in p {
        if i >= n || seen[i] {
            return false;
        }
        seen[i] = true;
    }
    true
}

#[test]
fn ordering_first_proposes_the_full_sort() {
    let keys = [3u64, 1, 2, 0];
    let seen = RefCell::new(Vec::new());
    shrink_ordering(4, |i| keys[i], |p: &[usize]| {
        seen.borrow_mut().push(p.to_vec());
        true
    });
    assert_eq!(seen.into_inner(), vec![vec![3, 1, 2, 0]]);
}

#[test]
fn ordering_sorts_stably_by_key() {
    let keys = [1u64, 0, 1, 0];
    let seen = RefCell::new(Vec::new());
    shrink_ordering(4, |i| keys[i], |p: &[usize]| {
        seen.borrow_mut().push(p.to_vec());
        true
    });
    assert_eq!(seen.into_inner(), vec![vec![1, 3, 0, 2]]);
}

#[test]
fn ordering_only_proposes_permutations() {
    let keys = [5u64, 4, 3, 2, 1, 0, 7, 6];
    let seen = RefCell::new(Vec::new());
    shrink_ordering(8, |i| keys[i], |p: &[usize]| {
        seen.borrow_mut().push(p.to_vec());
        false
    });
    let seen = seen.into_inner();
    assert!(seen.len() > 1);
    assert_eq!(seen[0], vec![5, 4, 3, 2, 1, 0, 7, 6]);
    for p in &seen {
        assert!(is_permutation(p, 8));
    }
}

#[test]
fn ordering_proposes_nothing_when_already_sorted() {
    let keys = [0u64, 1, 2, 3];
    let seen = RefCell::new(Vec::new());
    shrink_ordering(4, |i| keys[i], |p: &[usize]| {
        seen.borrow_mut().push(p.to_vec());
        true
    });
    assert!(seen.into_inner().is_empty());
    let calls = RefCell::new(0);
    shrink_ordering(1, |_| 0, |_: &[usize]| {
        *calls.borrow_mut() += 1;
        true
    });
    assert_eq!(calls.into_inner(), 0);
}
