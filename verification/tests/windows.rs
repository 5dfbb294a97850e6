use downtime::sort::{sort_by_key, Keyed};
use downtime::windows::coalesce;

#[test]
fn overlapping_and_touching_windows_are_joined() {
    let wins = vec![(50, 60), (10, 20), (20, 30), (25, 40), (55, 58)];
    assert_eq!(coalesce(wins), vec![(10, 40), (50, 60)]);
}

#[test]
fn coalescing_nothing_gives_nothing() {
    assert_eq!(coalesce(Vec::new()), Vec::new());
}

#[test]
fn windows_that_are_apart_are_only_sorted() {
    assert_eq!(coalesce(vec![(7, 8), (1, 2), (4, 5)]), vec![(1, 2), (4, 5), (7, 8)]);
}

#[test]
fn coalescing_twice_changes_nothing() {
    let once = coalesce(vec![(3, 9), (1, 2), (8, 12), (2, 2), (20, 21)]);
    assert_eq!(once, vec![(1, 2), (3, 12), (20, 21)]);
    assert_eq!(coalesce(once.clone()), once);
}

#[test]
fn coalescing_depends_on_the_cover_alone() {
    let whole = vec![(10, 40), (50, 60)];
    let pieces = vec![(50, 55), (30, 40), (54, 60), (10, 31), (12, 13)];
    assert_eq!(coalesce(pieces), coalesce(whole));
}

#[test]
fn coalesced_windows_cover_the_same_instants() {
    let wins = vec![(5, 9), (1, 3), (8, 10), (2, 4), (12, 13)];
    let joined = coalesce(wins.clone());
    for t in 0..20u64 {
        let before = wins.iter().any(|w| w.0 <= t && t < w.1);
        let after = joined.iter().any(|w| w.0 <= t && t < w.1);
        assert_eq!(before, after, "at {t}");
    }
    for pair in joined.windows(2) {
        assert!(pair[0].1 < pair[1].0);
    }
    assert_eq!(joined.first().unwrap().0, 1);
    assert_eq!(joined.last().unwrap().1, 13);
}

#[test]
fn sorting_by_start_keeps_the_order_of_equals() {
    let mut v: Vec<(u64, u64)> = vec![(3, 1), (1, 9), (3, 0), (2, 5), (1, 8), (3, 7)];
    sort_by_key(&mut v);
    assert_eq!(v, vec![(1, 9), (1, 8), (2, 5), (3, 1), (3, 0), (3, 7)]);
    assert_eq!(v[0].key(), 1);
}

#[test]
fn sorting_numbers_puts_them_in_ascending_order() {
    let mut v: Vec<u64> = vec![5, u64::MAX, 0, 5, 3];
    sort_by_key(&mut v);
    assert_eq!(v, vec![0, 3, 5, 5, u64::MAX]);
    assert_eq!(7u64.key(), 7);
}

#[test]
fn the_order_of_windows_does_not_matter() {
    let expected = vec![(1, 1), (3, 8), (9, 9)];
    assert_eq!(coalesce(vec![(3, 5), (9, 9), (3, 3), (5, 8), (1, 1)]), expected);
    assert_eq!(coalesce(vec![(1, 1), (3, 3), (3, 5), (5, 8), (9, 9)]), expected);
    assert_eq!(coalesce(vec![(9, 9), (5, 8), (5, 8), (3, 5), (3, 3), (1, 1), (1, 1)]), expected);
}
