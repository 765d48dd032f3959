use ethsync::range_collection::{BlockRange, IntervalSet, RangeOp};

fn r(lo: u64, hi: u64) -> BlockRange {
    BlockRange { lo, hi }
}

#[test]
fn new_set_is_empty() {
    let s = IntervalSet::new();
    assert!(s.is_empty());
    assert!(!s.contains(0));
    assert!(!s.contains(u64::MAX));
    assert_eq!(s.ranges(), vec![]);
}

#[test]
fn insert_merges_overlapping_ranges() {
    let mut s = IntervalSet::new();
    s.insert(10, 20);
    s.insert(30, 40);
    s.insert(15, 35);
    assert_eq!(s.ranges(), vec![r(10, 40)]);
}

#[test]
fn insert_merges_adjacent_ranges() {
    let mut s = IntervalSet::new();
    s.insert(1, 5);
    s.insert(6, 9);
    assert_eq!(s.ranges(), vec![r(1, 9)]);
    s.insert(0, 0);
    assert_eq!(s.ranges(), vec![r(0, 9)]);
    s.insert(11, 12);
    assert_eq!(s.ranges(), vec![r(0, 9), r(11, 12)]);
    s.insert(10, 10);
    assert_eq!(s.ranges(), vec![r(0, 12)]);
}

#[test]
fn insert_keeps_separate_ranges_in_order() {
    let mut s = IntervalSet::new();
    s.insert(50, 60);
    s.insert(10, 20);
    s.insert(30, 40);
    assert_eq!(s.ranges(), vec![r(10, 20), r(30, 40), r(50, 60)]);
}

#[test]
fn insert_of_empty_range_changes_nothing() {
    let mut s = IntervalSet::new();
    s.insert(5, 9);
    s.insert(20, 10);
    assert_eq!(s.ranges(), vec![r(5, 9)]);
}

#[test]
fn insert_at_the_top_of_the_domain() {
    let mut s = IntervalSet::new();
    s.insert(u64::MAX - 1, u64::MAX);
    s.insert(0, 0);
    assert_eq!(s.ranges(), vec![r(0, 0), r(u64::MAX - 1, u64::MAX)]);
    s.insert(u64::MAX - 2, u64::MAX - 2);
    assert_eq!(s.ranges(), vec![r(0, 0), r(u64::MAX - 2, u64::MAX)]);
    assert!(s.contains(u64::MAX));
}

#[test]
fn remove_splits_a_range() {
    let mut s = IntervalSet::new();
    s.insert(1, 100);
    s.remove(40, 60);
    assert_eq!(s.ranges(), vec![r(1, 39), r(61, 100)]);
    assert!(s.contains(39));
    assert!(!s.contains(40));
    assert!(!s.contains(60));
    assert!(s.contains(61));
}

#[test]
fn remove_trims_and_drops_ranges() {
    let mut s = IntervalSet::new();
    s.insert(1, 10);
    s.insert(20, 30);
    s.insert(40, 50);
    s.remove(5, 45);
    assert_eq!(s.ranges(), vec![r(1, 4), r(46, 50)]);
    s.remove(0, u64::MAX);
    assert!(s.is_empty());
}

#[test]
fn remove_of_empty_range_changes_nothing() {
    let mut s = IntervalSet::new();
    s.insert(5, 9);
    s.remove(9, 5);
    assert_eq!(s.ranges(), vec![r(5, 9)]);
}

#[test]
fn contains_range_needs_every_point() {
    let mut s = IntervalSet::new();
    s.insert(10, 20);
    s.insert(22, 30);
    assert!(s.contains_range(10, 20));
    assert!(s.contains_range(12, 18));
    assert!(s.contains_range(22, 30));
    assert!(!s.contains_range(10, 30));
    assert!(!s.contains_range(20, 22));
    assert!(!s.contains_range(9, 12));
    assert!(!s.contains_range(40, 50));
    assert!(s.contains_range(50, 40));
}

#[test]
fn first_gap_after_finds_the_lowest_gap() {
    let mut s = IntervalSet::new();
    s.insert(1, 10);
    s.insert(15, 20);
    assert_eq!(s.first_gap_after(0, 100), Some(r(0, 0)));
    assert_eq!(s.first_gap_after(1, 100), Some(r(11, 14)));
    assert_eq!(s.first_gap_after(5, 2), Some(r(11, 12)));
    assert_eq!(s.first_gap_after(12, 100), Some(r(12, 14)));
    assert_eq!(s.first_gap_after(15, 3), Some(r(21, 23)));
    assert_eq!(s.first_gap_after(21, u64::MAX), Some(r(21, u64::MAX)));
    assert_eq!(s.first_gap_after(21, u64::MAX - 30), Some(r(21, u64::MAX - 10)));
    assert_eq!(s.first_gap_after(1, 0), None);
}

#[test]
fn first_gap_after_at_the_top_of_the_domain() {
    let mut s = IntervalSet::new();
    s.insert(100, u64::MAX);
    assert_eq!(s.first_gap_after(100, 10), None);
    assert_eq!(s.first_gap_after(u64::MAX, 1), None);
    assert_eq!(s.first_gap_after(95, 10), Some(r(95, 99)));
    let mut t = IntervalSet::new();
    t.insert(0, 9);
    assert_eq!(t.first_gap_after(u64::MAX, 5), Some(r(u64::MAX, u64::MAX)));
    assert_eq!(t.first_gap_after(u64::MAX - 2, 5), Some(r(u64::MAX - 2, u64::MAX)));
}

#[test]
fn clear_empties_the_set() {
    let mut s = IntervalSet::new();
    s.insert(1, 10);
    s.clear();
    assert!(s.is_empty());
    assert_eq!(s.first_gap_after(0, 4), Some(r(0, 3)));
}

/// Replays a pseudo-random run of inserts and removes and holds the set
/// against a plain table of booleans, point by point.
#[test]
fn replay_matches_pointwise_membership() {
    let domain: u64 = 64;
    let mut seed: u64 = 0x9e37_79b9_7f4a_7c15;
    let mut ops: Vec<RangeOp> = Vec::new();
    let mut held = vec![false; domain as usize];
    for _ in 0..400 {
        seed = seed.wrapping_mul(6364136223846793005).wrapping_add(1442695040888963407);
        let a = (seed >> 33) % domain;
        seed = seed.wrapping_mul(6364136223846793005).wrapping_add(1442695040888963407);
        let len = (seed >> 33) % 9;
        seed = seed.wrapping_mul(6364136223846793005).wrapping_add(1442695040888963407);
        let is_insert = (seed >> 33) % 2 == 0;
        let b = (a + len).min(domain - 1);
        let range = r(a, b);
        for x in a..=b {
            held[x as usize] = is_insert;
        }
        ops.push(if is_insert { RangeOp::Insert(range) } else { RangeOp::Remove(range) });
        let mut s = IntervalSet::new();
        s.apply_all(&ops);
        for x in 0..domain {
            assert_eq!(s.contains(x), held[x as usize], "point {}", x);
        }
        let stored = s.ranges();
        for w in stored.windows(2) {
            assert!(w[0].hi + 1 < w[1].lo);
        }
        for span in &stored {
            assert!(span.lo <= span.hi);
        }
    }
}

#[test]
fn insert_then_remove_restores_points_outside() {
    let mut s = IntervalSet::new();
    s.insert(5, 10);
    s.insert(30, 35);
    let before: Vec<bool> = (0..50).map(|x| s.contains(x)).collect();
    s.insert(8, 32);
    s.remove(8, 32);
    for x in 0..50u64 {
        if x < 8 || x > 32 {
            assert_eq!(s.contains(x), before[x as usize]);
        } else {
            assert!(!s.contains(x));
        }
    }
}

#[test]
fn remove_then_insert_restores_coverage_not_boundaries() {
    let mut s = IntervalSet::new();
    s.insert(1, 4);
    s.insert(6, 9);
    s.remove(5, 5);
    s.insert(5, 5);
    assert_eq!(s.ranges(), vec![r(1, 9)]);
    let mut t = IntervalSet::new();
    t.insert(1, 9);
    t.remove(3, 6);
    t.insert(3, 6);
    assert_eq!(t.ranges(), vec![r(1, 9)]);
}
