use wfst::interval_set::{IntInterval, IntervalSet};

fn set_of(ranges: &[(usize, usize)]) -> IntervalSet {
    let mut s = IntervalSet::new();
    for &(b, e) in ranges {
        let mut one = IntervalSet::new();
        one.intervals.push(IntInterval::new(b, e));
        s.union(&one);
    }
    s
}

#[test]
fn member_uses_half_open_intervals() {
    let s = set_of(&[(1, 3), (5, 6)]);
    assert!(!s.member(0));
    assert!(s.member(1));
    assert!(s.member(2));
    assert!(!s.member(3));
    assert!(s.member(5));
    assert!(!s.member(6));
}

#[test]
fn union_coalesces_overlapping_and_adjacent() {
    let s = set_of(&[(5, 7), (1, 3), (3, 4), (6, 9)]);
    assert_eq!(s.intervals, vec![IntInterval::new(1, 4), IntInterval::new(5, 9)]);
    assert_eq!(s.len(), 2);
}

#[test]
fn union_with_empty_keeps_set() {
    let mut s = set_of(&[(2, 4)]);
    s.union(&IntervalSet::new());
    assert_eq!(s.intervals, vec![IntInterval::new(2, 4)]);
    assert!(!IntervalSet::new().member(0));
}

#[test]
fn singleton_holds_one_label() {
    let s = IntervalSet::singleton(7);
    assert!(s.member(7));
    assert!(!s.member(6));
    assert!(!s.member(8));
}
