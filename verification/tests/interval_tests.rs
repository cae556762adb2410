use archive_router::interval::{Interval, Range};

fn range_of(pairs: &[(u32, u32)]) -> Option<Range> {
    let intervals: Vec<Interval> = pairs.iter().map(|&(b, e)| Interval::new(b, e)).collect();
    Range::try_new(intervals.into_boxed_slice())
}

#[test]
fn interval_keeps_its_bounds() {
    let iv = Interval::new(3, 9);
    assert_eq!(iv.begin(), 3);
    assert_eq!(iv.end(), 9);
    let point = Interval::new(7, 7);
    assert_eq!(point.begin(), 7);
    assert_eq!(point.end(), 7);
}

#[test]
fn empty_range_has_nothing() {
    let r = Range::empty();
    assert!(!r.has(0));
    assert!(!r.has(u32::MAX));
    assert!(r.find_containing_interval(5).is_none());
    assert!(!r.includes(Interval::new(0, 0)));
}

#[test]
fn try_new_accepts_separated_intervals() {
    assert!(range_of(&[]).is_some());
    assert!(range_of(&[(0, u32::MAX)]).is_some());
    assert!(range_of(&[(1, 5), (7, 9)]).is_some());
    assert!(range_of(&[(0, 0), (2, 2), (4, 10), (100, 200)]).is_some());
}

#[test]
fn try_new_refuses_touching_overlapping_or_unsorted_intervals() {
    // adjacent: nothing missing between 5 and 6
    assert!(range_of(&[(1, 5), (6, 9)]).is_none());
    // overlapping
    assert!(range_of(&[(1, 5), (5, 9)]).is_none());
    assert!(range_of(&[(1, 5), (3, 9)]).is_none());
    // unsorted
    assert!(range_of(&[(10, 20), (1, 5)]).is_none());
    // an interval ending at the last block cannot be followed by another
    assert!(range_of(&[(10, u32::MAX), (0, 1)]).is_none());
    // the failure may come late in the sequence
    assert!(range_of(&[(0, 1), (3, 4), (6, 8), (9, 12)]).is_none());
}

#[test]
fn new_builds_a_valid_range() {
    let r = Range::new(vec![Interval::new(10, 20), Interval::new(30, 40)].into_boxed_slice());
    assert!(r.has(10));
    assert!(r.has(40));
    assert!(!r.has(25));
}

#[test]
fn has_finds_blocks_in_every_interval() {
    let r = range_of(&[(0, 0), (2, 2), (4, 10), (100, 200), (1000, u32::MAX)]).unwrap();
    for p in [0u32, 2, 4, 7, 10, 100, 150, 200, 1000, 5000, u32::MAX] {
        assert!(r.has(p), "block {} should be in the range", p);
    }
    for p in [1u32, 3, 11, 50, 99, 201, 999] {
        assert!(!r.has(p), "block {} should not be in the range", p);
    }
}

#[test]
fn find_containing_interval_returns_the_interval() {
    let r = range_of(&[(1, 5), (7, 9), (20, 30)]).unwrap();
    let iv = r.find_containing_interval(8).unwrap();
    assert_eq!((iv.begin(), iv.end()), (7, 9));
    let iv = r.find_containing_interval(20).unwrap();
    assert_eq!((iv.begin(), iv.end()), (20, 30));
    let iv = r.find_containing_interval(1).unwrap();
    assert_eq!((iv.begin(), iv.end()), (1, 5));
    assert!(r.find_containing_interval(6).is_none());
    assert!(r.find_containing_interval(0).is_none());
    assert!(r.find_containing_interval(31).is_none());
}

#[test]
fn includes_needs_one_interval_to_cover_all() {
    let r = range_of(&[(1, 5), (7, 9), (20, 30)]).unwrap();
    assert!(r.includes(Interval::new(1, 5)));
    assert!(r.includes(Interval::new(2, 4)));
    assert!(r.includes(Interval::new(25, 25)));
    assert!(r.includes(Interval::new(20, 30)));
    // spans a gap
    assert!(!r.includes(Interval::new(3, 8)));
    // starts outside
    assert!(!r.includes(Interval::new(6, 8)));
    // runs past the end
    assert!(!r.includes(Interval::new(21, 31)));
}

#[test]
fn includes_agrees_with_has_on_every_block() {
    let r = range_of(&[(1, 5), (7, 9), (20, 30)]).unwrap();
    for b in 0u32..35 {
        for e in b..35 {
            let all = (b..=e).all(|p| r.has(p));
            assert_eq!(r.includes(Interval::new(b, e)), all, "interval {}-{}", b, e);
        }
    }
}

#[test]
fn clone_keeps_the_intervals() {
    let r = range_of(&[(1, 5), (7, 9)]).unwrap();
    let c = r.clone();
    for p in 0u32..12 {
        assert_eq!(r.has(p), c.has(p));
    }
}

#[test]
fn intervals_compare_by_begin_then_end() {
    assert!(Interval::new(1, 5) < Interval::new(2, 3));
    assert!(Interval::new(1, 3) < Interval::new(1, 5));
    assert_eq!(Interval::new(4, 4), Interval::new(4, 4));
}
