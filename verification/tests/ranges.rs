//! Sets of packet numbers.

use mcquic::ranges::RangeSet;

fn set(ranges: &[std::ops::Range<u64>]) -> RangeSet {
    let mut s = RangeSet::default();
    for r in ranges {
        s.insert(r.clone());
    }
    s
}

#[test]
fn ranges_are_kept_apart_and_in_order() {
    assert_eq!(set(&[10..20, 0..5]).iter(), vec![0..5, 10..20]);
    // Touching and overlapping ranges become one.
    assert_eq!(set(&[0..5, 5..10]).iter(), vec![0..10]);
    assert_eq!(set(&[5..10, 0..5]).iter(), vec![0..10]);
    assert_eq!(set(&[0..5, 10..15, 20..25, 3..22]).iter(), vec![0..25]);
    assert_eq!(set(&[0..10, 2..4]).iter(), vec![0..10]);
    assert_eq!(set(&[2..4, 0..10]).iter(), vec![0..10]);
    // Empty ranges add nothing.
    assert_eq!(set(&[5..5]).iter(), vec![]);
    assert_eq!(set(&[0..u64::MAX]).last(), Some(u64::MAX - 1));
}

#[test]
fn one_set_has_one_representation() {
    let a = set(&[0..3, 7..9, 3..7]);
    let b = set(&[7..9, 0..8]);
    assert_eq!(a.iter(), b.iter());
    assert_eq!(a.clone().iter(), a.iter());
}

#[test]
fn ends_are_found() {
    let s = set(&[4..6, 9..12]);
    assert_eq!(s.len(), 2);
    assert_eq!(s.first(), Some(4));
    assert_eq!(s.last(), Some(11));
    let s = RangeSet::default();
    assert_eq!(s.len(), 0);
    assert_eq!(s.first(), None);
    assert_eq!(s.last(), None);
}

#[test]
fn sets_are_merged() {
    let mut s = set(&[0..2, 10..12]);
    s.insert_all(&set(&[1..5, 12..13, 20..21]));
    assert_eq!(s.iter(), vec![0..5, 10..13, 20..21]);
    s.insert_all(&RangeSet::default());
    assert_eq!(s.iter(), vec![0..5, 10..13, 20..21]);
}

#[test]
fn the_low_end_is_removed() {
    let mut s = set(&[0..5, 10..20]);
    s.remove_until(4);
    assert_eq!(s.iter(), vec![10..20]);
    s.remove_until(12);
    assert_eq!(s.iter(), vec![13..20]);
    s.remove_until(3);
    assert_eq!(s.iter(), vec![13..20]);
    s.remove_until(u64::MAX);
    assert_eq!(s.iter(), vec![]);
}
