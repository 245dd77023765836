//! Aggregation of the acknowledgements of several receivers.

use mcquic::multicast::aggregator::{intersect, McAckAggregator};
use mcquic::ranges::RangeSet;
use std::ops::Range;

/// Builds a `RangeSet` from a list of half-open ranges.
fn set(ranges: &[Range<u64>]) -> RangeSet {
    let mut s = RangeSet::default();
    for r in ranges {
        s.insert(r.clone());
    }
    s
}

/// Collects the ranges of a `RangeSet` for comparison.
fn ranges_of(s: &RangeSet) -> Vec<Range<u64>> {
    s.iter()
}

#[test]
fn intersect_basic() {
    assert_eq!(
        ranges_of(&intersect(&set(&[0..10, 20..30]), &set(&[5..25]))),
        vec![5..10, 20..25]
    );

    // Disjoint sets intersect to nothing.
    assert_eq!(ranges_of(&intersect(&set(&[0..5]), &set(&[10..15]))), vec![]);

    // Touching-but-not-overlapping ([0,5) and [5,10)) share nothing.
    assert_eq!(ranges_of(&intersect(&set(&[0..5]), &set(&[5..10]))), vec![]);
}

#[test]
fn no_receivers_is_empty() {
    assert_eq!(McAckAggregator::new().aggregate().len(), 0);
}

#[test]
fn single_receiver_is_its_own_set() {
    let mut agg = McAckAggregator::new();
    agg.add_receiver(1, 0);
    agg.record(1, &set(&[0..10]));

    assert_eq!(ranges_of(&agg.aggregate()), vec![0..10]);
}

#[test]
fn acked_by_all_is_the_intersection() {
    let mut agg = McAckAggregator::new();
    agg.add_receiver(1, 0);
    agg.add_receiver(2, 0);
    agg.record(1, &set(&[0..10, 20..30]));
    agg.record(2, &set(&[5..25]));

    assert_eq!(ranges_of(&agg.aggregate()), vec![5..10, 20..25]);
}

#[test]
fn packet_missing_at_one_receiver_is_excluded() {
    // Receiver 2 is missing packet 5.
    let mut agg = McAckAggregator::new();
    agg.add_receiver(1, 0);
    agg.add_receiver(2, 0);
    agg.record(1, &set(&[0..10]));
    agg.record(2, &set(&[0..5, 6..10]));

    assert_eq!(ranges_of(&agg.aggregate()), vec![0..5, 6..10]);
}

#[test]
fn slowest_receiver_caps_the_aggregate() {
    let mut agg = McAckAggregator::new();
    agg.add_receiver(1, 0);
    agg.add_receiver(2, 0);
    agg.record(1, &set(&[0..100]));
    agg.record(2, &set(&[0..10]));

    assert_eq!(ranges_of(&agg.aggregate()), vec![0..10]);
}

#[test]
fn late_joiner_does_not_hold_back_pre_join_packets() {
    // Receiver 1 has everything; receiver 2 joins at 50, so [0, 50) is
    // seeded as received and must not block the aggregate.
    let mut agg = McAckAggregator::new();
    agg.add_receiver(1, 0);
    agg.record(1, &set(&[0..100]));
    agg.add_receiver(2, 50);
    agg.record(2, &set(&[50..100]));

    assert_eq!(ranges_of(&agg.aggregate()), vec![0..100]);
}

#[test]
fn record_accumulates_reported_deltas() {
    // A receiver prunes its own low end and later reports only a delta; the
    // aggregator must retain what it already learned.
    let mut agg = McAckAggregator::new();
    agg.add_receiver(1, 0);
    agg.record(1, &set(&[0..5]));
    agg.record(1, &set(&[10..11]));

    assert_eq!(ranges_of(&agg.aggregate()), vec![0..5, 10..11]);
}

#[test]
fn prune_drops_resolved_state() {
    let mut agg = McAckAggregator::new();
    agg.add_receiver(1, 0);
    agg.record(1, &set(&[0..100]));

    // `up_to` is inclusive.
    agg.prune(49);

    assert_eq!(ranges_of(&agg.aggregate()), vec![50..100]);
}

#[test]
fn removing_a_receiver_stops_it_constraining() {
    let mut agg = McAckAggregator::new();
    agg.add_receiver(1, 0);
    agg.add_receiver(2, 0);
    agg.record(1, &set(&[0..100]));
    agg.record(2, &set(&[0..10]));
    assert_eq!(ranges_of(&agg.aggregate()), vec![0..10]);

    agg.remove_receiver(2);
    assert_eq!(ranges_of(&agg.aggregate()), vec![0..100]);
}

#[test]
fn reports_of_unknown_receivers_are_ignored() {
    let mut agg = McAckAggregator::new();
    agg.add_receiver(1, 3);
    agg.record(9, &set(&[0..100]));

    assert_eq!(ranges_of(&agg.aggregate()), vec![0..3]);
    agg.remove_receiver(9);
    assert_eq!(ranges_of(&agg.aggregate()), vec![0..3]);
}

#[test]
fn registering_again_resets_the_receiver() {
    let mut agg = McAckAggregator::new();
    agg.add_receiver(1, 0);
    agg.record(1, &set(&[0..100]));
    agg.add_receiver(1, 7);

    assert_eq!(ranges_of(&agg.aggregate()), vec![0..7]);
}

#[test]
fn nothing_is_acked_once_the_last_receiver_leaves() {
    let mut agg = McAckAggregator::default();
    agg.add_receiver(1, 10);
    agg.remove_receiver(1);

    assert_eq!(ranges_of(&agg.aggregate()), vec![]);
}

#[test]
fn prune_works_on_every_receiver() {
    let mut agg = McAckAggregator::new();
    for id in 0..20 {
        agg.add_receiver(id, 10 + id);
    }
    assert_eq!(ranges_of(&agg.aggregate()), vec![0..10]);
    agg.prune(4);
    assert_eq!(ranges_of(&agg.aggregate()), vec![5..10]);
    agg.prune(u64::MAX);
    assert_eq!(ranges_of(&agg.aggregate()), vec![]);
}

#[test]
fn intersection_is_commutative_and_idempotent() {
    let a = set(&[0..4, 6..9, 12..20]);
    let b = set(&[3..7, 8..14, 19..40]);
    let both = vec![3..4, 6..7, 8..9, 12..14, 19..20];
    assert_eq!(ranges_of(&intersect(&a, &b)), both);
    assert_eq!(ranges_of(&intersect(&b, &a)), both);
    assert_eq!(ranges_of(&intersect(&a, &a)), ranges_of(&a));
    assert_eq!(ranges_of(&intersect(&a, &set(&[]))), vec![]);
}
