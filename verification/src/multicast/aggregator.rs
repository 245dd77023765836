//! Aggregation of per-receiver multicast flow acknowledgements.
//!
//! One multicast flow is delivered to many receivers, each reporting the flow
//! packet numbers it received in `MC_ACK` frames over its own unicast
//! connection. For reliability the sender must retransmit a packet if *any*
//! receiver is missing it, and may free it only once *every* receiver has it.
//!
//! [`McAckAggregator`] combines those reports into a single "acknowledged by
//! every receiver" [`RangeSet`]: the intersection of what all receivers
//! received.

use crate::ranges::{covered, interval, lemma_covered_take, separated, RangeSet};
use std::collections::HashMap;
use std::ops::Range;
use vstd::prelude::*;
use vstd::std_specs::hash::{spec_keys_iter, spec_values_iter};
use vstd::std_specs::iter::IteratorSpec;

verus! {

broadcast use vstd::std_specs::hash::group_hash_axioms;

/// Reception state accumulated for a single receiver.
struct ReceiverAck {
    /// The union of every packet-number range the receiver has reported
    /// receiving, seeded at registration with `[0, first_pn)` so a late joiner
    /// counts every packet sent before it joined as already received.
    received: RangeSet,
}

/// Aggregates the multicast flow acknowledgements reported by all receivers
/// into a single acknowledged-by-every-receiver [`RangeSet`].
pub struct McAckAggregator {
    receivers: HashMap<u64, ReceiverAck>,
}

/// The packet numbers that every receiver has. None, when there is no
/// receiver.
pub open spec fn acked_by_all(receivers: Map<u64, Set<u64>>) -> Set<u64> {
    if receivers.dom() == Set::<u64>::empty() {
        Set::empty()
    } else {
        Set::new(
            |n: u64|
                forall|id: u64| #[trigger] receivers.contains_key(id) ==> receivers[id].contains(n),
        )
    }
}

/// Registers a receiver.
pub open spec fn with_receiver(
    receivers: Map<u64, Set<u64>>,
    id: u64,
    first_pn: u64,
) -> Map<u64, Set<u64>> {
    receivers.insert(id, interval(0, first_pn as int))
}

/// Records a report; one of an unknown receiver is ignored.
pub open spec fn with_report(
    receivers: Map<u64, Set<u64>>,
    id: u64,
    received: Set<u64>,
) -> Map<u64, Set<u64>> {
    if receivers.contains_key(id) {
        receivers.insert(id, receivers[id].union(received))
    } else {
        receivers
    }
}

/// Drops the state up to a packet number.
pub open spec fn pruned(receivers: Map<u64, Set<u64>>, up_to: u64) -> Map<u64, Set<u64>> {
    receivers.map_values(|received: Set<u64>| received.difference(interval(0, up_to + 1)))
}

impl View for McAckAggregator {
    type V = Map<u64, Set<u64>>;

    /// Maps each registered receiver to the packet numbers that it has.
    closed spec fn view(&self) -> Map<u64, Set<u64>> {
        self.receivers@.map_values(|r: ReceiverAck| r.received@)
    }
}

impl Default for McAckAggregator {
    fn default() -> (agg: Self)
        ensures
            agg.wf(),
            agg@ == Map::<u64, Set<u64>>::empty(),
    {
        let agg = McAckAggregator { receivers: HashMap::new() };
        assert(agg@ =~= Map::<u64, Set<u64>>::empty());
        agg
    }
}

impl McAckAggregator {
    /// Every reception set is well-formed.
    pub closed spec fn wf(&self) -> bool {
        forall|id: u64| #[trigger]
            self.receivers@.contains_key(id) ==> self.receivers@[id].received.wf()
    }

    /// Creates an empty aggregator.
    pub fn new() -> (agg: Self)
        ensures
            agg.wf(),
            agg@ == Map::<u64, Set<u64>>::empty(),
    {
        Self::default()
    }

    /// Registers a receiver, accountable from `first_pn` (the flow packet
    /// number advertised to it at join time). Everything below `first_pn` is
    /// seeded as received. Re-registering an existing receiver resets its
    /// state.
    pub fn add_receiver(&mut self, id: u64, first_pn: u64)
        requires
            old(self).wf(),
        ensures
            final(self).wf(),
            final(self)@ == with_receiver(old(self)@, id, first_pn),
    {
        let mut received = RangeSet::default();

        if first_pn > 0 {
            received.insert(0..first_pn);
        }
        assert(received@ =~= interval(0, first_pn as int));

        self.receivers.insert(id, ReceiverAck { received });
        assert(self@ =~= old(self)@.insert(id, interval(0, first_pn as int)));
    }

    /// Removes a receiver that has left, so it no longer holds back the
    /// aggregate.
    pub fn remove_receiver(&mut self, id: u64)
        requires
            old(self).wf(),
        ensures
            final(self).wf(),
            final(self)@ == old(self)@.remove(id),
    {
        self.receivers.remove(&id);
        assert(self@ =~= old(self)@.remove(id));
    }

    /// Records the packet numbers a receiver reported as received,
    /// accumulating them into its reception set. Reports for an unknown
    /// receiver are ignored.
    pub fn record(&mut self, id: u64, received: &RangeSet)
        requires
            old(self).wf(),
            received.wf(),
        ensures
            final(self).wf(),
            final(self)@ == with_report(old(self)@, id, received@),
    {
        if let Some(mut r) = self.receivers.remove(&id) {
            r.received.insert_all(received);
            self.receivers.insert(id, r);
            assert(self@ =~= old(self)@.insert(id, old(self)@[id].union(received@)));
        } else {
            assert(self@ =~= old(self)@);
        }
    }

    /// Drops per-receiver reception state for packet numbers up to and
    /// including `up_to`, which the sender has resolved. Bounds memory as the
    /// flow progresses.
    pub fn prune(&mut self, up_to: u64)
        requires
            old(self).wf(),
        ensures
            final(self).wf(),
            final(self)@ == pruned(old(self)@, up_to),
    {
        let mut ids: Vec<u64> = Vec::new();
        for id in it: self.receivers.keys()
            invariant
                ids@ == it.seq().unref().take(it.index()),
        {
            ids.push(*id);
        }
        let ghost before = self.receivers@;
        proof {
            let seq = spec_keys_iter(&self.receivers).remaining();
            assert(ids@ =~= seq.unref());
            assert forall|id: u64| #[trigger] ids@.contains(id) <==> before.contains_key(id) by {
                assert(ids@.to_set().contains(id) <==> before.dom().contains(id));
            }
            assert forall|i: int, j: int| 0 <= i < j < ids@.len() implies #[trigger] ids@[i]
                != #[trigger] ids@[j] by {
                assert(seq[i] != seq[j]);
            }
        }
        let mut i: usize = 0;
        while i < ids.len()
            invariant
                i <= ids.len(),
                self.wf(),
                self.receivers@.dom() == before.dom(),
                forall|id: u64| #[trigger] ids@.contains(id) <==> before.contains_key(id),
                forall|i: int, j: int|
                    0 <= i < j < ids@.len() ==> #[trigger] ids@[i] != #[trigger] ids@[j],
                forall|k: int|
                    0 <= k < i ==> self.receivers@[#[trigger] ids@[k]].received@
                        == before[ids@[k]].received@.difference(interval(0, up_to + 1)),
                forall|k: int|
                    i <= k < ids@.len() ==> self.receivers@[#[trigger] ids@[k]]
                        == before[ids@[k]],
            decreases ids.len() - i,
        {
            let id = ids[i];
            assert(ids@.contains(ids@[i as int]));
            assert(self.receivers@.contains_key(id));
            if let Some(mut r) = self.receivers.remove(&id) {
                r.received.remove_until(up_to);
                self.receivers.insert(id, r);
            }
            assert(self.receivers@.dom() =~= before.dom());
            i += 1;
        }
        proof {
            assert forall|id: u64| #[trigger] before.contains_key(id) implies self.receivers@[id].received@
                == before[id].received@.difference(interval(0, up_to + 1)) by {
                assert(ids@.contains(id));
                let k = choose|k: int| 0 <= k < ids@.len() && ids@[k] == id;
                assert(ids@[k] == id);
            }
            assert(self@ =~= pruned(old(self)@, up_to));
        }
    }

    /// Computes the set of flow packet numbers acknowledged by *every*
    /// receiver, ready to feed to the sender: the intersection of all
    /// receivers' reception sets. Returns an empty set if there are no
    /// receivers.
    pub fn aggregate(&self) -> (acc: RangeSet)
        requires
            self.wf(),
        ensures
            acc.wf(),
            acc@ == acked_by_all(self@),
    {
        let mut acc = RangeSet::default();
        let mut first: bool = true;
        for r in it: self.receivers.values()
            invariant
                self.wf(),
                it.seq() == spec_values_iter(&self.receivers).remaining(),
                acc.wf(),
                first <==> it.index() == 0,
                first ==> acc@ == Set::<u64>::empty(),
                !first ==> forall|n: u64| #[trigger] acc@.contains(n) <==> forall|k: int|
                    0 <= k < it.index() ==> (#[trigger] it.seq()[k]).received@.contains(n),
        {
            proof {
                let seq = it.seq();
                assert(*seq[it.index()] == *r);
                assert(seq.unref()[it.index()] == *r);
                assert(seq.unref().to_set().contains(*r));
                assert(self.receivers@.values().contains(*r));
            }
            if first {
                acc = r.received.clone();
                first = false;
            } else if acc.len() != 0 {
                acc = intersect(&acc, &r.received);
            }
        }
        proof {
            let seq = spec_values_iter(&self.receivers).remaining();
            let receivers = self.receivers@;
            if first {
                assert(receivers.dom().len() == 0);
                assert(self@.dom() =~= Set::<u64>::empty());
            } else {
                assert(receivers.dom().len() > 0);
                assert(!(self@.dom() =~= Set::<u64>::empty())) by {
                    assert(self@.dom() =~= receivers.dom());
                }
                assert forall|n: u64| #[trigger] acc@.contains(n) <==> acked_by_all(self@).contains(
                    n,
                ) by {
                    if acc@.contains(n) {
                        assert forall|id: u64| #[trigger] self@.contains_key(
                            id,
                        ) implies self@[id].contains(n) by {
                            assert(receivers.contains_key(id));
                            assert(receivers.values().contains(receivers[id]));
                            assert(seq.unref().to_set().contains(receivers[id]));
                            let k = choose|k: int|
                                0 <= k < seq.len() && seq.unref()[k] == receivers[id];
                            assert(seq[k].received@.contains(n));
                        }
                    }
                    if acked_by_all(self@).contains(n) {
                        assert forall|k: int| 0 <= k < seq.len() implies (
                        #[trigger] seq[k]).received@.contains(n) by {
                            assert(seq.unref()[k] == *seq[k]);
                            assert(seq.unref().to_set().contains(*seq[k]));
                            assert(receivers.values().contains(*seq[k]));
                            let id = choose|id: u64| #[trigger]
                                receivers.contains_key(id) && receivers[id] == *seq[k];
                            assert(self@.contains_key(id));
                        }
                    }
                }
            }
            assert(acc@ =~= acked_by_all(self@));
        }
        acc
    }
}

/// Records reports of a receiver, one after the other.
pub open spec fn with_reports(
    receivers: Map<u64, Set<u64>>,
    id: u64,
    reports: Seq<Set<u64>>,
) -> Map<u64, Set<u64>>
    decreases reports.len(),
{
    if reports.len() == 0 {
        receivers
    } else {
        with_report(with_reports(receivers, id, reports.drop_last()), id, reports.last())
    }
}

/// What a receiver has is what was sent before it joined and what it has
/// reported since, all of it and nothing else; other receivers are unaffected.
pub proof fn law_receiver_history(
    receivers: Map<u64, Set<u64>>,
    id: u64,
    first_pn: u64,
    reports: Seq<Set<u64>>,
    n: u64,
)
    ensures
        ({
            let after = with_reports(with_receiver(receivers, id, first_pn), id, reports);
            &&& after.remove(id) == receivers.remove(id)
            &&& after.contains_key(id)
            &&& after[id].contains(n) <==> n < first_pn || exists|i: int|
                0 <= i < reports.len() && (#[trigger] reports[i]).contains(n)
        }),
    decreases reports.len(),
{
    let after = with_reports(with_receiver(receivers, id, first_pn), id, reports);
    if reports.len() > 0 {
        let rest = reports.drop_last();
        let before = with_reports(with_receiver(receivers, id, first_pn), id, rest);
        law_receiver_history(receivers, id, first_pn, rest, n);
        assert(after.remove(id) =~= before.remove(id));
        if after[id].contains(n) && n >= first_pn {
            if reports.last().contains(n) {
                assert(reports[reports.len() - 1].contains(n));
            } else {
                let i = choose|i: int| 0 <= i < rest.len() && (#[trigger] rest[i]).contains(n);
                assert(reports[i].contains(n));
            }
        }
        if exists|i: int| 0 <= i < reports.len() && (#[trigger] reports[i]).contains(n) {
            let i = choose|i: int| 0 <= i < reports.len() && (#[trigger] reports[i]).contains(n);
            if i < reports.len() - 1 {
                assert(rest[i].contains(n));
            }
        }
    } else {
        assert(after.remove(id) =~= receivers.remove(id));
    }
}

/// A packet that every receiver has is acknowledged, where there is a receiver.
pub proof fn law_everywhere(receivers: Map<u64, Set<u64>>, id: u64, n: u64)
    requires
        receivers.contains_key(id),
        forall|k: u64| #[trigger] receivers.contains_key(k) ==> receivers[k].contains(n),
    ensures
        acked_by_all(receivers).contains(n),
{
    assert(receivers.dom().contains(id));
}

/// A packet that any one receiver is missing is not acknowledged.
pub proof fn law_missing_anywhere(receivers: Map<u64, Set<u64>>, id: u64, n: u64)
    requires
        receivers.contains_key(id),
        !receivers[id].contains(n),
    ensures
        !acked_by_all(receivers).contains(n),
{
    assert(receivers.dom().contains(id));
}

/// The aggregate of a single receiver is what that receiver has.
pub proof fn law_single_receiver(id: u64, received: Set<u64>)
    ensures
        acked_by_all(map![id => received]) == received,
{
    let receivers = map![id => received];
    assert(receivers.contains_key(id));
    assert(receivers.dom().contains(id));
    assert(acked_by_all(receivers) =~= received);
}

/// A report never takes a packet out of the aggregate, and a receiver keeps all
/// that it reported before.
pub proof fn law_reports_accumulate(receivers: Map<u64, Set<u64>>, id: u64, received: Set<u64>)
    ensures
        acked_by_all(receivers).subset_of(acked_by_all(with_report(receivers, id, received))),
        receivers.contains_key(id) ==> receivers[id].subset_of(
            with_report(receivers, id, received)[id],
        ),
{
    let after = with_report(receivers, id, received);
    assert forall|n: u64| #[trigger] acked_by_all(receivers).contains(n) implies acked_by_all(
        after,
    ).contains(n) by {
        assert(!(receivers.dom() =~= Set::<u64>::empty()));
        assert(after.dom() =~= receivers.dom());
        assert forall|k: u64| #[trigger] after.contains_key(k) implies after[k].contains(n) by {
            assert(receivers.contains_key(k));
        }
    }
}

/// A late joiner does not hold back the packets sent before it joined, and
/// holds back the others until it reports them.
pub proof fn law_late_joiner(receivers: Map<u64, Set<u64>>, id: u64, first_pn: u64, n: u64)
    ensures
        n < first_pn && acked_by_all(receivers).contains(n) ==> acked_by_all(
            with_receiver(receivers, id, first_pn),
        ).contains(n),
        n >= first_pn ==> !acked_by_all(with_receiver(receivers, id, first_pn)).contains(n),
{
    let after = with_receiver(receivers, id, first_pn);
    assert(after.contains_key(id));
    assert(after.dom().contains(id));
    if n < first_pn && acked_by_all(receivers).contains(n) {
        assert forall|k: u64| #[trigger] after.contains_key(k) implies after[k].contains(n) by {
            if k != id {
                assert(receivers.contains_key(k));
            }
        }
    }
}

/// When a receiver leaves and others remain, no packet leaves the aggregate.
pub proof fn law_leaving(receivers: Map<u64, Set<u64>>, id: u64, other: u64)
    requires
        receivers.contains_key(other),
        other != id,
    ensures
        acked_by_all(receivers).subset_of(acked_by_all(receivers.remove(id))),
{
    let after = receivers.remove(id);
    assert(after.dom().contains(other));
    assert forall|n: u64| #[trigger] acked_by_all(receivers).contains(n) implies acked_by_all(
        after,
    ).contains(n) by {
        assert(receivers.dom().contains(other));
        assert forall|k: u64| #[trigger] after.contains_key(k) implies after[k].contains(n) by {
            assert(receivers.contains_key(k));
        }
    }
}

/// Nothing is acknowledged where there is no receiver.
pub proof fn law_no_receivers()
    ensures
        acked_by_all(Map::empty()) == Set::<u64>::empty(),
{
    assert(Map::<u64, Set<u64>>::empty().dom() =~= Set::<u64>::empty());
}

/// Pruning takes the packets up to the given one out of the aggregate, and
/// changes nothing else.
pub proof fn law_prune(receivers: Map<u64, Set<u64>>, up_to: u64)
    ensures
        acked_by_all(pruned(receivers, up_to)) == acked_by_all(receivers).difference(
            interval(0, up_to + 1),
        ),
{
    let after = pruned(receivers, up_to);
    assert(after.dom() =~= receivers.dom());
    if receivers.dom() =~= Set::<u64>::empty() {
        assert(acked_by_all(after) =~= acked_by_all(receivers).difference(interval(0, up_to + 1)));
    } else {
        let first = receivers.dom().choose();
        assert(receivers.dom().contains(first));
        assert forall|n: u64| #[trigger] acked_by_all(after).contains(n) <==> acked_by_all(
            receivers,
        ).difference(interval(0, up_to + 1)).contains(n) by {
            if acked_by_all(after).contains(n) {
                assert(after.contains_key(first));
                assert(after[first].contains(n));
                assert forall|k: u64| #[trigger] receivers.contains_key(
                    k,
                ) implies receivers[k].contains(n) by {
                    assert(after.contains_key(k));
                }
            }
            if acked_by_all(receivers).difference(interval(0, up_to + 1)).contains(n) {
                assert forall|k: u64| #[trigger] after.contains_key(k) implies after[k].contains(
                    n,
                ) by {
                    assert(receivers.contains_key(k));
                }
            }
        }
        assert(acked_by_all(after) =~= acked_by_all(receivers).difference(interval(0, up_to + 1)));
    }
}

/// Pruning below the oldest packet that the sender still tracks takes nothing
/// from any receiver that the sender still needs.
pub proof fn law_prune_keeps_tracked(
    receivers: Map<u64, Set<u64>>,
    oldest: u64,
    id: u64,
    n: u64,
)
    requires
        0 < oldest <= n,
        receivers.contains_key(id),
    ensures
        pruned(receivers, (oldest - 1) as u64).contains_key(id),
        pruned(receivers, (oldest - 1) as u64)[id].contains(n) <==> receivers[id].contains(n),
{
}

/// What registering, reporting and pruning do to what a receiver has. A receiver
/// has all that was sent before it joined; a report adds what it reports to its
/// receiver, if that is registered; pruning takes what is not above the given
/// number from every receiver. No receiver comes or goes otherwise, and no other
/// changes.
pub proof fn law_receiver_effects(
    receivers: Map<u64, Set<u64>>,
    id: u64,
    first_pn: u64,
    received: Set<u64>,
    up_to: u64,
    k: u64,
    n: u64,
)
    ensures
        ({
            let joined = with_receiver(receivers, id, first_pn);
            &&& joined.contains_key(k) <==> receivers.contains_key(k) || k == id
            &&& joined[id].contains(n) <==> n < first_pn
            &&& k != id ==> joined[k] == receivers[k]
        }),
        ({
            let reported = with_report(receivers, id, received);
            &&& reported.contains_key(k) <==> receivers.contains_key(k)
            &&& receivers.contains_key(id) ==> (reported[id].contains(n) <==> receivers[id].contains(
                n,
            ) || received.contains(n))
            &&& k != id ==> reported[k] == receivers[k]
        }),
        ({
            let left = pruned(receivers, up_to);
            &&& left.contains_key(k) <==> receivers.contains_key(k)
            &&& receivers.contains_key(k) ==> (left[k].contains(n) <==> receivers[k].contains(n) && n
                > up_to)
        }),
{
}

/// Intersection of two [`RangeSet`]s.
///
/// Relies on [`RangeSet::iter`] yielding ascending, non-overlapping,
/// half-open `[start, end)` ranges: a two-pointer merge that advances whichever
/// range ends first.
pub fn intersect(a: &RangeSet, b: &RangeSet) -> (out: RangeSet)
    requires
        a.wf(),
        b.wf(),
    ensures
        out.wf(),
        out@ == a@.intersect(b@),
{
    let mut out = RangeSet::default();

    let ra: Vec<Range<u64>> = a.iter();
    let rb: Vec<Range<u64>> = b.iter();
    let mut i: usize = 0;
    let mut j: usize = 0;

    while i < ra.len() && j < rb.len()
        invariant
            i <= ra.len(),
            j <= rb.len(),
            out.wf(),
            separated(ra@),
            separated(rb@),
            forall|n: u64| #[trigger]
                out@.contains(n) <==> covered(ra@, n) && covered(rb@, n) && (covered(
                    ra@.take(i as int),
                    n,
                ) || covered(rb@.take(j as int), n)),
        decreases ra.len() - i + rb.len() - j,
    {
        let (xs, xe) = (ra[i].start, ra[i].end);
        let (ys, ye) = (rb[j].start, rb[j].end);

        let start = if xs > ys {
            xs
        } else {
            ys
        };
        let end = if xe < ye {
            xe
        } else {
            ye
        };

        let ghost before = out@;
        if start < end {
            out.insert(start..end);
        }
        proof {
            lemma_covered_take(ra@, i as int);
            lemma_covered_take(rb@, j as int);
            assert forall|n: u64| xs <= n < xe && covered(rb@, n) implies xe > ye || covered(
                rb@.take(j as int),
                n,
            ) || ys <= n < ye by {
                let k = choose|k: int|
                    0 <= k < rb@.len() && (#[trigger] rb@[k]).start <= n < rb@[k].end;
                if k < j {
                    assert(rb@.take(j as int)[k] == rb@[k]);
                }
            }
            assert forall|n: u64| ys <= n < ye && covered(ra@, n) implies ye > xe || covered(
                ra@.take(i as int),
                n,
            ) || xs <= n < xe by {
                let k = choose|k: int|
                    0 <= k < ra@.len() && (#[trigger] ra@[k]).start <= n < ra@[k].end;
                if k < i {
                    assert(ra@.take(i as int)[k] == ra@[k]);
                }
            }
            assert forall|n: u64| xs <= n < xe implies covered(ra@, n) by {
                assert(ra@[i as int].start <= n);
            }
            assert forall|n: u64| ys <= n < ye implies covered(rb@, n) by {
                assert(rb@[j as int].start <= n);
            }
            assert forall|n: u64| #[trigger] out@.contains(n) <==> before.contains(n) || (start <= n
                < end) by {}
        }
        // Advance the range that ends first; drop both when they end together.
        if xe < ye {
            i += 1;
        } else if ye < xe {
            j += 1;
        } else {
            i += 1;
            j += 1;
        }
    }
    assert(i == ra.len() ==> ra@.take(i as int) =~= ra@);
    assert(j == rb.len() ==> rb@.take(j as int) =~= rb@);
    assert(out@ =~= a@.intersect(b@));
    out
}

} // verus!
