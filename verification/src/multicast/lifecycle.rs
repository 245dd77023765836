//! What becomes of advertisements and reports over time.
//!
//! `MC_FLOW` and `MC_ACK` frames are sent under the loss recovery of the unicast
//! connection, which tells what became of them: they are transmitted, lost and
//! acknowledged, in any order and any number of times.

use crate::connection::ConnView;
use crate::frame::FrameView;
use crate::multicast::delivery::{law_delivery_keeps_flow, law_reception};
use crate::multicast::McView;
use crate::packet::opened;
use vstd::prelude::*;

verus! {

/// What happens to an `MC_FLOW` frame.
pub enum FlowEvent {
    Sent,
    Acked,
    Lost,
}

/// The state after one event of an `MC_FLOW` frame.
pub open spec fn after_flow_event(mc: McView, event: FlowEvent) -> McView {
    match event {
        FlowEvent::Sent => mc.after_flow_sent(),
        FlowEvent::Acked => mc.after_flow_acked(),
        FlowEvent::Lost => mc.after_flow_lost(),
    }
}

/// The state after events of `MC_FLOW` frames.
pub open spec fn after_flow_events(mc: McView, events: Seq<FlowEvent>) -> McView
    decreases events.len(),
{
    if events.len() == 0 {
        mc
    } else {
        after_flow_event(after_flow_events(mc, events.drop_last()), events.last())
    }
}

/// Once an advertisement is acknowledged, the flow is never advertised again,
/// whatever is sent, lost and acknowledged later.
pub proof fn law_flow_retired(mc: McView, events: Seq<FlowEvent>)
    requires
        events.contains(FlowEvent::Acked),
    ensures
        after_flow_events(mc, events).flow_acked,
        after_flow_events(mc, events).pending_flow() is None,
    decreases events.len(),
{
    if events.last() != FlowEvent::Acked {
        let i = choose|i: int| 0 <= i < events.len() && events[i] == FlowEvent::Acked;
        assert(events.drop_last()[i] == FlowEvent::Acked);
        law_flow_retired(mc, events.drop_last());
    }
}

/// Until an advertisement is acknowledged, its loss schedules it again, and it
/// advertises the flow that was registered.
pub proof fn law_flow_retransmitted(mc: McView, events: Seq<FlowEvent>)
    requires
        !mc.flow_acked,
        !events.contains(FlowEvent::Acked),
    ensures
        !after_flow_events(mc, events).flow_acked,
        after_flow_events(mc, events.push(FlowEvent::Lost)).pending_flow() == Some(
            FrameView::McFlow { flow: mc.flow },
        ),
    decreases events.len(),
{
    lemma_flow_kept(mc, events);
    assert(events.push(FlowEvent::Lost).drop_last() =~= events);
    if events.len() > 0 {
        assert(events[events.len() - 1] != FlowEvent::Acked) by {
            assert(events.contains(events.last()));
        }
        assert(!events.drop_last().contains(FlowEvent::Acked)) by {
            if events.drop_last().contains(FlowEvent::Acked) {
                let i = choose|i: int|
                    0 <= i < events.drop_last().len() && events.drop_last()[i] == FlowEvent::Acked;
                assert(events[i] == FlowEvent::Acked);
            }
        }
        law_flow_retransmitted(mc, events.drop_last());
    }
}

/// A transmitted advertisement is not transmitted again unless it is lost.
pub proof fn law_flow_sent_once(mc: McView, events: Seq<FlowEvent>)
    requires
        !events.contains(FlowEvent::Lost),
        mc.flow_sent || events.len() > 0,
    ensures
        after_flow_events(mc, events).pending_flow() is None,
    decreases events.len(),
{
    if events.len() > 0 {
        assert(events.contains(events.last()));
    }
}

/// No event changes the flow that is advertised.
proof fn lemma_flow_kept(mc: McView, events: Seq<FlowEvent>)
    ensures
        after_flow_events(mc, events).flow == mc.flow,
    decreases events.len(),
{
    if events.len() > 0 {
        lemma_flow_kept(mc, events.drop_last());
    }
}

/// What happens to the packet numbers that a client has received, and to the
/// `MC_ACK` frames that report them.
pub enum AckEvent {
    /// A packet was received on the flow.
    Received(u64),
    /// `MC_ACK` was transmitted.
    Sent,
    /// `MC_ACK` was lost.
    Lost,
    /// `MC_ACK` with this largest packet number was acknowledged.
    Acked(Option<u64>),
}

impl AckEvent {
    /// Whether the event settles the report of packet number `pn`.
    pub open spec fn settles(self, pn: u64) -> bool {
        self matches AckEvent::Acked(Some(largest)) && pn <= largest
    }
}

/// The state after one event.
pub open spec fn after_ack_event(mc: McView, event: AckEvent) -> McView {
    match event {
        AckEvent::Received(pn) => mc.after_flow_pn(pn),
        AckEvent::Sent => mc.after_ack_sent(),
        AckEvent::Lost => mc.after_ack_lost(),
        AckEvent::Acked(largest) => mc.after_ack_acked(largest),
    }
}

/// The state after events.
pub open spec fn after_ack_events(mc: McView, events: Seq<AckEvent>) -> McView
    decreases events.len(),
{
    if events.len() == 0 {
        mc
    } else {
        after_ack_event(after_ack_events(mc, events.drop_last()), events.last())
    }
}

/// A packet number is in the report that its reception schedules.
pub proof fn law_reception_reported(mc: McView, pn: u64)
    ensures
        mc.after_flow_pn(pn).pending_ack() == Some(
            FrameView::McAck {
                flow_id: mc.flow.flow_id,
                ack_delay: 0,
                ranges: mc.recv_pns.insert(pn),
            },
        ),
{
    assert(mc.recv_pns.insert(pn).contains(pn));
}

/// A received packet number is in every report, until a report that reaches up
/// to it is acknowledged.
pub proof fn law_report_kept(mc: McView, events: Seq<AckEvent>, pn: u64)
    requires
        mc.recv_pns.contains(pn),
        forall|i: int| 0 <= i < events.len() ==> !(#[trigger] events[i]).settles(pn),
    ensures
        after_ack_events(mc, events).recv_pns.contains(pn),
        after_ack_events(mc, events).pending_ack() matches Some(frame) ==> frame->ranges.contains(
            pn,
        ),
    decreases events.len(),
{
    if events.len() > 0 {
        assert(!events[events.len() - 1].settles(pn));
        assert forall|i: int| 0 <= i < events.drop_last().len() implies !(
        #[trigger] events.drop_last()[i]).settles(pn) by {
            assert(!events[i].settles(pn));
        }
        law_report_kept(mc, events.drop_last(), pn);
    }
}

/// A packet number that is settled is in no report, unless it is received
/// again.
pub proof fn law_report_settled(mc: McView, settled: AckEvent, events: Seq<AckEvent>, pn: u64)
    requires
        settled.settles(pn),
        !events.contains(AckEvent::Received(pn)),
    ensures
        ({
            let after = after_ack_events(after_ack_event(mc, settled), events);
            &&& !after.recv_pns.contains(pn)
            &&& after.pending_ack() matches Some(frame) ==> !frame->ranges.contains(pn)
        }),
{
    lemma_not_invented(after_ack_event(mc, settled), events, pn);
}

/// Only packet numbers that were received are reported.
pub proof fn law_reports_true(mc: McView, events: Seq<AckEvent>, pn: u64)
    requires
        after_ack_events(mc, events).recv_pns.contains(pn),
    ensures
        mc.recv_pns.contains(pn) || events.contains(AckEvent::Received(pn)),
{
    if !mc.recv_pns.contains(pn) && !events.contains(AckEvent::Received(pn)) {
        lemma_not_invented(mc, events, pn);
    }
}

proof fn lemma_not_invented(mc: McView, events: Seq<AckEvent>, pn: u64)
    requires
        !mc.recv_pns.contains(pn),
        !events.contains(AckEvent::Received(pn)),
    ensures
        !after_ack_events(mc, events).recv_pns.contains(pn),
    decreases events.len(),
{
    if events.len() > 0 {
        let rest = events.drop_last();
        assert(events.contains(events.last()));
        if rest.contains(AckEvent::Received(pn)) {
            let i = choose|i: int| 0 <= i < rest.len() && rest[i] == AckEvent::Received(pn);
            assert(events[i] == AckEvent::Received(pn));
        }
        lemma_not_invented(mc, rest, pn);
    }
}

/// A report is sent once, and sent again, as it then is, when it is lost.
pub proof fn law_report_retransmitted(mc: McView)
    requires
        mc.ack_pending,
    ensures
        mc.after_ack_sent().pending_ack() is None,
        mc.after_ack_sent().after_ack_lost().pending_ack() == mc.pending_ack(),
{
}

/// The state of the server after reports of the client.
pub open spec fn after_reports(mc: McView, reports: Seq<Set<u64>>) -> McView
    decreases reports.len(),
{
    if reports.len() == 0 {
        mc
    } else {
        after_reports(mc, reports.drop_last()).after_report(reports.last())
    }
}

/// What is taken for relay is what was reported since the previous time, all of
/// it and nothing else; nothing is taken twice.
pub proof fn law_relay_complete(mc: McView, reports: Seq<Set<u64>>, pn: u64)
    ensures
        ({
            let before = mc.after_relay();
            let after = after_reports(before, reports);
            &&& before.acked_pns is None
            &&& after.acked_pns is Some <==> reports.len() > 0
            &&& after.acked_pns matches Some(acked) ==> (acked.contains(pn) <==> exists|i: int|
                0 <= i < reports.len() && (#[trigger] reports[i]).contains(pn))
        }),
    decreases reports.len(),
{
    if reports.len() > 0 {
        let rest = reports.drop_last();
        law_relay_complete(mc, rest, pn);
        let acked = after_reports(mc.after_relay(), reports).acked_pns->0;
        if acked.contains(pn) {
            if reports.last().contains(pn) {
                assert(reports[reports.len() - 1].contains(pn));
            } else {
                let i = choose|i: int| 0 <= i < rest.len() && (#[trigger] rest[i]).contains(pn);
                assert(reports[i].contains(pn));
            }
        }
        if exists|i: int| 0 <= i < reports.len() && (#[trigger] reports[i]).contains(pn) {
            let i = choose|i: int| 0 <= i < reports.len() && (#[trigger] reports[i]).contains(pn);
            if i < reports.len() - 1 {
                assert(rest[i].contains(pn));
            }
        }
    }
}

/// What the events of an `MC_FLOW` frame change: whether it was transmitted and
/// whether it was acknowledged, and nothing else.
pub proof fn law_flow_event_effects(mc: McView)
    ensures
        after_flow_event(mc, FlowEvent::Sent) == (McView { flow_sent: true, ..mc }),
        after_flow_event(mc, FlowEvent::Acked) == (McView {
            flow_sent: true,
            flow_acked: true,
            ..mc
        }),
        mc.flow_acked ==> after_flow_event(mc, FlowEvent::Lost) == mc,
        !mc.flow_acked ==> after_flow_event(mc, FlowEvent::Lost) == (McView {
            flow_sent: false,
            ..mc
        }),
{
}

/// What the events of received packets and of `MC_ACK` frames change: the packet
/// numbers to report and whether a report is scheduled, and nothing else.
pub proof fn law_ack_event_effects(mc: McView, event: AckEvent, n: u64)
    ensures
        ({
            let after = after_ack_event(mc, event);
            &&& after.recv_pns.contains(n) <==> match event {
                AckEvent::Received(pn) => mc.recv_pns.contains(n) || n == pn,
                AckEvent::Acked(Some(largest)) => mc.recv_pns.contains(n) && n > largest,
                _ => mc.recv_pns.contains(n),
            }
            &&& after.ack_pending == match event {
                AckEvent::Received(_) => true,
                AckEvent::Sent => false,
                AckEvent::Lost => true,
                AckEvent::Acked(_) => mc.ack_pending,
            }
            &&& after == (McView {
                recv_pns: after.recv_pns,
                ack_pending: after.ack_pending,
                ..mc
            })
        }),
{
}

/// What each thing that can become of a frame changes, and that it changes nothing
/// else.
pub proof fn law_transitions(mc: McView, pn: u64, largest: u64, n: u64)
    ensures
        mc.after_flow_sent() == (McView { flow_sent: true, ..mc }),
        mc.after_flow_acked() == (McView { flow_sent: true, flow_acked: true, ..mc }),
        mc.flow_acked ==> mc.after_flow_lost() == mc,
        !mc.flow_acked ==> mc.after_flow_lost() == (McView { flow_sent: false, ..mc }),
        mc.after_ack_sent() == (McView { ack_pending: false, ..mc }),
        mc.after_ack_lost() == (McView { ack_pending: true, ..mc }),
        mc.after_ack_acked(None) == mc,
        ({
            let after = mc.after_ack_acked(Some(largest));
            &&& after.recv_pns.contains(n) <==> mc.recv_pns.contains(n) && n > largest
            &&& after == (McView { recv_pns: after.recv_pns, ..mc })
        }),
        ({
            let after = mc.after_flow_pn(pn);
            &&& after.recv_pns.contains(n) <==> mc.recv_pns.contains(n) || n == pn
            &&& after == (McView { recv_pns: after.recv_pns, ack_pending: true, ..mc })
        }),
{
}

/// What a report of the client changes on the server, and what its relay does:
/// the packet numbers that wait for relay, and nothing else.
pub proof fn law_report_effects(mc: McView, pns: Set<u64>, n: u64)
    ensures
        ({
            let after = mc.after_report(pns);
            &&& after.acked_pns is Some
            &&& after.acked_pns->0.contains(n) <==> pns.contains(n) || (mc.acked_pns is Some
                && mc.acked_pns->0.contains(n))
            &&& after == (McView { acked_pns: after.acked_pns, ..mc })
            &&& mc.after_relay() == (McView { acked_pns: None, ..mc })
        }),
{
}

/// Which frames are scheduled: an advertisement of the flow unless it was
/// transmitted, and a report of all received packet numbers, if there are any,
/// where one is due.
pub proof fn law_scheduled_frames(mc: McView, pn: u64)
    ensures
        mc.flow_sent ==> mc.pending_flow() is None,
        !mc.flow_sent ==> mc.pending_flow() == Some(FrameView::McFlow { flow: mc.flow }),
        !mc.ack_pending ==> mc.pending_ack() is None,
        mc.ack_pending && mc.recv_pns.contains(pn) ==> mc.pending_ack() == Some(
            FrameView::McAck {
                flow_id: mc.flow.flow_id,
                ack_delay: 0,
                ranges: mc.recv_pns,
            },
        ),
        mc.pending_ack() is Some ==> exists|n: u64| #[trigger] mc.recv_pns.contains(n),
{
    if mc.pending_ack() is Some {
        if !(exists|n: u64| #[trigger] mc.recv_pns.contains(n)) {
            assert(mc.recv_pns =~= Set::<u64>::empty());
        }
    }
}

/// What a packet that is taken in changes: the largest packet number, if it is
/// larger, and the report, which it is added to and which is due. Nothing else
/// changes.
pub proof fn law_packet_effects(mc: McView, pn: u64)
    ensures
        ({
            let after = mc.after_packet(pn);
            &&& after.largest_pn is Some
            &&& after.largest_pn->0 >= pn
            &&& mc.largest_pn matches Some(largest) ==> after.largest_pn->0 >= largest
            &&& after.largest_pn == Some(pn) || after.largest_pn == mc.largest_pn
            &&& after == (McView {
                largest_pn: after.largest_pn,
                recv_pns: mc.recv_pns.insert(pn),
                ack_pending: true,
                ..mc
            })
        }),
{
}

/// The largest decrypted packet number is the basis for the next one.
pub proof fn law_basis(mc: McView)
    ensures
        mc.largest_pn matches Some(largest) ==> mc.basis() == largest,
        mc.largest_pn is None && mc.flow.first_pn > 0 ==> mc.basis() + 1 == mc.flow.first_pn,
        mc.basis() >= 0,
{
}

/// Whenever a report is scheduled on a client, the client should send it, be
/// what it may that was received. It should send none that is not due, and
/// servers send none.
pub proof fn law_report_due(conn: ConnView)
    ensures
        !conn.is_server && conn.multicast is Some && conn.multicast->0.pending_ack() is Some
            ==> conn.should_send_ack(),
        !conn.is_server && conn.multicast is Some && conn.multicast->0.ack_pending
            ==> conn.should_send_ack(),
        conn.should_send_ack() ==> !conn.is_server && conn.multicast is Some
            && conn.multicast->0.ack_pending,
{
}

/// Whenever the advertisement is scheduled on a server, the server should send
/// it, be what it may. It should send none that is not, and clients send none.
pub proof fn law_advertisement_due(conn: ConnView)
    ensures
        conn.is_server && conn.multicast is Some && conn.multicast->0.pending_flow() is Some
            ==> conn.should_send_flow(),
        conn.should_send_flow() ==> conn.is_server && conn.multicast is Some
            && conn.multicast->0.pending_flow() is Some,
{
}

/// A client that has taken in a packet of the flow should report it, and goes on
/// to, until it has sent a report; whatever it receives, and whatever becomes of
/// earlier reports, meanwhile.
pub proof fn law_report_due_until_sent(conn: ConnView, pkt: Seq<u8>, events: Seq<AckEvent>)
    requires
        !conn.is_server,
        conn.received(pkt).1 is Ok,
        !events.contains(AckEvent::Sent),
    ensures
        ({
            let after = conn.received(pkt).0;
            &&& after.multicast is Some
            &&& after.should_send_ack()
            &&& (ConnView {
                multicast: Some(after_ack_events(after.multicast->0, events)),
                ..after
            }).should_send_ack()
        }),
    decreases events.len(),
{
    law_reception(conn, pkt);
    let mc = conn.multicast->0;
    law_delivery_keeps_flow(
        conn,
        opened(pkt, mc.flow.flow_id, mc.open->0, mc.basis())->0.payload,
    );
    lemma_due_until_sent(conn.received(pkt).0.multicast->0, events);
}

proof fn lemma_due_until_sent(mc: McView, events: Seq<AckEvent>)
    requires
        mc.ack_pending,
        !events.contains(AckEvent::Sent),
    ensures
        after_ack_events(mc, events).ack_pending,
    decreases events.len(),
{
    if events.len() > 0 {
        assert(events.contains(events.last()));
        let rest = events.drop_last();
        if rest.contains(AckEvent::Sent) {
            let i = choose|i: int| 0 <= i < rest.len() && rest[i] == AckEvent::Sent;
            assert(events[i] == AckEvent::Sent);
        }
        lemma_due_until_sent(mc, rest);
    }
}

/// A client that has sent its report has none to send, until it receives another
/// packet or the report is lost.
pub proof fn law_report_sent_or_lost(conn: ConnView, pn: u64)
    requires
        !conn.is_server,
        conn.multicast is Some,
    ensures
        ({
            let mc = conn.multicast->0;
            let sent = ConnView { multicast: Some(mc.after_ack_sent()), ..conn };
            let lost = ConnView { multicast: Some(mc.after_ack_sent().after_ack_lost()), ..conn };
            let more = ConnView { multicast: Some(mc.after_ack_sent().after_flow_pn(pn)), ..conn };
            &&& !sent.should_send_ack()
            &&& lost.should_send_ack()
            &&& more.should_send_ack()
        }),
{
}

} // verus!
