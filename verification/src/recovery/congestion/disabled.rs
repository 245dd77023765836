//! Disabled congestion control: the window never limits the sender.
//!
//! A multicast sender transmits at a rate that the application chooses.

use super::{Acked, Congestion, RttStats, Sent};
use std::fmt::Formatter;
use std::time::Instant;
use vstd::prelude::*;

verus! {

/// A point in time.
#[verifier::external_type_specification]
#[verifier::external_body]
pub struct ExInstant(Instant);

/// Where formatted text goes.
#[verifier::external_type_specification]
#[verifier::external_body]
pub struct ExFormatter<'a>(Formatter<'a>);

/// An error of formatting.
#[verifier::external_type_specification]
#[verifier::external_body]
pub struct ExFmtError(std::fmt::Error);

/// The window once a packet was acknowledged or lost.
pub const UNLIMITED_WINDOW: usize = usize::MAX - 1;

/// Sets nothing up.
pub fn on_init(_r: &mut Congestion)
    ensures
        *final(_r) == *old(_r),
{
}

/// Notes nothing of a packet that was sent.
pub fn on_packet_sent(
    _r: &mut Congestion,
    _sent_bytes: usize,
    _bytes_in_flight: usize,
    _now: Instant,
)
    ensures
        *final(_r) == *old(_r),
{
}

/// Takes the acknowledged packets. The window is unlimited after any.
pub fn on_packets_acked(
    r: &mut Congestion,
    _bytes_in_flight: usize,
    packets: &mut Vec<Acked>,
    now: Instant,
    rtt_stats: &RttStats,
)
    ensures
        final(packets)@ == Seq::<Acked>::empty(),
        *final(r) == (if old(packets)@.len() > 0 {
            Congestion { congestion_window: UNLIMITED_WINDOW, ..*old(r) }
        } else {
            *old(r)
        }),
        old(packets)@.len() > 0 ==> final(r).congestion_window == usize::MAX - 1,
{
    let mut i: usize = 0;
    while i < packets.len()
        invariant
            i <= packets@.len(),
            packets@ == old(packets)@,
            *r == (if i > 0 {
                Congestion { congestion_window: UNLIMITED_WINDOW, ..*old(r) }
            } else {
                *old(r)
            }),
        decreases packets@.len() - i,
    {
        on_packet_acked(r, &packets[i], now, rtt_stats);
        i += 1;
    }
    packets.clear();
}

/// Takes one acknowledged packet.
pub fn on_packet_acked(r: &mut Congestion, _packet: &Acked, _now: Instant, _rtt_stats: &RttStats)
    ensures
        *final(r) == (Congestion { congestion_window: UNLIMITED_WINDOW, ..*old(r) }),
        final(r).congestion_window == usize::MAX - 1,
{
    r.congestion_window = UNLIMITED_WINDOW;
}

/// Does not reduce the window when packets are lost.
pub fn congestion_event(
    r: &mut Congestion,
    _bytes_in_flight: usize,
    _lost_bytes: usize,
    _largest_lost_pkt: &Sent,
    _now: Instant,
)
    ensures
        *final(r) == (Congestion { congestion_window: UNLIMITED_WINDOW, ..*old(r) }),
        final(r).congestion_window == usize::MAX - 1,
{
    r.congestion_window = UNLIMITED_WINDOW;
}

/// Saves nothing.
pub fn checkpoint(_r: &mut Congestion)
    ensures
        *final(_r) == *old(_r),
{
}

/// Restores nothing, and says that it did.
pub fn rollback(_r: &mut Congestion) -> (done: bool)
    ensures
        done,
        *final(_r) == *old(_r),
{
    true
}

/// Names the state.
pub fn state_str(_r: &Congestion, _now: Instant) -> (s: &'static str)
    ensures
        s@ == "disabled"@,
{
    "disabled"
}

/// Writes nothing.
pub fn debug_fmt(_r: &Congestion, _f: &mut Formatter) -> (r: std::fmt::Result)
    ensures
        r is Ok,
        *final(_f) == *old(_f),
{
    Ok(())
}

} // verus!
