//! Congestion control.

pub mod disabled;

use vstd::prelude::*;

verus! {

/// The state of congestion control.
#[derive(Clone, Copy, Debug, PartialEq, Eq, Structural)]
pub struct Congestion {
    /// The number of bytes that may be in flight.
    pub congestion_window: usize,
}

/// A packet that was acknowledged.
#[derive(Clone, Copy, Debug, PartialEq, Eq, Structural)]
pub struct Acked {
    /// The packet number.
    pub pkt_num: u64,
    /// The number of bytes of the packet.
    pub size: usize,
}

/// A packet that was sent.
#[derive(Clone, Copy, Debug, PartialEq, Eq, Structural)]
pub struct Sent {
    /// The packet number.
    pub pkt_num: u64,
    /// The number of bytes of the packet.
    pub size: usize,
}

/// Round-trip times, in microseconds.
#[derive(Clone, Copy, Debug, PartialEq, Eq, Structural)]
pub struct RttStats {
    pub latest_rtt: u64,
    pub smoothed_rtt: u64,
}

} // verus!
