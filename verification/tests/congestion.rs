//! Disabled congestion control, and error conversion.

use mcquic::error::Error;
use mcquic::multicast::error::McError;
use mcquic::recovery::congestion::disabled::{
    checkpoint, congestion_event, debug_fmt, on_init, on_packet_acked, on_packet_sent,
    on_packets_acked, rollback, state_str,
};
use mcquic::recovery::congestion::{Acked, Congestion, RttStats, Sent};
use std::time::Instant;

const RTT: RttStats = RttStats { latest_rtt: 1, smoothed_rtt: 1 };

#[test]
fn the_window_is_unlimited_after_any_acknowledgement() {
    let now = Instant::now();
    let mut r = Congestion { congestion_window: 12_000 };
    on_init(&mut r);
    on_packet_sent(&mut r, 1200, 2400, now);
    assert_eq!(r.congestion_window, 12_000);
    let mut packets = vec![];
    on_packets_acked(&mut r, 2400, &mut packets, now, &RTT);
    assert_eq!(r.congestion_window, 12_000);
    let mut packets = vec![Acked { pkt_num: 1, size: 10 }, Acked { pkt_num: 2, size: 10 }];
    on_packets_acked(&mut r, 2400, &mut packets, now, &RTT);
    assert_eq!(r.congestion_window, usize::MAX - 1);
    assert!(packets.is_empty());
    let mut r = Congestion { congestion_window: 0 };
    on_packet_acked(&mut r, &Acked { pkt_num: 1, size: 10 }, now, &RTT);
    assert_eq!(r.congestion_window, usize::MAX - 1);
}

#[test]
fn losses_do_not_reduce_the_window() {
    let mut r = Congestion { congestion_window: 12_000 };
    congestion_event(&mut r, 1200, 1200, &Sent { pkt_num: 1, size: 1200 }, Instant::now());
    assert_eq!(r.congestion_window, usize::MAX - 1);
    checkpoint(&mut r);
    assert!(rollback(&mut r));
    assert_eq!(r.congestion_window, usize::MAX - 1);
}

struct Shown(Congestion);

impl std::fmt::Display for Shown {
    fn fmt(&self, f: &mut std::fmt::Formatter) -> std::fmt::Result {
        debug_fmt(&self.0, f)
    }
}

#[test]
fn there_is_little_to_show() {
    let r = Congestion { congestion_window: 1 };
    assert_eq!(state_str(&r, Instant::now()), "disabled");
    assert_eq!(format!("{}", Shown(r)), "");
}

#[test]
fn multicast_errors_are_errors() {
    assert_eq!(Error::from(McError::McFlow), Error::Multicast(McError::McFlow));
}
