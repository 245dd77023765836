# mcquic

A minimal multicast extension for QUIC, verified with Verus.

A server sends ordinary 1-RTT packets to an IP multicast group. Clients learn
the group, the Flow ID and the flow secret from an `MC_FLOW` frame on their
unicast connection, decrypt the packets of the flow, and report the packet
numbers that they received in `MC_ACK` frames. The sender combines the reports
of all receivers into what every one of them has, and hands that to the loss
recovery of its QUIC stack. Detecting what was lost and sending it again are the
QUIC stack's.

## Layout

- `src/multicast/` is the extension: the state of a flow on a connection
  (`mod.rs`), what packets of the flow do to a receiver (`delivery.rs`,
  `reassembly.rs`), the life of advertisements and reports (`lifecycle.rs`), the
  sender's side (`mc_flow.rs`) and the aggregation of reports (`aggregator.rs`).
- `src/connection.rs`, `stream.rs`, `streams.rs` and `dgram.rs` are the receive
  side of a connection.
- `src/packet.rs`, `crypto.rs`, `frame.rs` and `wire.rs` take packets apart:
  header and packet protection, packet numbers, frames, and the encoding of
  `MC_FLOW`.
- `src/ranges.rs` holds sets of packet numbers, `src/client.rs` the decisions of
  a receiver that feeds a media player, and `src/recovery/` disabled congestion
  control.
- `app/` is the event loop and the sockets of that receiver, for any QUIC stack
  that runs the unicast connection.

Proof functions whose names begin with `law_` state what the library promises as
a whole.

## Trust

The cryptographic primitives are those of `ring` (`src/crypto.rs`), and bytes are
read with `octets` (`src/octets_spec.rs`). What is relied on of them is stated
there.
