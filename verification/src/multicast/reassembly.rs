//! Streams that span several packets of a flow.

use crate::connection::ConnView;
use crate::frame::{lemma_take_frame, take_frame, FrameView};
use crate::multicast::delivery::carries;
use crate::packet::opened;
use crate::stream::{agrees, lemma_next_len};
use vstd::prelude::*;

verus! {

/// Whether the stream ends, wherever a payload ends it, behind `len` bytes.
pub open spec fn ends_at(payload: Seq<u8>, stream_id: u64, len: nat) -> bool
    decreases payload.len(),
{
    if payload.len() == 0 {
        true
    } else {
        match take_frame(payload) {
            Some((frame, rest)) => {
                proof {
                    lemma_take_frame(payload);
                }
                &&& match frame {
                    FrameView::Stream { stream_id: id, offset, data, fin } if id == stream_id
                        && fin => offset + data.len() == len,
                    _ => true,
                }
                &&& ends_at(rest, stream_id, len)
            },
            None => true,
        }
    }
}

/// Whether a payload carries the byte of a stream at offset `o`.
pub open spec fn carries_byte(payload: Seq<u8>, stream_id: u64, o: int) -> bool
    decreases payload.len(),
{
    if payload.len() == 0 {
        false
    } else {
        match take_frame(payload) {
            Some((frame, rest)) => {
                proof {
                    lemma_take_frame(payload);
                }
                ||| match frame {
                    FrameView::Stream { stream_id: id, offset, data, .. } if id == stream_id => {
                        offset <= o < offset + data.len()
                    },
                    _ => false,
                }
                ||| carries_byte(rest, stream_id, o)
            },
            None => false,
        }
    }
}

/// Whether a payload carries the end of a stream.
pub open spec fn carries_end(payload: Seq<u8>, stream_id: u64) -> bool
    decreases payload.len(),
{
    if payload.len() == 0 {
        false
    } else {
        match take_frame(payload) {
            Some((frame, rest)) => {
                proof {
                    lemma_take_frame(payload);
                }
                ||| match frame {
                    FrameView::Stream { stream_id: id, fin, .. } if id == stream_id => fin,
                    _ => false,
                }
                ||| carries_end(rest, stream_id)
            },
            None => false,
        }
    }
}

impl ConnView {
    /// Whether what the connection holds of a stream, if anything, is part of
    /// `content`, of which the application has read no more than there is and
    /// still wants the rest.
    pub open spec fn follows(self, stream_id: u64, content: Seq<u8>) -> bool {
        &&& !self.streams.collected.contains(stream_id)
        &&& self.streams.live.contains_key(stream_id) ==> {
            let stream = self.streams.live[stream_id];
            &&& agrees(stream, content)
            &&& !stream.drain
            &&& stream.off <= content.len()
            &&& stream.fin_off matches Some(size) ==> size == content.len()
        }
    }

    /// The offset up to which the application has read a stream.
    pub open spec fn read_off(self, stream_id: u64) -> int {
        if self.streams.live.contains_key(stream_id) {
            self.streams.live[stream_id].off as int
        } else {
            0
        }
    }

    /// Whether the byte of a stream at offset `o` is there to be read.
    pub open spec fn has_byte(self, stream_id: u64, o: int) -> bool {
        self.streams.live.contains_key(stream_id) && self.streams.live[stream_id].data.contains_key(
            o,
        )
    }

    /// Whether the end of a stream is known.
    pub open spec fn has_end(self, stream_id: u64) -> bool {
        self.streams.live.contains_key(stream_id) && self.streams.live[stream_id].fin_off is Some
    }

    /// The decrypted payload of a packet that is taken in.
    pub open spec fn payload_of(self, pkt: Seq<u8>) -> Seq<u8> {
        let mc = self.multicast->0;
        opened(pkt, mc.flow.flow_id, mc.open->0, mc.basis())->0.payload
    }

    /// Takes in packets, one after the other.
    pub open spec fn received_all(self, pkts: Seq<Seq<u8>>) -> ConnView
        decreases pkts.len(),
    {
        if pkts.len() == 0 {
            self
        } else {
            self.received_all(pkts.drop_last()).received(pkts.last()).0
        }
    }
}

/// What the frames of one payload add to a stream.
proof fn lemma_payload(conn: ConnView, payload: Seq<u8>, stream_id: u64, content: Seq<u8>)
    requires
        conn.follows(stream_id, content),
        carries(payload, stream_id, content),
        ends_at(payload, stream_id, content.len()),
        conn.delivered(payload).1 is Ok,
    ensures
        ({
            let after = conn.delivered(payload).0;
            &&& after.follows(stream_id, content)
            &&& after.read_off(stream_id) == conn.read_off(stream_id)
            &&& forall|o: int| #[trigger]
                conn.has_byte(stream_id, o) ==> after.has_byte(stream_id, o)
            &&& forall|o: int| #[trigger]
                carries_byte(payload, stream_id, o) && o >= conn.read_off(stream_id)
                    ==> after.has_byte(stream_id, o)
            &&& conn.has_end(stream_id) ==> after.has_end(stream_id)
            &&& carries_end(payload, stream_id) ==> after.has_end(stream_id)
        }),
    decreases payload.len(),
{
    if payload.len() > 0 {
        if let Some((frame, rest)) = take_frame(payload) {
            lemma_take_frame(payload);
            let (mid, r) = conn.frame_delivered(frame);
            assert(r is Ok);
            lemma_frame(conn, frame, stream_id, content);
            lemma_payload(mid, rest, stream_id, content);
            let after = conn.delivered(payload).0;
            assert forall|o: int| #[trigger] conn.has_byte(stream_id, o) implies after.has_byte(
                stream_id,
                o,
            ) by {
                assert(mid.has_byte(stream_id, o));
            }
            assert forall|o: int| #[trigger] carries_byte(payload, stream_id, o) && o
                >= conn.read_off(stream_id) implies after.has_byte(stream_id, o) by {
                if !carries_byte(rest, stream_id, o) {
                    assert(mid.has_byte(stream_id, o));
                }
            }
        }
    }
}

/// What one frame adds to a stream.
proof fn lemma_frame(conn: ConnView, frame: FrameView, stream_id: u64, content: Seq<u8>)
    requires
        conn.follows(stream_id, content),
        conn.frame_delivered(frame).1 is Ok,
        frame matches FrameView::Stream { stream_id: id, offset, data, fin } ==> id == stream_id
            ==> offset + data.len() <= content.len() && data == content.subrange(
            offset as int,
            offset + data.len(),
        ) && (fin ==> offset + data.len() == content.len()),
    ensures
        ({
            let after = conn.frame_delivered(frame).0;
            &&& after.follows(stream_id, content)
            &&& after.read_off(stream_id) == conn.read_off(stream_id)
            &&& forall|o: int| #[trigger]
                conn.has_byte(stream_id, o) ==> after.has_byte(stream_id, o)
            &&& conn.has_end(stream_id) ==> after.has_end(stream_id)
            &&& frame matches FrameView::Stream { stream_id: id, offset, data, fin } ==> id
                == stream_id ==> {
                &&& forall|o: int|
                    offset <= o < offset + data.len() && o >= conn.read_off(stream_id)
                        ==> #[trigger] after.has_byte(stream_id, o)
                &&& fin ==> after.has_end(stream_id)
            }
        }),
{
}

/// What one packet adds to a stream.
proof fn lemma_packet(conn: ConnView, pkt: Seq<u8>, stream_id: u64, content: Seq<u8>)
    requires
        conn.follows(stream_id, content),
        conn.received(pkt).1 is Ok,
        carries(conn.payload_of(pkt), stream_id, content),
        ends_at(conn.payload_of(pkt), stream_id, content.len()),
    ensures
        ({
            let after = conn.received(pkt).0;
            let payload = conn.payload_of(pkt);
            &&& after.follows(stream_id, content)
            &&& after.read_off(stream_id) == conn.read_off(stream_id)
            &&& forall|o: int| #[trigger]
                conn.has_byte(stream_id, o) ==> after.has_byte(stream_id, o)
            &&& forall|o: int| #[trigger]
                carries_byte(payload, stream_id, o) && o >= conn.read_off(stream_id)
                    ==> after.has_byte(stream_id, o)
            &&& conn.has_end(stream_id) ==> after.has_end(stream_id)
            &&& carries_end(payload, stream_id) ==> after.has_end(stream_id)
        }),
{
    let payload = conn.payload_of(pkt);
    lemma_payload(conn, payload, stream_id, content);
    let mid = conn.delivered(payload).0;
    let after = conn.received(pkt).0;
    assert(after.streams == mid.streams);
    assert forall|o: int| #[trigger] after.has_byte(stream_id, o) == mid.has_byte(stream_id, o) by {
    }
}

/// What the first `k` of some packets add to a stream, one after the other.
proof fn lemma_packets(
    conn: ConnView,
    pkts: Seq<Seq<u8>>,
    k: int,
    stream_id: u64,
    content: Seq<u8>,
)
    requires
        0 <= k <= pkts.len(),
        conn.follows(stream_id, content),
        forall|i: int|
            0 <= i < pkts.len() ==> {
                let before = #[trigger] conn.received_all(pkts.take(i));
                &&& before.received(pkts[i]).1 is Ok
                &&& carries(before.payload_of(pkts[i]), stream_id, content)
                &&& ends_at(before.payload_of(pkts[i]), stream_id, content.len())
            },
    ensures
        ({
            let after = conn.received_all(pkts.take(k));
            &&& after.follows(stream_id, content)
            &&& after.read_off(stream_id) == conn.read_off(stream_id)
            &&& forall|o: int| #[trigger]
                conn.has_byte(stream_id, o) ==> after.has_byte(stream_id, o)
            &&& forall|i: int, o: int|
                0 <= i < k && #[trigger] carries_byte(
                    conn.received_all(pkts.take(i)).payload_of(pkts[i]),
                    stream_id,
                    o,
                ) && o >= conn.read_off(stream_id) ==> after.has_byte(stream_id, o)
            &&& conn.has_end(stream_id) ==> after.has_end(stream_id)
            &&& forall|i: int|
                0 <= i < k && #[trigger] carries_end(
                    conn.received_all(pkts.take(i)).payload_of(pkts[i]),
                    stream_id,
                ) ==> after.has_end(stream_id)
        }),
    decreases k,
{
    if k > 0 {
        let last = k - 1;
        lemma_packets(conn, pkts, last, stream_id, content);
        let before = conn.received_all(pkts.take(last));
        lemma_packet(before, pkts[last], stream_id, content);
        assert(pkts.take(k).drop_last() =~= pkts.take(last));
        assert(pkts.take(k).last() == pkts[last]);
    }
}

/// A stream that spans several packets is delivered whole, in whatever order
/// they arrive and however often: once packets that together carry all of
/// `content`, and its end, have been taken in, the receiver can read all of it
/// that it has not read yet, and sees the end.
pub proof fn law_flow_reassembly(
    conn: ConnView,
    pkts: Seq<Seq<u8>>,
    stream_id: u64,
    content: Seq<u8>,
)
    requires
        conn.follows(stream_id, content),
        // Each packet is taken in, and carries parts of the stream.
        forall|i: int|
            0 <= i < pkts.len() ==> {
                let before = #[trigger] conn.received_all(pkts.take(i));
                &&& before.received(pkts[i]).1 is Ok
                &&& carries(before.payload_of(pkts[i]), stream_id, content)
                &&& ends_at(before.payload_of(pkts[i]), stream_id, content.len())
            },
        // Each byte that was not read and is not there yet is in some packet.
        forall|o: int|
            conn.read_off(stream_id) <= o < content.len() ==> #[trigger] conn.has_byte(stream_id, o)
                || exists|i: int|
                0 <= i < pkts.len() && #[trigger] carries_byte(
                    conn.received_all(pkts.take(i)).payload_of(pkts[i]),
                    stream_id,
                    o,
                ),
        // So is the end.
        conn.has_end(stream_id) || exists|i: int|
            0 <= i < pkts.len() && #[trigger] carries_end(
                conn.received_all(pkts.take(i)).payload_of(pkts[i]),
                stream_id,
            ),
    ensures
        ({
            let after = conn.received_all(pkts);
            let stream = after.streams.live[stream_id];
            &&& after.streams.live.contains_key(stream_id)
            &&& stream.off == conn.read_off(stream_id)
            &&& stream.next_bytes() == content.skip(stream.off as int)
            &&& stream.ends_next()
            &&& !stream.fin_read ==> after.streams.readable(stream_id)
        }),
{
    lemma_packets(conn, pkts, pkts.len() as int, stream_id, content);
    assert(pkts.take(pkts.len() as int) =~= pkts);
    let after = conn.received_all(pkts);
    assert(after.has_end(stream_id));
    let stream = after.streams.live[stream_id];
    let n = (content.len() - stream.off) as nat;
    assert forall|o: int| stream.off <= o < stream.off + n implies #[trigger] stream.data.contains_key(
        o,
    ) by {
        if !conn.has_byte(stream_id, o) {
            let i = choose|i: int|
                0 <= i < pkts.len() && #[trigger] carries_byte(
                    conn.received_all(pkts.take(i)).payload_of(pkts[i]),
                    stream_id,
                    o,
                );
            assert(after.has_byte(stream_id, o));
        } else {
            assert(after.has_byte(stream_id, o));
        }
    }
    assert(stream.has_next(n));
    lemma_next_len(stream, n);
    assert forall|i: int| 0 <= i < n implies #[trigger] stream.data[stream.off + i]
        == content[stream.off + i] by {
        assert(stream.data.contains_key(stream.off + i));
    }
    assert(stream.next_bytes() =~= content.skip(stream.off as int));
    if !stream.fin_read && n > 0 {
        assert(stream.data.contains_key(stream.off as int));
    }
}

} // verus!
