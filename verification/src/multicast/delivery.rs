//! What packets of a flow do to the connection of a receiver.

use crate::connection::{ConnView, FlowControl};
use crate::crypto::TAG_LEN;
use crate::dgram::law_added;
use crate::error::Error;
use crate::frame::{is_known, lemma_take_frame, take_frame, take_varint, FrameView};
use crate::multicast::aggregator::pruned;
use crate::multicast::error::McError;
use crate::multicast::McView;
use crate::packet::{
    buffer_after, decoded_pkt_num, opened, pn_window, Opened, MAX_PKT_NUM_BASIS, MAX_PKT_NUM_LEN,
};
use crate::stream::{agrees, law_parts_accepted, lemma_next_len};
use vstd::prelude::*;

verus! {

impl ConnView {
    /// Delivers a chunk of stream data. An error may come behind the creation
    /// of the stream.
    pub open spec fn stream_delivered(
        self,
        stream_id: u64,
        off: u64,
        data: Seq<u8>,
        fin: bool,
    ) -> (ConnView, Result<(), Error>) {
        match self.streams.refusal(stream_id) {
            // The stream has already been closed and collected.
            Some(Error::Done) => (self, Ok(())),
            Some(e) => (self, Err(e)),
            None => {
                let created = ConnView { streams: self.streams.with(stream_id), ..self };
                let stream = created.streams.live[stream_id];
                let end = off + data.len();
                let delta = if end > stream.len {
                    end - stream.len
                } else {
                    0
                };
                if delta > self.flow_control.max_data - self.rx_data {
                    (created, Err(Error::FlowControl))
                } else {
                    match stream.refusal(off, data, fin) {
                        Some(e) => (created, Err(e)),
                        None => (
                            ConnView {
                                streams: created.streams.update(
                                    stream_id,
                                    stream.written(off, data, fin),
                                ),
                                rx_data: (self.rx_data + delta) as u64,
                                flow_control: if stream.drain {
                                    FlowControl {
                                        consumed: (self.flow_control.consumed + delta) as u64,
                                        ..self.flow_control
                                    }
                                } else {
                                    self.flow_control
                                },
                                ..self
                            },
                            Ok(()),
                        ),
                    }
                }
            },
        }
    }

    /// Delivers a datagram. The oldest one makes room where there is none.
    pub open spec fn dgram_delivered(self, data: Seq<u8>) -> (ConnView, Result<(), Error>) {
        if self.dgrams.max_len == 0 {
            (self, Err(Error::Done))
        } else {
            (
                ConnView {
                    dgrams: self.dgrams.with_room().push(data),
                    dgram_count: if self.dgram_count == usize::MAX {
                        usize::MAX
                    } else {
                        (self.dgram_count + 1) as usize
                    },
                    ..self
                },
                Ok(()),
            )
        }
    }

    /// Delivers a frame. Frames that carry no application data are ignored.
    pub open spec fn frame_delivered(self, frame: FrameView) -> (ConnView, Result<(), Error>) {
        match frame {
            FrameView::Datagram { data } => self.dgram_delivered(data),
            FrameView::Stream { stream_id, offset, data, fin } => self.stream_delivered(
                stream_id,
                offset,
                data,
                fin,
            ),
            _ => (self, Ok(())),
        }
    }

    /// Delivers the frames of a payload, one after the other, up to the first
    /// that does not parse or is refused.
    pub open spec fn delivered(self, payload: Seq<u8>) -> (ConnView, Result<(), Error>)
        decreases payload.len(),
    {
        if payload.len() == 0 {
            (self, Ok(()))
        } else {
            match take_frame(payload) {
                Some((frame, rest)) => {
                    proof {
                        lemma_take_frame(payload);
                    }
                    let (after, r) = self.frame_delivered(frame);
                    if r is Ok {
                        after.delivered(rest)
                    } else {
                        (after, r)
                    }
                },
                None => (self, Err(Error::Multicast(McError::McFlow))),
            }
        }
    }

    /// Takes in the decrypted payload of a packet of the flow. Its number is
    /// noted, to be acknowledged, once all of its frames are delivered.
    pub open spec fn processed(self, pn: u64, payload: Seq<u8>) -> (ConnView, Result<(), Error>) {
        let (after, r) = self.delivered(payload);
        match r {
            Ok(()) => (
                ConnView {
                    multicast: match self.multicast {
                        Some(mc) => Some(mc.after_packet(pn)),
                        None => None,
                    },
                    ..after
                },
                Ok(()),
            ),
            Err(e) => (after, Err(e)),
        }
    }

    /// Takes in a packet of the flow, if it is one.
    pub open spec fn received(self, pkt: Seq<u8>) -> (ConnView, Result<usize, Error>) {
        let refused = (self, Err(Error::Multicast(McError::McFlow)));
        match self.multicast {
            Some(mc) => match mc.open {
                Some(keys) => match opened(pkt, mc.flow.flow_id, keys, mc.basis()) {
                    Some(o) => match self.processed(o.pn, o.payload) {
                        (after, Ok(())) => (after, Ok((pkt.len() - TAG_LEN) as usize)),
                        (after, Err(e)) => (after, Err(e)),
                    },
                    None => refused,
                },
                None => refused,
            },
            None => refused,
        }
    }

    /// What taking in a packet leaves in its buffer.
    pub open spec fn buffer_received(self, pkt: Seq<u8>) -> Seq<u8> {
        match self.multicast {
            Some(mc) => match mc.open {
                Some(keys) => buffer_after(pkt, mc.flow.flow_id, keys, mc.basis()),
                None => pkt,
            },
            None => pkt,
        }
    }

    /// Whether the server should send `MC_FLOW`.
    pub open spec fn should_send_flow(self) -> bool {
        &&& self.is_server
        &&& self.multicast matches Some(mc)
        &&& !mc.flow_sent
    }

    /// Whether the client should send `MC_ACK`.
    pub open spec fn should_send_ack(self) -> bool {
        &&& !self.is_server
        &&& self.multicast matches Some(mc)
        &&& mc.ack_pending
    }

    /// Whether the basis for packet numbers leaves room to reconstruct the next
    /// one, where packets of a flow can be decrypted.
    pub open spec fn basis_in_range(self) -> bool {
        self.multicast matches Some(mc) ==> mc.open is Some ==> mc.basis() <= MAX_PKT_NUM_BASIS
    }

    /// The largest flow packet number that the sender has resolved, if there is
    /// one. While loss recovery tracks packets, it is the one before the oldest
    /// of them; once it tracks none, it is the last one sent. Nothing is resolved
    /// where that is before the first packet of the flow.
    pub open spec fn resolved_pn(self) -> Option<u64> {
        match self.active_path {
            Some(path) => match (path.oldest_sent_pkt_num, self.multicast) {
                (Some(oldest), Some(mc)) if oldest > mc.flow.first_pn => Some((oldest - 1) as u64),
                (Some(oldest), None) if oldest > 0 => Some((oldest - 1) as u64),
                (None, Some(mc)) if path.next_pkt_num > mc.flow.first_pn => Some(
                    (path.next_pkt_num - 1) as u64,
                ),
                _ => None,
            },
            None => None,
        }
    }
}

/// Whatever is delivered on a flow, what the connection knows of the flow, and
/// what it was set up with, stays as it is.
pub proof fn law_delivery_keeps_flow(conn: ConnView, payload: Seq<u8>)
    ensures
        ({
            let after = conn.delivered(payload).0;
            &&& after.multicast == conn.multicast
            &&& after.is_server == conn.is_server
            &&& after.peer_multicast_support == conn.peer_multicast_support
            &&& after.active_path == conn.active_path
            &&& after.skip_pn == conn.skip_pn
            &&& after.handshake_status == conn.handshake_status
            &&& after.flow_control.max_data == conn.flow_control.max_data
            &&& after.streams.limits == conn.streams.limits
            &&& after.dgrams.max_len == conn.dgrams.max_len
        }),
    decreases payload.len(),
{
    if payload.len() > 0 {
        if let Some((frame, rest)) = take_frame(payload) {
            lemma_take_frame(payload);
            let (after, r) = conn.frame_delivered(frame);
            if r is Ok {
                law_delivery_keeps_flow(after, rest);
            }
        }
    }
}

/// What a packet of the flow changes of the flow's own state: the flow stays
/// what it is, the largest packet number never goes back, and the packet's
/// number is reported from then on. A packet that is refused, or whose frames
/// are, changes nothing of it.
pub proof fn law_reception(conn: ConnView, pkt: Seq<u8>)
    requires
        conn.multicast is Some,
    ensures
        ({
            let (after, r) = conn.received(pkt);
            let mc = conn.multicast->0;
            &&& after.multicast is Some
            &&& match r {
                Ok(read) => {
                    let now = after.multicast->0;
                    let pn = opened(pkt, mc.flow.flow_id, mc.open->0, mc.basis())->0.pn;
                    &&& opened(pkt, mc.flow.flow_id, mc.open->0, mc.basis()) is Some
                    &&& now.flow == mc.flow
                    &&& now.open == mc.open
                    &&& now.largest_pn matches Some(largest) && largest >= pn
                    &&& match mc.largest_pn {
                        Some(largest) => now.largest_pn == Some(pn) || now.largest_pn == Some(
                            largest,
                        ),
                        None => now.largest_pn == Some(pn),
                    }
                    &&& mc.largest_pn matches Some(largest) ==> now.largest_pn->0 >= largest
                    &&& now.recv_pns == mc.recv_pns.insert(pn)
                    &&& now.ack_pending
                    &&& now.flow_sent == mc.flow_sent
                    &&& now.acked_pns == mc.acked_pns
                },
                Err(_) => after.multicast == conn.multicast,
            }
        }),
{
    let mc = conn.multicast->0;
    if let Some(keys) = mc.open {
        if let Some(o) = opened(pkt, mc.flow.flow_id, keys, mc.basis()) {
            law_delivery_keeps_flow(conn, o.payload);
        }
    }
}

/// Before any packet is decrypted, `First Packet Number` is the number that is
/// expected next: it is what a truncated number is reconstructed around.
pub proof fn law_first_expected(mc: McView, truncated: int, n: nat)
    requires
        mc.largest_pn is None,
        1 <= n <= MAX_PKT_NUM_LEN,
        0 <= truncated < pn_window(n),
    ensures
        decoded_pkt_num(mc.basis(), truncated, n) == decoded_pkt_num(
            mc.flow.first_pn - 1,
            truncated,
            n,
        ),
{
}

/// A packet that is not of the flow, or does not decrypt, changes nothing at
/// all.
pub proof fn law_foreign_packet(conn: ConnView, pkt: Seq<u8>)
    requires
        match conn.multicast {
            Some(mc) => match mc.open {
                Some(keys) => opened(pkt, mc.flow.flow_id, keys, mc.basis()) is None,
                None => true,
            },
            None => true,
        },
    ensures
        conn.received(pkt) == (conn, Err::<usize, Error>(Error::Multicast(McError::McFlow))),
{
}

/// Frames that carry no application data change nothing, not even an `MC_FLOW`
/// frame: flows are advertised on the unicast connection alone.
pub proof fn law_other_frames_ignored(conn: ConnView, frame: FrameView)
    requires
        !(frame is Datagram),
        !(frame is Stream),
    ensures
        conn.frame_delivered(frame) == (conn, Ok::<(), Error>(())),
{
}

/// A frame of an unknown type is no error, and changes nothing: it is ignored,
/// with all that follows it in the packet.
pub proof fn law_unknown_frames_ignored(conn: ConnView, payload: Seq<u8>)
    requires
        take_varint(payload) matches Some((ty, _)) && !is_known(ty),
    ensures
        conn.delivered(payload) == (conn, Ok::<(), Error>(())),
{
    reveal_with_fuel(ConnView::delivered, 2);
}

/// Stream data that is delivered can be read: each byte of it that the
/// application has not read yet is there, next to all that was there before,
/// and what was there before does not change.
pub proof fn law_stream_readable(
    conn: ConnView,
    stream_id: u64,
    off: u64,
    data: Seq<u8>,
    fin: bool,
    o: int,
)
    requires
        conn.streams.refusal(stream_id) is None,
        conn.stream_delivered(stream_id, off, data, fin).1 is Ok,
        !conn.streams.with(stream_id).live[stream_id].drain,
    ensures
        ({
            let before = conn.streams.with(stream_id).live[stream_id];
            let after = conn.stream_delivered(stream_id, off, data, fin).0.streams.live[stream_id];
            &&& after.off == before.off
            &&& before.off <= o && off <= o < off + data.len() ==> after.data.contains_key(o) && (
            before.data.contains_key(o) || after.data[o] == data[o - off])
            &&& before.data.contains_key(o) ==> after.data.contains_key(o) && after.data[o]
                == before.data[o]
            &&& fin ==> after.fin_off == Some((off + data.len()) as u64)
        }),
{
}

/// Whether all that a payload carries for a stream is part of `content`, each
/// part at its offset.
pub open spec fn carries(payload: Seq<u8>, stream_id: u64, content: Seq<u8>) -> bool
    decreases payload.len(),
{
    if payload.len() == 0 {
        true
    } else {
        match take_frame(payload) {
            Some((frame, rest)) => {
                proof {
                    lemma_take_frame(payload);
                }
                &&& match frame {
                    FrameView::Stream { stream_id: id, offset, data, .. } if id == stream_id => {
                        &&& offset + data.len() <= content.len()
                        &&& data == content.subrange(offset as int, offset + data.len())
                    },
                    _ => true,
                }
                &&& carries(rest, stream_id, content)
            },
            None => true,
        }
    }
}

/// Whatever packets arrive, and in whatever order: as long as they carry parts
/// of what the sender sent on a stream, what a receiver holds of the stream is
/// what was sent.
pub proof fn law_flow_content(
    conn: ConnView,
    payload: Seq<u8>,
    stream_id: u64,
    content: Seq<u8>,
)
    requires
        carries(payload, stream_id, content),
        conn.streams.live.contains_key(stream_id) ==> agrees(
            conn.streams.live[stream_id],
            content,
        ),
    ensures
        ({
            let streams = conn.delivered(payload).0.streams;
            streams.live.contains_key(stream_id) ==> agrees(streams.live[stream_id], content)
        }),
    decreases payload.len(),
{
    if payload.len() > 0 {
        if let Some((frame, rest)) = take_frame(payload) {
            lemma_take_frame(payload);
            let (after, r) = conn.frame_delivered(frame);
            if r is Ok {
                law_flow_content(after, rest, stream_id, content);
            }
        }
    }
}

/// A stream that fits in one packet is delivered whole: the receiver can read
/// all that was sent, and sees the end of it.
pub proof fn law_flow_delivers_stream(
    conn: ConnView,
    pkt: Seq<u8>,
    o: Opened,
    stream_id: u64,
    data: Seq<u8>,
)
    requires
        conn.multicast matches Some(mc) && mc.open matches Some(keys) && opened(
            pkt,
            mc.flow.flow_id,
            keys,
            mc.basis(),
        ) == Some(o),
        take_frame(o.payload) == Some(
            (FrameView::Stream { stream_id, offset: 0, data, fin: true }, Seq::<u8>::empty()),
        ),
        o.payload.len() > 0,
        // The stream is a new one that the sender may open, and the data is
        // within the limits.
        !conn.streams.live.contains_key(stream_id),
        conn.streams.refusal(stream_id) is None,
        data.len() <= conn.streams.with(stream_id).live[stream_id].max_data,
        conn.rx_data + data.len() <= conn.flow_control.max_data,
    ensures
        ({
            let (after, r) = conn.received(pkt);
            let stream = after.streams.live[stream_id];
            &&& r is Ok
            &&& after.streams.readable(stream_id)
            &&& stream.off == 0
            &&& stream.next_bytes() == data
            &&& stream.ends_next()
        }),
{
    reveal_with_fuel(ConnView::delivered, 3);
    let after = conn.received(pkt).0;
    let stream = after.streams.live[stream_id];
    assert forall|i: int| 0 <= i < data.len() implies #[trigger] stream.data.contains_key(i)
        && stream.data[i] == data[i] by {}
    assert(stream.has_next(data.len()));
    lemma_next_len(stream, data.len());
    assert(stream.next_bytes() =~= data);
}

/// A datagram is delivered behind those that are queued.
pub proof fn law_flow_delivers_dgram(conn: ConnView, pkt: Seq<u8>, o: Opened, data: Seq<u8>)
    requires
        conn.multicast matches Some(mc) && mc.open matches Some(keys) && opened(
            pkt,
            mc.flow.flow_id,
            keys,
            mc.basis(),
        ) == Some(o),
        take_frame(o.payload) == Some((FrameView::Datagram { data }, Seq::<u8>::empty())),
        o.payload.len() > 0,
        conn.dgrams.max_len > 0,
    ensures
        conn.received(pkt).1 is Ok,
        conn.received(pkt).0.dgrams == conn.dgrams.with_room().push(data),
{
    reveal_with_fuel(ConnView::delivered, 3);
}

/// No packet that loss recovery still tracks counts as resolved, and every packet
/// of the flow before those does: where packets are tracked, the largest resolved
/// one is right before the oldest of them, and there is one exactly where that is
/// not before the first packet of the flow.
pub proof fn law_resolved_before_tracked(conn: ConnView, oldest: u64)
    requires
        conn.active_path matches Some(path) && path.oldest_sent_pkt_num == Some(oldest),
    ensures
        conn.resolved_pn() matches Some(pn) ==> pn < oldest && pn + 1 == oldest,
        conn.multicast matches Some(mc) ==> (conn.resolved_pn() is Some <==> mc.flow.first_pn
            < oldest),
        conn.multicast is None ==> (conn.resolved_pn() is Some <==> 0 < oldest),
{
}

/// Once no packet is tracked, every packet of the flow that was sent counts as
/// resolved, and no other.
pub proof fn law_resolved_all(conn: ConnView, next: u64)
    requires
        conn.active_path matches Some(path) && path.oldest_sent_pkt_num is None
            && path.next_pkt_num == next,
    ensures
        conn.resolved_pn() matches Some(pn) ==> pn + 1 == next,
        conn.multicast matches Some(mc) ==> (conn.resolved_pn() is Some <==> mc.flow.first_pn
            < next),
        conn.multicast is None ==> conn.resolved_pn() is None,
{
}

/// Nothing counts as resolved without a path.
pub proof fn law_resolved_needs_path(conn: ConnView)
    requires
        conn.active_path is None,
    ensures
        conn.resolved_pn() is None,
{
}

/// Pruning up to what is resolved takes from no receiver a packet that loss
/// recovery still tracks.
pub proof fn law_prune_resolved(
    conn: ConnView,
    receivers: Map<u64, Set<u64>>,
    oldest: u64,
    id: u64,
    needed: u64,
)
    requires
        conn.active_path matches Some(path) && path.oldest_sent_pkt_num == Some(oldest),
        oldest <= needed,
        receivers.contains_key(id),
    ensures
        conn.resolved_pn() matches Some(pn) ==> pruned(receivers, pn).contains_key(id) && (pruned(
            receivers,
            pn,
        )[id].contains(needed) <==> receivers[id].contains(needed)),
{
}

/// What stream data does to the connection, where the stream is not refused. The
/// bytes beyond the largest offset so far count against the limit of the
/// connection. Data over that limit, or that the stream refuses, only opens the
/// stream; other data goes to the stream, and is counted, on a stream that was
/// given up as disposed of too.
pub proof fn law_stream_data(conn: ConnView, stream_id: u64, off: u64, data: Seq<u8>, fin: bool)
    requires
        conn.streams.refusal(stream_id) is None,
        conn.rx_data <= conn.flow_control.max_data,
        conn.flow_control.consumed <= conn.rx_data,
    ensures
        ({
            let (after, r) = conn.stream_delivered(stream_id, off, data, fin);
            let opened = conn.streams.with(stream_id);
            let stream = opened.live[stream_id];
            let end = off + data.len();
            let over = end > stream.len && conn.rx_data + (end - stream.len)
                > conn.flow_control.max_data;
            let refusal = stream.refusal(off, data, fin);
            &&& r is Ok <==> !over && refusal is None
            &&& over ==> r == Err::<(), Error>(Error::FlowControl)
            &&& !over && refusal is Some ==> r == Err::<(), Error>(refusal->0)
            &&& r is Err ==> after == (ConnView { streams: opened, ..conn })
            &&& r is Ok ==> {
                let counted = after.rx_data - conn.rx_data;
                &&& after.streams == opened.update(stream_id, stream.written(off, data, fin))
                &&& counted >= 0 && stream.len + counted >= end
                &&& counted == 0 || stream.len + counted == end
                &&& after.flow_control.max_data == conn.flow_control.max_data
                &&& after.flow_control.consumed == conn.flow_control.consumed + (if stream.drain {
                    counted
                } else {
                    0
                })
                &&& after == (ConnView {
                    streams: after.streams,
                    rx_data: after.rx_data,
                    flow_control: after.flow_control,
                    ..conn
                })
            }
        }),
{
}

/// Stream data on a refused stream changes nothing: it is ignored where the
/// stream is over, and an error otherwise.
pub proof fn law_stream_data_refused(
    conn: ConnView,
    stream_id: u64,
    off: u64,
    data: Seq<u8>,
    fin: bool,
)
    requires
        conn.streams.refusal(stream_id) is Some,
    ensures
        ({
            let (after, r) = conn.stream_delivered(stream_id, off, data, fin);
            let reason = conn.streams.refusal(stream_id)->0;
            &&& after == conn
            &&& reason == Error::Done ==> r is Ok
            &&& reason != Error::Done ==> r == Err::<(), Error>(reason)
        }),
{
}

/// No part of what a sender sends on a stream is refused, within the limits,
/// whatever parts of it were received and whatever prefix of it was read before:
/// a part that is sent again is taken in like any other.
pub proof fn law_parts_delivered(
    conn: ConnView,
    stream_id: u64,
    content: Seq<u8>,
    off: u64,
    end: u64,
    fin: bool,
)
    requires
        // The stream is there, and what was received of it is part of the content.
        conn.streams.live.contains_key(stream_id),
        conn.streams.live[stream_id].len <= content.len(),
        conn.streams.live[stream_id].fin_off matches Some(size) ==> size == content.len(),
        // So is the chunk, which ends the stream only where the content ends.
        off <= end <= content.len(),
        fin ==> end == content.len(),
        // The limits of the stream and of the connection.
        end <= conn.streams.live[stream_id].max_data,
        conn.rx_data <= conn.flow_control.max_data,
        end > conn.streams.live[stream_id].len ==> conn.rx_data + end
            - conn.streams.live[stream_id].len <= conn.flow_control.max_data,
    ensures
        conn.frame_delivered(
            FrameView::Stream {
                stream_id,
                offset: off,
                data: content.subrange(off as int, end as int),
                fin,
            },
        ).1 is Ok,
{
    law_parts_accepted(conn.streams.live[stream_id], content, off, end, fin);
}

/// What a datagram does to the connection: it is the newest one in the queue, the
/// oldest one makes room where there is none, and it is counted. Without a queue
/// it is refused.
pub proof fn law_dgram_data(conn: ConnView, data: Seq<u8>)
    requires
        conn.dgrams.queue.len() <= conn.dgrams.max_len,
    ensures
        ({
            let (after, r) = conn.frame_delivered(FrameView::Datagram { data });
            &&& r is Ok <==> conn.dgrams.max_len > 0
            &&& r is Err ==> r == Err::<(), Error>(Error::Done) && after == conn
            &&& r is Ok ==> {
                &&& after.dgrams.queue.last() == data
                &&& after.dgrams.max_len == conn.dgrams.max_len
                &&& after.dgrams.queue.drop_last() == (if conn.dgrams.queue.len()
                    == conn.dgrams.max_len {
                    conn.dgrams.queue.drop_first()
                } else {
                    conn.dgrams.queue
                })
                &&& after.dgram_count == conn.dgram_count + 1 || (conn.dgram_count == usize::MAX
                    && after.dgram_count == usize::MAX)
                &&& after == (ConnView {
                    dgrams: after.dgrams,
                    dgram_count: after.dgram_count,
                    ..conn
                })
            }
        }),
{
    if conn.dgrams.max_len > 0 {
        law_added(conn.dgrams, data);
    }
}

/// The frames of a payload are delivered one after the other. All of them are,
/// however many there are, unless one does not parse or is refused: that one ends
/// the delivery, and what came before it stays delivered.
pub proof fn law_frame_by_frame(conn: ConnView, payload: Seq<u8>)
    ensures
        payload.len() == 0 ==> conn.delivered(payload) == (conn, Ok::<(), Error>(())),
        payload.len() > 0 && take_frame(payload) is None ==> conn.delivered(payload) == (
            conn,
            Err::<(), Error>(Error::Multicast(McError::McFlow)),
        ),
        payload.len() > 0 ==> (take_frame(payload) matches Some((frame, rest))
            ==> match conn.frame_delivered(frame) {
            (after, Ok(())) => conn.delivered(payload) == after.delivered(rest),
            (after, Err(e)) => conn.delivered(payload) == (after, Err::<(), Error>(e)),
        }),
{
}

/// The datagrams that a payload carries, in order.
pub open spec fn dgrams_in(payload: Seq<u8>) -> Seq<Seq<u8>>
    decreases payload.len(),
{
    if payload.len() == 0 {
        Seq::empty()
    } else {
        match take_frame(payload) {
            Some((frame, rest)) => {
                proof {
                    lemma_take_frame(payload);
                }
                match frame {
                    FrameView::Datagram { data } => seq![data] + dgrams_in(rest),
                    _ => dgrams_in(rest),
                }
            },
            None => Seq::empty(),
        }
    }
}

/// All datagrams of a payload are queued, in their order, behind those that were
/// queued before. Where there are too many for the queue, the newest are kept.
pub proof fn law_all_dgrams_queued(conn: ConnView, payload: Seq<u8>)
    requires
        conn.delivered(payload).1 is Ok,
        0 < conn.dgrams.max_len,
        conn.dgrams.queue.len() <= conn.dgrams.max_len,
    ensures
        ({
            let all = conn.dgrams.queue + dgrams_in(payload);
            let after = conn.delivered(payload).0.dgrams;
            &&& all.len() <= conn.dgrams.max_len ==> after.queue == all
            &&& all.len() > conn.dgrams.max_len ==> after.queue == all.skip(
                all.len() - conn.dgrams.max_len,
            )
        }),
    decreases payload.len(),
{
    let all = conn.dgrams.queue + dgrams_in(payload);
    if payload.len() > 0 {
        if let Some((frame, rest)) = take_frame(payload) {
            lemma_take_frame(payload);
            let mid = conn.frame_delivered(frame).0;
            if let FrameView::Datagram { data } = frame {
                law_dgram_data(conn, data);
                law_all_dgrams_queued(mid, rest);
                let kept = mid.dgrams.queue.drop_last();
                assert(mid.dgrams.queue =~= kept.push(data));
                let all_mid = mid.dgrams.queue + dgrams_in(rest);
                if conn.dgrams.queue.len() == conn.dgrams.max_len {
                    assert(all_mid =~= all.skip(1));
                    if all_mid.len() > conn.dgrams.max_len {
                        assert(all_mid.skip(all_mid.len() - conn.dgrams.max_len) =~= all.skip(
                            all.len() - conn.dgrams.max_len,
                        ));
                    }
                } else {
                    assert(all_mid =~= all);
                }
            } else {
                law_all_dgrams_queued(mid, rest);
            }
        }
    } else {
        assert(all =~= conn.dgrams.queue);
    }
}

/// A packet that is opened is taken in exactly where all of its frames are
/// delivered. The result is its length without the tag; what its frames did is
/// done either way.
pub proof fn law_packet_taken(conn: ConnView, pkt: Seq<u8>, o: Opened)
    requires
        conn.multicast matches Some(mc) && mc.open matches Some(keys) && opened(
            pkt,
            mc.flow.flow_id,
            keys,
            mc.basis(),
        ) == Some(o),
        16 <= pkt.len() <= usize::MAX,
    ensures
        ({
            let (after, r) = conn.received(pkt);
            let (by_frames, result) = conn.delivered(o.payload);
            &&& result is Ok ==> r is Ok && r->Ok_0 + 16 == pkt.len()
            &&& result matches Err(e) ==> r == Err::<usize, Error>(e) && after == by_frames
            &&& after == (ConnView { multicast: after.multicast, ..by_frames })
        }),
{
}

/// A decrypted payload is taken in exactly where all of its frames are delivered,
/// whatever the number of its packet is. The number is noted then, and only then,
/// and nothing else is changed but by the frames.
pub proof fn law_payload_taken(conn: ConnView, pn: u64, payload: Seq<u8>)
    ensures
        ({
            let (after, r) = conn.processed(pn, payload);
            let (by_frames, result) = conn.delivered(payload);
            &&& r is Ok <==> result is Ok
            &&& result matches Err(e) ==> r == Err::<(), Error>(e) && after == by_frames
            &&& result is Ok ==> after == (ConnView { multicast: after.multicast, ..by_frames })
            &&& result is Ok && conn.multicast is None ==> after.multicast is None
            &&& result is Ok && conn.multicast is Some ==> {
                let before = conn.multicast->0;
                let now = after.multicast->0;
                &&& after.multicast is Some
                &&& now.ack_pending
                &&& forall|n: u64| #[trigger]
                    now.recv_pns.contains(n) <==> before.recv_pns.contains(n) || n == pn
                &&& now.largest_pn is Some && now.largest_pn->0 >= pn
                &&& now.largest_pn == Some(pn) || now.largest_pn == before.largest_pn
                &&& before.largest_pn matches Some(largest) ==> now.largest_pn->0 >= largest
            }
        }),
{
}

/// What taking in a packet leaves in its buffer is what opening it does, and all
/// of the packet where the flow has no keys.
pub proof fn law_buffer_received(conn: ConnView, pkt: Seq<u8>)
    ensures
        conn.multicast is None ==> conn.buffer_received(pkt) == pkt,
        conn.multicast matches Some(mc) ==> match mc.open {
            Some(keys) => conn.buffer_received(pkt) == buffer_after(
                pkt,
                mc.flow.flow_id,
                keys,
                mc.basis(),
            ),
            None => conn.buffer_received(pkt) == pkt,
        },
{
}

/// Packets can be taken in whatever the packet numbers are, up to where
/// reconstructing the next one could overflow 64 bits.
pub proof fn law_basis_range(conn: ConnView)
    ensures
        conn.multicast matches Some(mc) && mc.basis() <= u64::MAX - 0x1_0000_0000 - 1
            ==> conn.basis_in_range(),
        conn.multicast matches Some(mc) && mc.open is None ==> conn.basis_in_range(),
        conn.multicast is None ==> conn.basis_in_range(),
{
}

} // verus!
