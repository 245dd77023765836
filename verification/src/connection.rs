//! A QUIC connection, as far as the multicast extension works on it.

use crate::dgram::{DatagramQueue, DgramView};
use crate::error::Error;
use crate::multicast::{McView, MulticastData};
use crate::stream::law_next_gap;
use crate::streams::{
    is_bidi, lemma_outstanding_insert, outstanding, StreamLimits, StreamMap, StreamsView,
};
use vstd::prelude::*;

verus! {

/// The path that packets are sent on, as far as loss recovery on it concerns
/// the flow.
#[derive(Clone, Copy, Debug, PartialEq, Eq, Structural)]
pub struct ActivePath {
    /// The oldest packet, in the Application packet number space, that loss
    /// recovery still tracks.
    pub oldest_sent_pkt_num: Option<u64>,
    /// The number of the next packet that is sent in that space.
    pub next_pkt_num: u64,
}

/// How far the handshake has come, as loss recovery needs to know it.
#[derive(Clone, Copy, Debug, PartialEq, Eq, Structural)]
pub struct HandshakeStatus {
    /// Whether there are keys for the Handshake packet number space.
    pub has_handshake_keys: bool,
    /// Whether the peer has validated this side's address.
    pub peer_verified_address: bool,
    /// Whether the handshake has completed.
    pub completed: bool,
}

/// Connection-level flow control of received data.
#[derive(Clone, Copy, Debug, PartialEq, Eq, Structural)]
pub struct FlowControl {
    /// The number of bytes that the peer may send.
    pub max_data: u64,
    /// The number of bytes that the application has disposed of.
    pub consumed: u64,
}

/// A QUIC connection.
pub struct Connection {
    pub(crate) is_server: bool,
    /// Whether the peer advertised the `multicast_support` transport parameter.
    pub(crate) peer_multicast_support: bool,
    pub(crate) multicast: Option<MulticastData>,
    pub(crate) dgram_recv_queue: DatagramQueue,
    /// The number of datagrams received.
    pub(crate) dgram_recv_count: usize,
    /// The number of stream bytes received.
    pub(crate) rx_data: u64,
    pub(crate) flow_control: FlowControl,
    pub(crate) streams: StreamMap,
    pub(crate) active_path: Option<ActivePath>,
    /// The packet number that was skipped on purpose, if one was.
    pub(crate) skip_pn: Option<u64>,
    pub(crate) handshake_status: HandshakeStatus,
}

/// The state of a connection.
#[verifier::ext_equal]
pub struct ConnView {
    pub is_server: bool,
    pub peer_multicast_support: bool,
    pub multicast: Option<McView>,
    pub dgrams: DgramView,
    pub dgram_count: usize,
    pub rx_data: u64,
    pub flow_control: FlowControl,
    pub streams: StreamsView,
    pub active_path: Option<ActivePath>,
    pub skip_pn: Option<u64>,
    pub handshake_status: HandshakeStatus,
}

impl View for Connection {
    type V = ConnView;

    open(crate) spec fn view(&self) -> ConnView {
        ConnView {
            is_server: self.is_server,
            peer_multicast_support: self.peer_multicast_support,
            multicast: match self.multicast {
                Some(mc) => Some(mc@),
                None => None,
            },
            dgrams: self.dgram_recv_queue@,
            dgram_count: self.dgram_recv_count,
            rx_data: self.rx_data,
            flow_control: self.flow_control,
            streams: self.streams@,
            active_path: self.active_path,
            skip_pn: self.skip_pn,
            handshake_status: self.handshake_status,
        }
    }
}

impl ConnView {
    /// The accounts of received stream data agree: what the application has
    /// disposed of and what it has yet to dispose of was received, and what was
    /// received is within the limit.
    pub open spec fn balanced(self) -> bool {
        &&& self.rx_data <= self.flow_control.max_data
        &&& self.flow_control.consumed + outstanding(self.streams.live) <= self.rx_data
        &&& outstanding(self.streams.live) >= 0
    }

    /// A flow is advertised, until it is acknowledged, to a peer that supports
    /// multicast and to no other.
    pub open spec fn solicited(self) -> bool {
        self.multicast matches Some(mc) ==> mc.sound() && (mc.flow_acked
            || self.peer_multicast_support)
    }

    /// The application has read `n` bytes of a stream. A unidirectional stream
    /// that has been read to its end is over.
    pub open spec fn stream_read(self, stream_id: u64, n: nat) -> ConnView {
        let before = self.streams.live[stream_id];
        let after = before.after_read(n);
        ConnView {
            streams: if before.fin_off == Some(after.off) && !is_bidi(stream_id) {
                self.streams.collect(stream_id)
            } else {
                self.streams.update(stream_id, after)
            },
            flow_control: FlowControl {
                consumed: (self.flow_control.consumed + n) as u64,
                ..self.flow_control
            },
            ..self
        }
    }

    /// The application has read all of a stream that can be read.
    pub open spec fn stream_drained(self, stream_id: u64) -> ConnView {
        if self.streams.readable(stream_id) {
            self.stream_read(stream_id, self.streams.live[stream_id].next_len())
        } else {
            self
        }
    }
}

/// What reading of a stream does to its connection: the bytes count as disposed
/// of, the stream has moved on by as many, or is over where it flows one way and
/// its end was reached, and nothing else changes.
pub proof fn law_stream_read(conn: ConnView, stream_id: u64, n: nat)
    requires
        conn.streams.live.contains_key(stream_id),
        conn.streams.live[stream_id].off + n <= conn.streams.live[stream_id].len,
        conn.flow_control.consumed + n <= u64::MAX,
    ensures
        ({
            let after = conn.stream_read(stream_id, n);
            let before = conn.streams.live[stream_id];
            let ended = before.fin_off matches Some(size) && size == before.off + n;
            let one_way = stream_id % 4 == 2 || stream_id % 4 == 3;
            &&& after.flow_control.consumed == conn.flow_control.consumed + n
            &&& after.flow_control.max_data == conn.flow_control.max_data
            &&& ended && one_way ==> after.streams == conn.streams.collect(stream_id)
            &&& !(ended && one_way) ==> after.streams == conn.streams.update(
                stream_id,
                before.after_read(n),
            )
            &&& after == (ConnView {
                streams: after.streams,
                flow_control: after.flow_control,
                ..conn
            })
        }),
{
}

/// Draining a stream reads all of it that can be read, and nothing where nothing
/// can; after that there is nothing to read.
pub proof fn law_stream_drained(conn: ConnView, stream_id: u64)
    requires
        conn.streams.live.contains_key(stream_id) ==> conn.streams.live[stream_id].sound(),
    ensures
        conn.streams.readable(stream_id) ==> conn.stream_drained(stream_id) == conn.stream_read(
            stream_id,
            conn.streams.live[stream_id].next_bytes().len(),
        ),
        !conn.streams.readable(stream_id) ==> conn.stream_drained(stream_id) == conn,
        !conn.stream_drained(stream_id).streams.readable(stream_id),
{
    if conn.streams.readable(stream_id) {
        law_next_gap(conn.streams.live[stream_id]);
    }
}

impl Connection {
    /// The parts of the connection are well-formed and its accounts agree.
    pub open(crate) spec fn wf(&self) -> bool {
        &&& self.multicast matches Some(mc) ==> mc.wf()
        &&& self.dgram_recv_queue.wf()
        &&& self.streams.wf()
        &&& self@.balanced()
        &&& self@.solicited()
    }

    /// No advertisement is ever due to a client that did not advertise
    /// multicast support, whatever happened on the connection.
    pub proof fn law_no_unsolicited_flow(&self)
        requires
            self.wf(),
        ensures
            self@.should_send_flow() ==> self@.peer_multicast_support,
    {
    }

    /// What was received of stream data is within the limit, and covers what
    /// the application has read and what it can still read, whatever happened
    /// on the connection.
    pub proof fn law_accounts_balance(&self)
        requires
            self.wf(),
        ensures
            self@.balanced(),
            self@.flow_control.consumed <= self@.rx_data <= self@.flow_control.max_data,
    {
    }

    /// Creates a connection that nothing was received on yet.
    pub fn new(
        is_server: bool,
        peer_multicast_support: bool,
        max_data: u64,
        limits: StreamLimits,
        dgram_queue_len: usize,
    ) -> (conn: Self)
        ensures
            conn.wf(),
            conn@ == (ConnView {
                is_server,
                peer_multicast_support,
                multicast: None,
                dgrams: DgramView { queue: Seq::empty(), max_len: dgram_queue_len },
                dgram_count: 0,
                rx_data: 0,
                flow_control: FlowControl { max_data, consumed: 0 },
                streams: StreamsView {
                    is_server,
                    limits,
                    opened_bidi: 0,
                    opened_uni: 0,
                    live: Map::empty(),
                    collected: Set::empty(),
                },
                active_path: None,
                skip_pn: None,
                handshake_status: HandshakeStatus {
                    has_handshake_keys: false,
                    peer_verified_address: false,
                    completed: false,
                },
            }),
    {
        Connection {
            is_server,
            peer_multicast_support,
            multicast: None,
            dgram_recv_queue: DatagramQueue::new(dgram_queue_len),
            dgram_recv_count: 0,
            rx_data: 0,
            flow_control: FlowControl { max_data, consumed: 0 },
            streams: StreamMap::new(is_server, limits),
            active_path: None,
            skip_pn: None,
            handshake_status: HandshakeStatus {
                has_handshake_keys: false,
                peer_verified_address: false,
                completed: false,
            },
        }
    }

    /// Notes how far the handshake has come.
    pub fn set_handshake_status(&mut self, status: HandshakeStatus)
        requires
            old(self).wf(),
        ensures
            final(self).wf(),
            final(self)@ == (ConnView { handshake_status: status, ..old(self)@ }),
    {
        self.handshake_status = status;
    }

    /// Notes what loss recovery tracks on the path that is in use.
    pub fn set_active_path(&mut self, path: Option<ActivePath>, skip_pn: Option<u64>)
        requires
            old(self).wf(),
        ensures
            final(self).wf(),
            final(self)@ == (ConnView { active_path: path, skip_pn, ..old(self)@ }),
    {
        self.active_path = path;
        self.skip_pn = skip_pn;
    }

    /// Returns the streams that have something to read.
    pub fn readable(&self) -> (ids: Vec<u64>)
        requires
            self.wf(),
        ensures
            ids@.no_duplicates(),
            forall|id: u64| #[trigger] ids@.contains(id) <==> self@.streams.readable(id),
    {
        self.streams.readable()
    }

    /// Reads contiguous data from a stream into `out`. Returns the number of
    /// bytes, and whether the stream ends behind them. A unidirectional stream
    /// that has been read to its end is over.
    pub fn stream_recv(&mut self, stream_id: u64, out: &mut [u8]) -> (r: Result<
        (usize, bool),
        Error,
    >)
        requires
            old(self).wf(),
        ensures
            final(self).wf(),
            match r {
                Ok((n, fin)) => {
                    let streams = old(self)@.streams;
                    let before = streams.live[stream_id];
                    let after = before.after_read(n as nat);
                    &&& streams.readable(stream_id)
                    &&& n <= old(out)@.len()
                    &&& forall|o: int|
                        before.off <= o < before.off + n ==> #[trigger] before.data.contains_key(o)
                    &&& forall|i: int|
                        0 <= i < n ==> #[trigger] final(out)@[i] == before.data[before.off + i]
                    &&& n == old(out)@.len() || !before.data.contains_key(before.off + n)
                    &&& final(out)@.len() == old(out)@.len()
                    &&& final(out)@.skip(n as int) == old(out)@.skip(n as int)
                    &&& fin == (before.fin_off == Some(after.off))
                    &&& before.off + n <= before.len
                    &&& final(self)@ == old(self)@.stream_read(stream_id, n as nat)
                },
                Err(e) => {
                    &&& !old(self)@.streams.readable(stream_id)
                    &&& e == (if old(self)@.streams.live.contains_key(stream_id) {
                        Error::Done
                    } else {
                        Error::InvalidStreamState(stream_id)
                    })
                    &&& final(self)@ == old(self)@
                    &&& final(out)@ == old(out)@
                },
            },
    {
        let ghost live = self.streams@.live;
        proof {
            self.streams.lemma_finite();
            self.streams.lemma_sound();
            lemma_outstanding_insert(live, stream_id, live[stream_id]);
        }
        let r = self.streams.read(stream_id, out);
        if let Ok((n, fin)) = r {
            proof {
                let after = live[stream_id].after_read(n as nat);
                lemma_outstanding_insert(live, stream_id, after);
                crate::streams::lemma_outstanding_bound(live.remove(stream_id));
            }
            self.flow_control.consumed = self.flow_control.consumed + n as u64;
        }
        r
    }

    /// Gives up reading a stream: what was received on it, and what is received
    /// later, is dropped.
    pub fn stream_shutdown(&mut self, stream_id: u64) -> (r: Result<(), Error>)
        requires
            old(self).wf(),
        ensures
            final(self).wf(),
            ({
                let streams = old(self)@.streams;
                match r {
                    Ok(()) => {
                        &&& streams.live.contains_key(stream_id)
                        &&& !streams.live[stream_id].drain
                        &&& final(self)@ == (ConnView {
                            streams: streams.update(
                                stream_id,
                                streams.live[stream_id].after_shutdown(),
                            ),
                            flow_control: FlowControl {
                                consumed: (old(self)@.flow_control.consumed
                                    + streams.live[stream_id].outstanding()) as u64,
                                ..old(self)@.flow_control
                            },
                            ..old(self)@
                        })
                    },
                    Err(e) => {
                        &&& final(self)@ == old(self)@
                        &&& if streams.live.contains_key(stream_id) {
                            streams.live[stream_id].drain && e == Error::Done
                        } else {
                            e == Error::InvalidStreamState(stream_id)
                        }
                    },
                }
            }),
    {
        let ghost live = self.streams@.live;
        proof {
            self.streams.lemma_finite();
            self.streams.lemma_sound();
        }
        match self.streams.shutdown(stream_id) {
            Ok(n) => {
                proof {
                    let after = live[stream_id].after_shutdown();
                    lemma_outstanding_insert(live, stream_id, after);
                    crate::streams::lemma_outstanding_bound(live.remove(stream_id));
                }
                self.flow_control.consumed = self.flow_control.consumed + n;
                Ok(())
            },
            Err(e) => Err(e),
        }
    }

    /// Takes the oldest received datagram and copies it into `out`. A datagram
    /// that is longer than `out` is lost.
    pub fn dgram_recv(&mut self, out: &mut [u8]) -> (r: Result<usize, Error>)
        requires
            old(self).wf(),
        ensures
            final(self).wf(),
            ({
                let queue = old(self)@.dgrams.queue;
                &&& final(self)@ == (ConnView {
                    dgrams: DgramView {
                        queue: if queue.len() > 0 {
                            queue.drop_first()
                        } else {
                            queue
                        },
                        ..old(self)@.dgrams
                    },
                    ..old(self)@
                })
                &&& match r {
                    Ok(n) => queue.len() > 0 && n == queue[0].len() && n <= old(out)@.len()
                        && final(out)@ == queue[0] + old(out)@.skip(n as int),
                    Err(e) => final(out)@ == old(out)@ && if queue.len() == 0 {
                        e == Error::Done
                    } else {
                        e == Error::BufferTooShort && queue[0].len() > old(out)@.len()
                    },
                }
            }),
    {
        let d = match self.dgram_recv_queue.pop() {
            Some(d) => d,
            None => return Err(Error::Done),
        };
        let len: usize = d.len();
        if len > out.len() {
            return Err(Error::BufferTooShort);
        }
        let mut i: usize = 0;
        while i < len
            invariant
                i <= len,
                len == d@.len(),
                len <= out@.len(),
                out@.len() == old(out)@.len(),
                forall|k: int| 0 <= k < i ==> #[trigger] out@[k] == d@[k],
                forall|k: int| i <= k < out@.len() ==> #[trigger] out@[k] == old(out)@[k],
            decreases len - i,
        {
            out[i] = d[i];
            i += 1;
        }
        assert(out@ =~= d@ + old(out)@.skip(len as int));
        Ok(len)
    }
}

} // verus!
