//! The decisions of a receiver that bridges a multicast flow to a media player.
//!
//! The receiver advertises multicast support on its unicast connection, takes
//! the session description from a stream of the server, joins the multicast
//! group once the flow has been advertised, and forwards the datagrams of the
//! flow. Sockets and the event loop are the caller's.

use crate::connection::{
    law_stream_drained, ConnView, Connection, FlowControl, HandshakeStatus,
};
use crate::dgram::DgramView;
use crate::error::Error;
use crate::multicast::delivery::{dgrams_in, law_all_dgrams_queued};
use crate::multicast::McFlowInfo;
use crate::net::{IpAddr, RecvInfo, SocketAddr};
use crate::stream::{lemma_next_len, lemma_read_twice};
use crate::streams::{
    lemma_outstanding_bound, lemma_outstanding_insert, StreamLimits, StreamsView,
};
use vstd::prelude::*;
use vstd::slice::slice_subrange;

verus! {

/// The largest unicast packet.
pub const MAX_DATAGRAM_SIZE: usize = 1350;

/// The server-initiated unidirectional stream that carries the session
/// description (SDP).
pub const SDP_STREAM_ID: u64 = 3;

/// The error code that the connection is closed with when it cannot send.
pub const SEND_FAILED: u64 = 0x1;

/// The number of stream bytes that the receiver takes in on a connection.
pub const MAX_DATA: u64 = 10_000_000;

/// The number of bytes that the receiver takes in on a stream.
pub const MAX_STREAM_DATA: u64 = 1_000_000;

/// The number of streams of each kind that the receiver lets the server open.
pub const MAX_STREAMS: u64 = 100;

/// The number of datagrams that the receiver queues.
pub const DGRAM_QUEUE_LEN: usize = 65536;

/// What the receiver lets the server send.
pub open spec fn receiver_limits() -> StreamLimits {
    StreamLimits {
        max_streams_bidi: MAX_STREAMS,
        max_streams_uni: MAX_STREAMS,
        max_stream_data_bidi: MAX_STREAM_DATA,
        max_stream_data_uni: MAX_STREAM_DATA,
    }
}

/// Creates the receiver's side of its connection.
pub fn new_receiver() -> (conn: Connection)
    ensures
        conn.wf(),
        conn@ == (ConnView {
            is_server: false,
            peer_multicast_support: false,
            multicast: None,
            dgrams: DgramView { queue: Seq::empty(), max_len: DGRAM_QUEUE_LEN },
            dgram_count: 0,
            rx_data: 0,
            flow_control: FlowControl { max_data: MAX_DATA, consumed: 0 },
            streams: StreamsView {
                is_server: false,
                limits: receiver_limits(),
                opened_bidi: 0,
                opened_uni: 0,
                live: Map::empty(),
                collected: Set::empty(),
            },
            active_path: None,
            skip_pn: None,
            handshake_status: HandshakeStatus {
                has_handshake_keys: false,
                peer_verified_address: false,
                completed: false,
            },
        }),
        conn@.flow_control.max_data == 10_000_000,
        conn@.dgrams.max_len == 65536,
        conn@.streams.limits.max_streams_bidi == 100,
        conn@.streams.limits.max_streams_uni == 100,
        conn@.streams.limits.max_stream_data_bidi == 1_000_000,
        conn@.streams.limits.max_stream_data_uni == 1_000_000,
{
    let limits = StreamLimits {
        max_streams_bidi: MAX_STREAMS,
        max_streams_uni: MAX_STREAMS,
        max_stream_data_bidi: MAX_STREAM_DATA,
        max_stream_data_uni: MAX_STREAM_DATA,
    };
    Connection::new(false, false, MAX_DATA, limits, DGRAM_QUEUE_LEN)
}

/// Returns the unspecified address of the same family as `ip`.
pub fn unspecified(ip: IpAddr) -> (any: IpAddr)
    ensures
        any == (match ip {
            IpAddr::V4(_) => IpAddr::V4(0),
            IpAddr::V6(_) => IpAddr::V6(0),
        }),
{
    match ip {
        IpAddr::V4(_) => IpAddr::V4(0),
        IpAddr::V6(_) => IpAddr::V6(0),
    }
}

/// Returns the address to bind the unicast socket to: any port, in the same
/// family as the server.
pub fn unicast_bind_addr(peer: SocketAddr) -> (bind: SocketAddr)
    ensures
        bind == (SocketAddr {
            ip: match peer.ip {
                IpAddr::V4(_) => IpAddr::V4(0),
                IpAddr::V6(_) => IpAddr::V6(0),
            },
            port: 0,
        }),
{
    SocketAddr { ip: unspecified(peer.ip), port: 0 }
}

/// Returns the address to bind the multicast socket to: the port of the flow,
/// in the same family as the group.
pub fn multicast_bind_addr(group: IpAddr, port: u16) -> (bind: SocketAddr)
    ensures
        bind == (SocketAddr {
            ip: match group {
                IpAddr::V4(_) => IpAddr::V4(0),
                IpAddr::V6(_) => IpAddr::V6(0),
            },
            port,
        }),
{
    SocketAddr { ip: unspecified(group), port }
}

/// What came of a call on a socket.
#[derive(Clone, Copy, Debug, PartialEq, Eq, Structural)]
pub enum Io {
    /// It succeeded, with so many bytes.
    Done(usize),
    /// The socket was not ready.
    WouldBlock,
    /// It failed.
    Failed,
}

/// What to do once a packet was asked of the connection.
#[derive(Clone, Copy, Debug, PartialEq, Eq, Structural)]
pub enum Flush {
    /// Transmit so many bytes, then ask for the next packet.
    Transmit(usize),
    /// Nothing is left to send.
    Stop,
    /// Close the connection with this transport error code and the reason
    /// `fail`; send no more.
    Close(u64),
}

/// Decides what follows when the connection was asked for a packet.
pub fn on_packet(r: Result<usize, Error>) -> (next: Flush)
    ensures
        next == (match r {
            Ok(len) => Flush::Transmit(len),
            Err(Error::Done) => Flush::Stop,
            Err(_) => Flush::Close(SEND_FAILED),
        }),
        next matches Flush::Close(code) ==> code == 1,
{
    match r {
        Ok(len) => Flush::Transmit(len),
        Err(Error::Done) => Flush::Stop,
        Err(_) => Flush::Close(SEND_FAILED),
    }
}

/// What to do after a call on a socket.
#[derive(Clone, Copy, Debug, PartialEq, Eq, Structural)]
pub enum Drain {
    /// Process so many bytes, and go on.
    Next(usize),
    /// Wait until the socket is ready.
    Wait,
    /// Give up: there is no going on without the socket.
    Abort,
}

/// Decides what follows a call on a socket.
pub fn on_io(outcome: Io) -> (next: Drain)
    ensures
        next == (match outcome {
            Io::Done(len) => Drain::Next(len),
            Io::WouldBlock => Drain::Wait,
            Io::Failed => Drain::Abort,
        }),
{
    match outcome {
        Io::Done(len) => Drain::Next(len),
        Io::WouldBlock => Drain::Wait,
        Io::Failed => Drain::Abort,
    }
}

/// The session description, as far as it was received.
pub struct Sdp {
    bytes: Vec<u8>,
    done: bool,
}

/// The state of the session description.
#[verifier::ext_equal]
pub struct SdpView {
    /// The bytes received on the stream.
    pub bytes: Seq<u8>,
    /// Whether the description was handed out.
    pub done: bool,
}

impl View for Sdp {
    type V = SdpView;

    closed spec fn view(&self) -> SdpView {
        SdpView { bytes: self.bytes@, done: self.done }
    }
}

impl SdpView {
    /// Takes in data of a stream.
    pub open spec fn after(self, stream_id: u64, data: Seq<u8>, fin: bool) -> SdpView {
        if stream_id == SDP_STREAM_ID {
            SdpView { bytes: self.bytes + data, done: self.done || fin }
        } else {
            self
        }
    }

    /// Whether the data of a stream completes the description.
    pub open spec fn completed_by(self, stream_id: u64, fin: bool) -> bool {
        stream_id == SDP_STREAM_ID && fin && !self.done
    }
}

impl Sdp {
    /// Starts with nothing received.
    pub fn new() -> (sdp: Self)
        ensures
            sdp@ == (SdpView { bytes: Seq::empty(), done: false }),
    {
        Sdp { bytes: Vec::new(), done: false }
    }

    /// Takes in data read from a stream. Returns the description when the data
    /// completes it, which happens once.
    pub fn on_stream(&mut self, stream_id: u64, data: &[u8], fin: bool) -> (sdp: Option<Vec<u8>>)
        ensures
            final(self)@ == old(self)@.after(stream_id, data@, fin),
            match sdp {
                Some(sdp) => old(self)@.completed_by(stream_id, fin) && sdp@ == final(self)@.bytes,
                None => !old(self)@.completed_by(stream_id, fin),
            },
    {
        if stream_id != SDP_STREAM_ID {
            return None;
        }
        self.bytes.extend_from_slice(data);
        if fin && !self.done {
            self.done = true;
            return Some(self.bytes.clone());
        }
        None
    }
}

/// What to do once the unicast socket has been drained.
#[derive(Clone, Copy, Debug, PartialEq, Eq, Structural)]
pub enum Turn {
    /// The connection is closed: stop.
    Stop,
    /// The handshake goes on: there is nothing to read yet.
    Handshake,
    /// Read the streams.
    Serve,
    /// Read the streams, and join the group on this port, for packets of this
    /// source alone.
    Join { source: IpAddr, group: IpAddr, port: u16 },
}

/// Decides what to do once the unicast socket has been drained. The group is
/// joined for the source of the flow, once, as soon as the flow has been
/// advertised on an established connection.
pub fn next_turn(closed: bool, established: bool, joined: bool, flow: Option<&McFlowInfo>) -> (turn:
    Turn)
    ensures
        turn == (if closed {
            Turn::Stop
        } else if !established {
            Turn::Handshake
        } else {
            match flow {
                Some(info) if !joined => Turn::Join {
                    source: info.source_ip,
                    group: info.group_ip,
                    port: info.udp_port,
                },
                _ => Turn::Serve,
            }
        }),
{
    if closed {
        return Turn::Stop;
    }
    if !established {
        return Turn::Handshake;
    }
    match flow {
        Some(info) => if joined {
            Turn::Serve
        } else {
            Turn::Join { source: info.source_ip, group: info.group_ip, port: info.udp_port }
        },
        None => Turn::Serve,
    }
}

/// Decides whether a packet that arrived on the multicast socket is from the
/// source that the group was joined for. It is dropped otherwise: not every
/// platform can join a group for one source.
pub fn is_from_source(source: IpAddr, from: SocketAddr) -> (b: bool)
    ensures
        b == (from.ip == source),
{
    from.ip == source
}

/// The length of the buffer that streams and datagrams are read into.
pub const BUF_LEN: usize = 65535;

/// Reads all of a stream that can be read. Returns the bytes, and whether the
/// stream ends behind them; `None`, where there is nothing to read.
pub fn drain_stream(conn: &mut Connection, stream_id: u64) -> (r: Option<(Vec<u8>, bool)>)
    requires
        old(conn).wf(),
    ensures
        final(conn).wf(),
        final(conn)@ == old(conn)@.stream_drained(stream_id),
        match r {
            Some((bytes, fin)) => {
                let stream = old(conn)@.streams.live[stream_id];
                &&& old(conn)@.streams.readable(stream_id)
                &&& stream.has_next(bytes@.len())
                &&& bytes@ == stream.next_bytes()
                &&& fin == stream.ends_next()
            },
            None => !old(conn)@.streams.readable(stream_id),
        },
{
    let mut buf: Vec<u8> = vec![0; BUF_LEN];
    let ghost before = conn@;
    let ghost live = conn@.streams.live;
    let ghost stream = live[stream_id];
    proof {
        conn.streams.lemma_sound();
        conn.streams.lemma_finite();
    }
    let (n, mut fin): (usize, bool) = match conn.stream_recv(stream_id, buf.as_mut_slice()) {
        Ok(v) => v,
        Err(_) => return None,
    };
    proof {
        lemma_outstanding_insert(live, stream_id, stream);
        lemma_outstanding_bound(live.remove(stream_id));
    }
    let mut bytes: Vec<u8> = Vec::new();
    bytes.extend_from_slice(slice_subrange(buf.as_slice(), 0, n));
    while !fin
        invariant
            before.streams.live.contains_key(stream_id),
            stream == before.streams.live[stream_id],
            stream.sound(),
            conn.wf(),
            buf@.len() == BUF_LEN,
            stream.off + bytes@.len() <= stream.len,
            before.flow_control.consumed + stream.outstanding() <= u64::MAX,
            fin == (stream.fin_off == Some((stream.off + bytes@.len()) as u64)),
            conn@ == before.stream_read(stream_id, bytes@.len()),
            forall|o: int|
                stream.off <= o < stream.off + bytes@.len() ==> #[trigger] stream.data.contains_key(
                    o,
                ),
            forall|i: int| 0 <= i < bytes@.len() ==> #[trigger] bytes@[i] == stream.data[stream.off + i],
        ensures
            fin || !conn@.streams.readable(stream_id),
        decreases stream.len - stream.off - bytes@.len(),
    {
        let ghost done = bytes@;
        let ghost mid = conn@.streams.live[stream_id];
        assert(mid == stream.after_read(done.len()));
        let (n, last): (usize, bool) = match conn.stream_recv(stream_id, buf.as_mut_slice()) {
            Ok(v) => v,
            Err(_) => break,
        };
        bytes.extend_from_slice(slice_subrange(buf.as_slice(), 0, n));
        fin = last;
        proof {
            lemma_read_twice(stream, done.len(), n as nat);
            assert(bytes@.len() == done.len() + n);
            assert forall|o: int|
                stream.off <= o < stream.off + bytes@.len() implies #[trigger] stream.data.contains_key(
                o,
            ) by {
                if o >= stream.off + done.len() {
                    assert(mid.data.contains_key(o));
                }
            }
            assert forall|i: int| 0 <= i < bytes@.len() implies #[trigger] bytes@[i]
                == stream.data[stream.off + i] by {
                if i >= done.len() {
                    assert(mid.data.contains_key(mid.off + (i - done.len())));
                }
            }
            assert(conn@.streams =~= before.stream_read(stream_id, bytes@.len()).streams);
        }
    }
    proof {
        lemma_next_len(stream, bytes@.len());
        assert(bytes@ =~= stream.next_bytes());
    }
    Some((bytes, fin))
}

/// The application has read all that can be read of several streams.
pub open spec fn all_drained(conn: ConnView, ids: Seq<u64>) -> ConnView
    decreases ids.len(),
{
    if ids.len() == 0 {
        conn
    } else {
        all_drained(conn, ids.drop_last()).stream_drained(ids.last())
    }
}

/// Reading other streams does not change a stream.
proof fn lemma_others_drained(conn: ConnView, ids: Seq<u64>, id: u64)
    requires
        !ids.contains(id),
    ensures
        ({
            let after = all_drained(conn, ids).streams;
            &&& after.live.contains_key(id) <==> conn.streams.live.contains_key(id)
            &&& conn.streams.live.contains_key(id) ==> after.live[id] == conn.streams.live[id]
        }),
    decreases ids.len(),
{
    if ids.len() > 0 {
        assert(ids.contains(ids.last()));
        assert(!ids.drop_last().contains(id)) by {
            if ids.drop_last().contains(id) {
                let i = choose|i: int| 0 <= i < ids.drop_last().len() && ids.drop_last()[i] == id;
                assert(ids[i] == id);
            }
        }
        lemma_others_drained(conn, ids.drop_last(), id);
    }
}

impl SdpView {
    /// Takes in all that can be read of the stream that carries the
    /// description.
    pub open spec fn after_streams(self, streams: StreamsView) -> SdpView {
        if streams.readable(SDP_STREAM_ID) {
            let stream = streams.live[SDP_STREAM_ID];
            self.after(SDP_STREAM_ID, stream.next_bytes(), stream.ends_next())
        } else {
            self
        }
    }

    /// Whether that completes the description.
    pub open spec fn completed_by_streams(self, streams: StreamsView) -> bool {
        streams.readable(SDP_STREAM_ID) && self.completed_by(
            SDP_STREAM_ID,
            streams.live[SDP_STREAM_ID].ends_next(),
        )
    }
}

/// Reads all streams as far as they can be read, and takes in the session
/// description that the server pushes on one of them. Returns the description
/// when it is complete, which happens once.
pub fn read_streams(conn: &mut Connection, sdp: &mut Sdp) -> (complete: Option<Vec<u8>>)
    requires
        old(conn).wf(),
    ensures
        final(conn).wf(),
        exists|ids: Seq<u64>|
            ids.no_duplicates() && (forall|id: u64| #[trigger]
                ids.contains(id) <==> old(conn)@.streams.readable(id)) && final(conn)@
                == #[trigger] all_drained(old(conn)@, ids),
        final(sdp)@ == old(sdp)@.after_streams(old(conn)@.streams),
        match complete {
            Some(bytes) => {
                &&& old(sdp)@.completed_by_streams(old(conn)@.streams)
                &&& bytes@ == final(sdp)@.bytes
            },
            None => !old(sdp)@.completed_by_streams(old(conn)@.streams),
        },
{
    let ghost before = conn@;
    let ids = conn.readable();
    let mut complete: Option<Vec<u8>> = None;
    let mut i: usize = 0;
    while i < ids.len()
        invariant
            i <= ids@.len(),
            conn.wf(),
            ids@.no_duplicates(),
            forall|id: u64| #[trigger] ids@.contains(id) <==> before.streams.readable(id),
            conn@ == all_drained(before, ids@.take(i as int)),
            ({
                let taken = ids@.take(i as int).contains(SDP_STREAM_ID);
                &&& sdp@ == (if taken {
                    old(sdp)@.after_streams(before.streams)
                } else {
                    old(sdp)@
                })
                &&& match complete {
                    Some(bytes) => taken && old(sdp)@.completed_by_streams(before.streams) && bytes@
                        == sdp@.bytes,
                    None => !(taken && old(sdp)@.completed_by_streams(before.streams)),
                }
            }),
        decreases ids@.len() - i,
    {
        let id: u64 = ids[i];
        proof {
            let taken = ids@.take(i as int);
            let next = ids@.take(i + 1);
            assert(ids@.contains(ids@[i as int]));
            assert(!taken.contains(id)) by {
                if taken.contains(id) {
                    let j = choose|j: int| 0 <= j < taken.len() && taken[j] == id;
                    assert(ids@[j] == ids@[i as int]);
                }
            }
            lemma_others_drained(before, taken, id);
            assert(next.drop_last() =~= taken);
            assert(next.last() == id);
            assert(next.contains(SDP_STREAM_ID) <==> taken.contains(SDP_STREAM_ID) || id
                == SDP_STREAM_ID) by {
                if next.contains(SDP_STREAM_ID) {
                    let j = choose|j: int| 0 <= j < next.len() && next[j] == SDP_STREAM_ID;
                    if j < i {
                        assert(taken[j] == SDP_STREAM_ID);
                    }
                }
                if taken.contains(SDP_STREAM_ID) {
                    let j = choose|j: int| 0 <= j < taken.len() && taken[j] == SDP_STREAM_ID;
                    assert(next[j] == SDP_STREAM_ID);
                }
                if id == SDP_STREAM_ID {
                    assert(next[i as int] == id);
                }
            }
        }
        if let Some((bytes, fin)) = drain_stream(conn, id) {
            let now = sdp.on_stream(id, bytes.as_slice(), fin);
            if now.is_some() {
                complete = now;
            }
        }
        i += 1;
    }
    assert(ids@.take(i as int) =~= ids@);
    complete
}

/// The number of datagrams at the head of a queue that fit in `len` bytes.
pub open spec fn fitting(queue: Seq<Seq<u8>>, len: nat) -> nat
    decreases queue.len(),
{
    if queue.len() == 0 || queue[0].len() > len {
        0
    } else {
        1 + fitting(queue.drop_first(), len)
    }
}

impl DgramView {
    /// The datagrams that can be taken into `len` bytes each, oldest first, up
    /// to the first that is longer.
    pub open spec fn taken(self, len: nat) -> Seq<Seq<u8>> {
        self.queue.take(fitting(self.queue, len) as int)
    }

    /// What they leave: that one is dropped too.
    pub open spec fn left(self, len: nat) -> DgramView {
        let n = fitting(self.queue, len) as int;
        DgramView {
            queue: if n < self.queue.len() {
                self.queue.skip(n + 1)
            } else {
                Seq::empty()
            },
            ..self
        }
    }
}

/// Takes the received datagrams, oldest first. A datagram that is longer than
/// any packet is dropped, and those behind it wait for the next time.
pub fn take_dgrams(conn: &mut Connection) -> (dgrams: Vec<Vec<u8>>)
    requires
        old(conn).wf(),
    ensures
        final(conn).wf(),
        dgrams@.map_values(|d: Vec<u8>| d@) == old(conn)@.dgrams.taken(BUF_LEN as nat),
        final(conn)@ == (ConnView {
            dgrams: old(conn)@.dgrams.left(BUF_LEN as nat),
            ..old(conn)@
        }),
        dgrams@.len() <= old(conn)@.dgrams.queue.len(),
        forall|i: int|
            0 <= i < dgrams@.len() ==> (#[trigger] dgrams@[i])@ == old(conn)@.dgrams.queue[i],
        dgrams@.len() < old(conn)@.dgrams.queue.len() ==> old(
            conn,
        )@.dgrams.queue[dgrams@.len() as int].len() > 65535,
{
    let mut buf: Vec<u8> = vec![0; BUF_LEN];
    let mut dgrams: Vec<Vec<u8>> = Vec::new();
    let ghost queue = conn@.dgrams.queue;
    assert(queue.skip(0) =~= queue);
    loop
        invariant_except_break
            conn@ == (ConnView {
                dgrams: DgramView {
                    queue: queue.skip(dgrams@.len() as int),
                    ..old(conn)@.dgrams
                },
                ..old(conn)@
            }),
        invariant
            conn.wf(),
            buf@.len() == BUF_LEN,
            dgrams@.len() <= queue.len(),
            dgrams@.map_values(|d: Vec<u8>| d@) =~= queue.take(dgrams@.len() as int),
            fitting(queue, BUF_LEN as nat) == dgrams@.len() + fitting(
                queue.skip(dgrams@.len() as int),
                BUF_LEN as nat,
            ),
        ensures
            fitting(queue, BUF_LEN as nat) == dgrams@.len(),
            conn@ == (ConnView {
                dgrams: DgramView {
                    queue: if dgrams@.len() < queue.len() {
                        queue.skip(dgrams@.len() as int + 1)
                    } else {
                        Seq::empty()
                    },
                    ..old(conn)@.dgrams
                },
                ..old(conn)@
            }),
        decreases queue.len() - dgrams@.len(),
    {
        let ghost left = queue.skip(dgrams@.len() as int);
        proof {
            if left.len() > 0 {
                assert(left.drop_first() =~= queue.skip(dgrams@.len() as int + 1));
            } else {
                assert(left =~= Seq::empty());
            }
        }
        match conn.dgram_recv(buf.as_mut_slice()) {
            Ok(len) => {
                let mut d: Vec<u8> = Vec::new();
                d.extend_from_slice(slice_subrange(buf.as_slice(), 0, len));
                assert(d@ =~= left[0]);
                dgrams.push(d);
            },
            Err(_) => break,
        }
    }
    proof {
        law_dgrams_taken(old(conn)@.dgrams, BUF_LEN as nat);
        let taken = dgrams@.map_values(|d: Vec<u8>| d@);
        assert(taken.len() == dgrams@.len());
        assert forall|i: int| 0 <= i < dgrams@.len() implies (#[trigger] dgrams@[i])@ == old(
            conn,
        )@.dgrams.queue[i] by {
            assert(taken[i] == dgrams@[i]@);
        }
    }
    dgrams
}

/// Processes a packet received on the multicast socket. Returns the datagrams
/// to forward to the media player, oldest first; a packet that is refused is
/// dropped, with all that is queued left where it is.
pub fn on_flow_packet(conn: &mut Connection, pkt: &mut [u8], info: RecvInfo) -> (r: Result<
    Vec<Vec<u8>>,
    Error,
>)
    requires
        old(conn).wf(),
        old(conn)@.basis_in_range(),
    ensures
        final(conn).wf(),
        final(pkt)@ == old(conn)@.buffer_received(old(pkt)@),
        match (r, old(conn)@.received(old(pkt)@)) {
            (Ok(dgrams), (after, Ok(_))) => {
                &&& dgrams@.map_values(|d: Vec<u8>| d@) == after.dgrams.taken(BUF_LEN as nat)
                &&& final(conn)@ == (ConnView {
                    dgrams: after.dgrams.left(BUF_LEN as nat),
                    ..after
                })
            },
            (Err(e), (after, Err(reason))) => e == reason && final(conn)@ == after,
            _ => false,
        },
{
    match conn.mc_recv(pkt, info) {
        Ok(_) => Ok(take_dgrams(conn)),
        Err(e) => Err(e),
    }
}

/// Data of a stream, in the pieces that it was read in.
pub struct Piece {
    pub stream_id: u64,
    pub data: Seq<u8>,
    pub fin: bool,
}

/// The state of the description after pieces of streams.
pub open spec fn after_pieces(sdp: SdpView, pieces: Seq<Piece>) -> SdpView
    decreases pieces.len(),
{
    if pieces.len() == 0 {
        sdp
    } else {
        let last = pieces.last();
        after_pieces(sdp, pieces.drop_last()).after(last.stream_id, last.data, last.fin)
    }
}

/// Once the description has been handed out, no data of any stream completes it
/// again.
pub proof fn law_sdp_once(sdp: SdpView, pieces: Seq<Piece>, stream_id: u64, fin: bool)
    requires
        sdp.done,
    ensures
        after_pieces(sdp, pieces).done,
        !after_pieces(sdp, pieces).completed_by(stream_id, fin),
    decreases pieces.len(),
{
    if pieces.len() > 0 {
        law_sdp_once(sdp, pieces.drop_last(), stream_id, fin);
    }
}

/// No more datagrams are counted than there are.
proof fn lemma_fitting(queue: Seq<Seq<u8>>, len: nat)
    ensures
        fitting(queue, len) <= queue.len(),
    decreases queue.len(),
{
    if queue.len() > 0 {
        lemma_fitting(queue.drop_first(), len);
    }
}

/// The datagrams that are taken are the longest run of them, from the oldest on,
/// in which each fits: all of them where all fit. The first that does not is
/// dropped, and those behind it are left.
pub proof fn law_dgrams_taken(q: DgramView, len: nat)
    ensures
        ({
            let taken = q.taken(len);
            let n = taken.len() as int;
            &&& n <= q.queue.len()
            &&& forall|i: int| 0 <= i < n ==> #[trigger] taken[i] == q.queue[i]
            &&& forall|i: int| 0 <= i < n ==> (#[trigger] q.queue[i]).len() <= len
            &&& n < q.queue.len() ==> q.queue[n].len() > len
            &&& n < q.queue.len() ==> q.left(len).queue == q.queue.skip(n + 1)
            &&& n == q.queue.len() ==> q.left(len).queue == Seq::<Seq<u8>>::empty()
            &&& q.left(len).max_len == q.max_len
        }),
    decreases q.queue.len(),
{
    lemma_fitting(q.queue, len);
    if q.queue.len() > 0 && q.queue[0].len() <= len {
        lemma_fitting(q.queue.drop_first(), len);
        let rest = DgramView { queue: q.queue.drop_first(), ..q };
        law_dgrams_taken(rest, len);
        let n = q.taken(len).len() as int;
        assert forall|i: int| 0 <= i < n implies (#[trigger] q.queue[i]).len() <= len by {
            if i > 0 {
                assert(rest.queue[i - 1].len() <= len);
            }
        }
        if n < q.queue.len() {
            assert(rest.queue[n - 1] == q.queue[n]);
        }
    }
}

/// Every datagram that a UDP packet can hold is forwarded: where none is longer
/// than that, all that are queued are taken, in order, and none is left.
pub proof fn law_all_dgrams_taken(q: DgramView)
    requires
        forall|i: int| 0 <= i < q.queue.len() ==> (#[trigger] q.queue[i]).len() <= 65535,
    ensures
        q.taken(BUF_LEN as nat) == q.queue,
        q.left(BUF_LEN as nat).queue == Seq::<Seq<u8>>::empty(),
{
    law_dgrams_taken(q, BUF_LEN as nat);
    let n = q.taken(BUF_LEN as nat).len() as int;
    if n < q.queue.len() {
        assert(q.queue[n].len() <= 65535);
    }
    assert(q.taken(BUF_LEN as nat) =~= q.queue);
}

/// A datagram of the flow reaches the media player: where a packet is taken in,
/// the datagrams that were queued and those that it carries are all forwarded, in
/// order, and none is left, as long as they fit in the queue.
pub proof fn law_flow_dgrams_forwarded(conn: ConnView, pkt: Seq<u8>)
    requires
        conn.received(pkt).1 is Ok,
        conn.dgrams.max_len > 0,
        ({
            let all = conn.dgrams.queue + dgrams_in(conn.payload_of(pkt));
            &&& all.len() <= conn.dgrams.max_len
            &&& forall|i: int| 0 <= i < all.len() ==> (#[trigger] all[i]).len() <= 65535
        }),
    ensures
        ({
            let after = conn.received(pkt).0;
            let all = conn.dgrams.queue + dgrams_in(conn.payload_of(pkt));
            &&& after.dgrams.taken(BUF_LEN as nat) == all
            &&& after.dgrams.left(BUF_LEN as nat).queue == Seq::<Seq<u8>>::empty()
        }),
{
    law_all_dgrams_queued(conn, conn.payload_of(pkt));
    law_all_dgrams_taken(conn.received(pkt).0.dgrams);
}

/// What the server sent on the stream of the description, in the pieces that it
/// was read in.
pub open spec fn description(pieces: Seq<Piece>) -> Seq<u8>
    decreases pieces.len(),
{
    if pieces.len() == 0 {
        Seq::empty()
    } else if pieces.last().stream_id == 3 {
        description(pieces.drop_last()) + pieces.last().data
    } else {
        description(pieces.drop_last())
    }
}

/// The description is all that was read of its stream, in order, and nothing of
/// any other stream; it is complete once its stream has ended.
pub proof fn law_sdp_collected(sdp: SdpView, pieces: Seq<Piece>)
    ensures
        after_pieces(sdp, pieces).bytes == sdp.bytes + description(pieces),
        after_pieces(sdp, pieces).done <==> sdp.done || exists|i: int|
            0 <= i < pieces.len() && (#[trigger] pieces[i]).stream_id == 3 && pieces[i].fin,
    decreases pieces.len(),
{
    if pieces.len() == 0 {
        assert(sdp.bytes + description(pieces) =~= sdp.bytes);
    } else {
        let rest = pieces.drop_last();
        let last = pieces.len() - 1;
        law_sdp_collected(sdp, rest);
        assert(after_pieces(sdp, pieces).bytes =~= sdp.bytes + description(pieces));
        if exists|i: int| 0 <= i < rest.len() && (#[trigger] rest[i]).stream_id == 3 && rest[i].fin {
            let i = choose|i: int|
                0 <= i < rest.len() && (#[trigger] rest[i]).stream_id == 3 && rest[i].fin;
            assert(pieces[i].stream_id == 3 && pieces[i].fin);
        }
        if exists|i: int|
            0 <= i < pieces.len() && (#[trigger] pieces[i]).stream_id == 3 && pieces[i].fin {
            let i = choose|i: int|
                0 <= i < pieces.len() && (#[trigger] pieces[i]).stream_id == 3 && pieces[i].fin;
            if i < last {
                assert(rest[i].stream_id == 3 && rest[i].fin);
            }
        }
        if pieces.last().stream_id == 3 && pieces.last().fin {
            assert(pieces[last].stream_id == 3 && pieces[last].fin);
        }
    }
}

/// A piece of its stream is added to the description, whatever it holds, and a
/// piece of another stream changes nothing. A piece completes the description
/// exactly where it ends its stream, and the description was not handed out
/// before.
pub proof fn law_sdp_completed(sdp: SdpView, stream_id: u64, data: Seq<u8>, fin: bool)
    ensures
        sdp.completed_by(stream_id, fin) <==> stream_id == 3 && fin && !sdp.done,
        stream_id == 3 ==> sdp.after(stream_id, data, fin) == (SdpView {
            bytes: sdp.bytes + data,
            done: sdp.done || fin,
        }),
        stream_id != 3 ==> sdp.after(stream_id, data, fin) == sdp,
{
}

/// Reading the streams adds to the description all of its stream that can be
/// read, and completes it exactly where that reaches the end of the stream.
pub proof fn law_sdp_from_streams(sdp: SdpView, streams: StreamsView)
    ensures
        !streams.readable(3) ==> sdp.after_streams(streams) == sdp && !sdp.completed_by_streams(
            streams,
        ),
        streams.readable(3) ==> sdp.after_streams(streams) == (SdpView {
            bytes: sdp.bytes + streams.live[3].next_bytes(),
            done: sdp.done || streams.live[3].ends_next(),
        }),
        streams.readable(3) ==> (sdp.completed_by_streams(streams) <==> streams.live[3].ends_next()
            && !sdp.done),
{
}

/// Once the streams have been read, none of those that could be read has anything
/// left to read.
pub proof fn law_streams_read(conn: ConnView, ids: Seq<u64>, id: u64)
    requires
        ids.no_duplicates(),
        ids.contains(id),
        conn.streams.live.contains_key(id) ==> conn.streams.live[id].sound(),
    ensures
        !all_drained(conn, ids).streams.readable(id),
    decreases ids.len(),
{
    let rest = ids.drop_last();
    let before = all_drained(conn, rest);
    if ids.last() == id {
        assert(!rest.contains(id)) by {
            if rest.contains(id) {
                let i = choose|i: int| 0 <= i < rest.len() && rest[i] == id;
                assert(ids[i] == ids[ids.len() - 1]);
            }
        }
        lemma_others_drained(conn, rest, id);
        law_stream_drained(before, id);
    } else {
        let i = choose|i: int| 0 <= i < ids.len() && ids[i] == id;
        assert(rest[i] == id);
        law_streams_read(conn, rest, id);
        let last = ids.last();
        assert(all_drained(conn, ids).streams.live.contains_key(id)
            == before.streams.live.contains_key(id));
    }
}

/// Reading the streams changes nothing else: no other stream, no datagram, and
/// nothing of the flow; each byte that is read counts as disposed of.
pub proof fn law_only_streams_read(conn: ConnView, ids: Seq<u64>, other: u64)
    requires
        !ids.contains(other),
    ensures
        ({
            let after = all_drained(conn, ids);
            &&& after.streams.live.contains_key(other) <==> conn.streams.live.contains_key(other)
            &&& conn.streams.live.contains_key(other) ==> after.streams.live[other]
                == conn.streams.live[other]
            &&& after.streams.collected.contains(other) <==> conn.streams.collected.contains(other)
            &&& after.streams.limits == conn.streams.limits
            &&& after.flow_control.max_data == conn.flow_control.max_data
            &&& after == (ConnView {
                streams: after.streams,
                flow_control: after.flow_control,
                ..conn
            })
        }),
    decreases ids.len(),
{
    lemma_others_drained(conn, ids, other);
    if ids.len() > 0 {
        assert(ids.contains(ids.last()));
        let rest = ids.drop_last();
        if rest.contains(other) {
            let i = choose|i: int| 0 <= i < rest.len() && rest[i] == other;
            assert(ids[i] == other);
        }
        law_only_streams_read(conn, rest, other);
    }
}

/// What the receiver lets the server send.
pub proof fn law_receiver_limits()
    ensures
        receiver_limits() == (StreamLimits {
            max_streams_bidi: 100,
            max_streams_uni: 100,
            max_stream_data_bidi: 1_000_000,
            max_stream_data_uni: 1_000_000,
        }),
        MAX_DATA == 10_000_000,
        DGRAM_QUEUE_LEN == 65536,
        MAX_DATAGRAM_SIZE == 1350,
        BUF_LEN == 65535,
{
}

} // verus!
