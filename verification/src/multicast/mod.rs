//! Minimal multicast extension for QUIC.

pub mod aggregator;
pub mod delivery;
pub mod error;
pub mod lifecycle;
pub mod mc_flow;
pub mod reassembly;

use crate::connection::{ConnView, Connection, HandshakeStatus};
use crate::crypto::{keys_from_secret, Algorithm, Keys, Open, SECRET_LIMIT, TAG_LEN};
use crate::error::Error;
use crate::frame::{lemma_take_frame, live, Frame, FrameView};
use crate::multicast::delivery::law_delivery_keeps_flow;
use crate::multicast::error::McError;
use crate::net::{IpAddr, RecvInfo};
use crate::octets_spec::unread;
use crate::packet::{open_packet, MAX_CID_LEN, MAX_PKT_NUM_BASIS};
use crate::ranges::{interval, RangeSet};
use crate::stream::RangeBuf;
use crate::streams::{lemma_outstanding_bound, lemma_outstanding_insert};
use octets::Octets;
use vstd::prelude::*;

verus! {

/// The AEAD algorithm of a TLS cipher suite, if it has one here.
pub open spec fn suite_alg(cipher_suite: u16) -> Option<Algorithm> {
    if cipher_suite == 0x1301 {
        Some(Algorithm::AES128_GCM)
    } else if cipher_suite == 0x1302 {
        Some(Algorithm::AES256_GCM)
    } else if cipher_suite == 0x1303 {
        Some(Algorithm::ChaCha20_Poly1305)
    } else {
        None
    }
}

/// Maps a TLS cipher suite code point onto its AEAD [`Algorithm`].
pub fn alg_from_cipher_suite(cipher_suite: u16) -> (r: Result<Algorithm, Error>)
    ensures
        match r {
            Ok(alg) => suite_alg(cipher_suite) == Some(alg),
            Err(e) => suite_alg(cipher_suite) is None && e == Error::Multicast(McError::McFlow),
        },
{
    match cipher_suite {
        0x1301 => Ok(Algorithm::AES128_GCM),
        0x1302 => Ok(Algorithm::AES256_GCM),
        0x1303 => Ok(Algorithm::ChaCha20_Poly1305),
        _ => Err(Error::Multicast(McError::McFlow)),
    }
}

/// Checks that a Flow ID can be a connection ID, and is not empty.
pub fn check_flow_id(flow_id: &[u8]) -> (r: Result<(), Error>)
    ensures
        r is Ok <==> 1 <= flow_id@.len() <= MAX_CID_LEN,
        r matches Err(e) ==> e == Error::Multicast(McError::McFlow),
{
    if flow_id.len() < 1 || flow_id.len() > MAX_CID_LEN as usize {
        return Err(Error::Multicast(McError::McFlow));
    }
    Ok(())
}

/// Handle information about a multicast flow.
pub struct McFlowInfo {
    /// The Flow ID.
    pub flow_id: Vec<u8>,
    /// The source IP address of the flow.
    pub source_ip: IpAddr,
    /// The group IP address of the flow.
    pub group_ip: IpAddr,
    /// The destination UDP port.
    pub udp_port: u16,
    /// The cipher suite used to decrypt packets from the multicast flow.
    pub cipher_suite: u16,
    /// The first packet number that we can expect to receive on the multicast
    /// flow.
    pub first_pn: u64,
    /// The TLS secret used to generate the decryption key for the multicast
    /// flow.
    pub secret: Vec<u8>,
}

/// What is known of a multicast flow.
#[verifier::ext_equal]
pub struct FlowView {
    pub flow_id: Seq<u8>,
    pub source_ip: IpAddr,
    pub group_ip: IpAddr,
    pub udp_port: u16,
    pub cipher_suite: u16,
    pub first_pn: u64,
    pub secret: Seq<u8>,
}

impl View for McFlowInfo {
    type V = FlowView;

    open spec fn view(&self) -> FlowView {
        FlowView {
            flow_id: self.flow_id@,
            source_ip: self.source_ip,
            group_ip: self.group_ip,
            udp_port: self.udp_port,
            cipher_suite: self.cipher_suite,
            first_pn: self.first_pn,
            secret: self.secret@,
        }
    }
}

impl Clone for McFlowInfo {
    fn clone(&self) -> (info: Self)
        ensures
            info@ == self@,
    {
        McFlowInfo {
            flow_id: self.flow_id.clone(),
            source_ip: self.source_ip,
            group_ip: self.group_ip,
            udp_port: self.udp_port,
            cipher_suite: self.cipher_suite,
            first_pn: self.first_pn,
            secret: self.secret.clone(),
        }
    }
}

impl McFlowInfo {
    /// Builds the `MC_FLOW` frame advertising this flow.
    pub fn to_frame(&self) -> (frame: Frame)
        ensures
            frame@ == (FrameView::McFlow { flow: self@ }),
    {
        Frame::McFlow {
            flow_id: self.flow_id.clone(),
            source_ip: self.source_ip,
            group_ip: self.group_ip,
            udp_port: self.udp_port,
            cipher_suite: self.cipher_suite,
            first_pn: self.first_pn,
            secret: self.secret.clone(),
        }
    }
}

/// Minimal multicast structure.
/// The objective of this structure is to handle as much multicast-related task
/// as possible.
pub struct MulticastData {
    /// Multicast flow information. Only a single multicast flow is considered.
    mc_flow_info: McFlowInfo,
    /// Server: whether the `MC_FLOW` frame has been transmitted and is not
    /// scheduled to be sent again. It mirrors the one-shot handling of
    /// `HANDSHAKE_DONE`: on loss it is reset to scheduled, on acknowledgement it
    /// is retired.
    mc_flow_sent: bool,
    /// Server: whether the `MC_FLOW` frame has been acknowledged by the client.
    /// Once acknowledged, the frame is no longer retransmitted.
    mc_flow_acked: bool,
    /// Client: the flow key context, derived from the flow secret and cipher
    /// suite, used to decrypt packets received on the flow.
    flow_open: Option<Open>,
    /// Client: the largest packet number successfully decrypted on the flow.
    /// It is the basis for packet-number reconstruction; before any packet has
    /// been decrypted, `First Packet Number` is the next expected one.
    flow_largest_pn: Option<u64>,
    /// Client: the set of packet numbers successfully received on the flow, to
    /// be reported back to the server in `MC_ACK` frames over the unicast
    /// connection.
    flow_recv_pns: RangeSet,
    /// Client: whether new flow packet numbers have been received since the
    /// last `MC_ACK` was sent, i.e. an acknowledgement is scheduled.
    flow_ack_pending: bool,
    /// Server: the packet numbers reported as received by the client in
    /// `MC_ACK` frames, awaiting relay to the standalone sender connection.
    flow_acked_pns: Option<RangeSet>,
}

/// The state of the multicast extension on a connection.
#[verifier::ext_equal]
pub struct McView {
    pub flow: FlowView,
    pub flow_sent: bool,
    pub flow_acked: bool,
    pub open: Option<Keys>,
    pub largest_pn: Option<u64>,
    pub recv_pns: Set<u64>,
    pub ack_pending: bool,
    pub acked_pns: Option<Set<u64>>,
}

impl View for MulticastData {
    type V = McView;

    closed spec fn view(&self) -> McView {
        McView {
            flow: self.mc_flow_info@,
            flow_sent: self.mc_flow_sent,
            flow_acked: self.mc_flow_acked,
            open: match self.flow_open {
                Some(open) => Some(open@),
                None => None,
            },
            largest_pn: self.flow_largest_pn,
            recv_pns: self.flow_recv_pns@,
            ack_pending: self.flow_ack_pending,
            acked_pns: match self.flow_acked_pns {
                Some(pns) => Some(pns@),
                None => None,
            },
        }
    }
}

impl McView {
    /// An advertisement that was acknowledged is not scheduled.
    pub open spec fn sound(self) -> bool {
        self.flow_acked ==> self.flow_sent
    }

    /// The `MC_FLOW` frame that is scheduled for transmission, if it is.
    pub open spec fn pending_flow(self) -> Option<FrameView> {
        if self.flow_sent {
            None
        } else {
            Some(FrameView::McFlow { flow: self.flow })
        }
    }

    /// The `MC_ACK` frame that is scheduled for transmission, if one is.
    pub open spec fn pending_ack(self) -> Option<FrameView> {
        if self.ack_pending && self.recv_pns != Set::<u64>::empty() {
            Some(
                FrameView::McAck {
                    flow_id: self.flow.flow_id,
                    ack_delay: 0,
                    ranges: self.recv_pns,
                },
            )
        } else {
            None
        }
    }

    /// `MC_FLOW` was transmitted.
    pub open spec fn after_flow_sent(self) -> McView {
        McView { flow_sent: true, ..self }
    }

    /// `MC_FLOW` was acknowledged.
    pub open spec fn after_flow_acked(self) -> McView {
        McView { flow_sent: true, flow_acked: true, ..self }
    }

    /// `MC_FLOW` was lost.
    pub open spec fn after_flow_lost(self) -> McView {
        McView { flow_sent: self.flow_sent && self.flow_acked, ..self }
    }

    /// A packet was received on the flow.
    pub open spec fn after_flow_pn(self, pn: u64) -> McView {
        McView { recv_pns: self.recv_pns.insert(pn), ack_pending: true, ..self }
    }

    /// `MC_ACK` was transmitted.
    pub open spec fn after_ack_sent(self) -> McView {
        McView { ack_pending: false, ..self }
    }

    /// `MC_ACK` was lost.
    pub open spec fn after_ack_lost(self) -> McView {
        McView { ack_pending: true, ..self }
    }

    /// `MC_ACK` was acknowledged.
    pub open spec fn after_ack_acked(self, largest: Option<u64>) -> McView {
        match largest {
            Some(largest) => McView {
                recv_pns: self.recv_pns.difference(interval(0, largest + 1)),
                ..self
            },
            None => self,
        }
    }

    /// A client reported packet numbers.
    pub open spec fn after_report(self, pns: Set<u64>) -> McView {
        McView {
            acked_pns: Some(
                match self.acked_pns {
                    Some(acked) => acked.union(pns),
                    None => pns,
                },
            ),
            ..self
        }
    }

    /// A packet was decrypted and delivered.
    pub open spec fn after_packet(self, pn: u64) -> McView {
        McView {
            largest_pn: Some(
                match self.largest_pn {
                    Some(largest) => if largest >= pn {
                        largest
                    } else {
                        pn
                    },
                    None => pn,
                },
            ),
            ..self.after_flow_pn(pn)
        }
    }

    /// The reported packet numbers were taken for relay.
    pub open spec fn after_relay(self) -> McView {
        McView { acked_pns: None, ..self }
    }

    /// The basis for the reconstruction of the next packet number.
    pub open spec fn basis(self) -> int {
        match self.largest_pn {
            Some(largest) => largest as int,
            None => if self.flow.first_pn > 0 {
                self.flow.first_pn - 1
            } else {
                0
            },
        }
    }
}

impl MulticastData {
    /// The parts of the state are well-formed.
    pub closed spec fn wf(&self) -> bool {
        &&& self.flow_open matches Some(open) ==> open.wf()
        &&& self.flow_recv_pns.wf()
        &&& self.flow_acked_pns matches Some(pns) ==> pns.wf()
        &&& self@.sound()
    }

    /// Builds the `MC_FLOW` frame to advertise the flow if it is still
    /// scheduled for (re)transmission, otherwise returns `None`.
    pub fn pending_flow_frame(&self) -> (frame: Option<Frame>)
        ensures
            match frame {
                Some(frame) => self@.pending_flow() == Some(frame@),
                None => self@.pending_flow() is None,
            },
    {
        if self.mc_flow_sent {
            return None;
        }
        Some(self.mc_flow_info.to_frame())
    }

    /// Returns whether the client has acknowledged the `MC_FLOW` frame.
    pub fn is_flow_acked(&self) -> (b: bool)
        ensures
            b == self@.flow_acked,
    {
        self.mc_flow_acked
    }

    /// Marks the `MC_FLOW` frame as transmitted.
    pub fn mark_flow_sent(&mut self)
        requires
            old(self).wf(),
        ensures
            final(self).wf(),
            final(self)@ == old(self)@.after_flow_sent(),
    {
        self.mc_flow_sent = true;
    }

    /// Marks the `MC_FLOW` frame as acknowledged, retiring it.
    pub fn mark_flow_acked(&mut self)
        requires
            old(self).wf(),
        ensures
            final(self).wf(),
            final(self)@ == old(self)@.after_flow_acked(),
    {
        // Ensure a scheduled retransmission is aborted.
        self.mc_flow_sent = true;
        self.mc_flow_acked = true;
    }

    /// Reschedules the `MC_FLOW` frame after a loss, unless it was already
    /// acknowledged.
    pub fn mark_flow_lost(&mut self)
        requires
            old(self).wf(),
        ensures
            final(self).wf(),
            final(self)@ == old(self)@.after_flow_lost(),
    {
        if !self.mc_flow_acked {
            self.mc_flow_sent = false;
        }
    }

    /// Client: records a packet number received on the flow and schedules an
    /// `MC_ACK` to report it.
    pub(crate) fn record_flow_pn(&mut self, pn: u64)
        requires
            old(self).wf(),
            pn < u64::MAX,
        ensures
            final(self).wf(),
            final(self)@ == old(self)@.after_flow_pn(pn),
    {
        self.flow_recv_pns.insert(pn..pn + 1);
        assert(self.flow_recv_pns@ =~= old(self).flow_recv_pns@.insert(pn));
        self.flow_ack_pending = true;
    }

    /// Client: builds the `MC_ACK` frame reporting the received flow packet
    /// numbers if one is scheduled, otherwise returns `None`.
    pub fn pending_ack_frame(&self) -> (frame: Option<Frame>)
        requires
            self.wf(),
        ensures
            match frame {
                Some(frame) => self@.pending_ack() == Some(frame@) && frame.wf(),
                None => self@.pending_ack() is None,
            },
    {
        if !self.flow_ack_pending || self.flow_recv_pns.len() == 0 {
            return None;
        }
        Some(
            Frame::McAck {
                flow_id: self.mc_flow_info.flow_id.clone(),
                ack_delay: 0,
                ranges: self.flow_recv_pns.clone(),
            },
        )
    }

    /// Client: marks the `MC_ACK` frame as transmitted.
    pub fn mark_ack_sent(&mut self)
        requires
            old(self).wf(),
        ensures
            final(self).wf(),
            final(self)@ == old(self)@.after_ack_sent(),
    {
        self.flow_ack_pending = false;
    }

    /// Client: reschedules an `MC_ACK` after a loss, so the latest reception
    /// state is reported again.
    pub fn mark_ack_lost(&mut self)
        requires
            old(self).wf(),
        ensures
            final(self).wf(),
            final(self)@ == old(self)@.after_ack_lost(),
    {
        self.flow_ack_pending = true;
    }

    /// Client: the `MC_ACK` frame is acknowledged by the server. Remove the
    /// reported packet numbers up to the largest acknowledged, so they are no
    /// longer re-sent in later `MC_ACK` frames.
    pub fn remove_ack_up_to(&mut self, largest: Option<u64>)
        requires
            old(self).wf(),
        ensures
            final(self).wf(),
            final(self)@ == old(self)@.after_ack_acked(largest),
    {
        if let Some(largest) = largest {
            self.flow_recv_pns.remove_until(largest);
        }
    }

    /// Server: merges the packet numbers reported by a client `MC_ACK` into the
    /// set awaiting relay to the standalone sender connection.
    pub fn store_flow_ack(&mut self, ranges: RangeSet)
        requires
            old(self).wf(),
            ranges.wf(),
        ensures
            final(self).wf(),
            final(self)@ == old(self)@.after_report(ranges@),
    {
        let mut acked = match self.flow_acked_pns.take() {
            Some(acked) => acked,
            None => RangeSet::default(),
        };
        let ghost before = acked@;
        acked.insert_all(&ranges);
        assert(before == Set::<u64>::empty() ==> acked@ =~= ranges@);
        self.flow_acked_pns = Some(acked);
    }
}

/// A packet number space.
#[derive(Clone, Copy, Debug, PartialEq, Eq, Structural)]
pub enum Epoch {
    Initial,
    Handshake,
    Application,
}

/// What the loss recovery of the sender is told about received packets.
pub struct AckReceived {
    /// The packet numbers.
    pub ranges: RangeSet,
    /// The delay between reception and report, in microseconds.
    pub ack_delay: u64,
    /// The packet number space.
    pub epoch: Epoch,
    /// The packet number that was skipped on purpose, if one was.
    pub skip_pn: Option<u64>,
    /// How far the sender's handshake has come.
    pub handshake_status: HandshakeStatus,
}

impl Connection {
    /// Registers, on the server, a multicast flow to advertise to the client
    /// over its unicast connection.
    ///
    /// The `MC_FLOW` frame describing the flow is scheduled for transmission
    /// and retransmitted using normal QUIC loss recovery until acknowledged.
    ///
    /// Nothing happens if the client did not advertise the `multicast_support`
    /// transport parameter, or if a flow has been registered already.
    pub fn mc_provide_flow(
        &mut self,
        flow_id: Vec<u8>,
        source_ip: IpAddr,
        group_ip: IpAddr,
        udp_port: u16,
        cipher_suite: u16,
        first_pn: u64,
        secret: Vec<u8>,
    ) -> (r: Result<(), Error>)
        requires
            old(self).wf(),
        ensures
            final(self).wf(),
            r matches Err(e) ==> e == Error::Multicast(McError::McFlow),
            r is Err <==> !old(self)@.is_server || (old(self)@.peer_multicast_support && !(1
                <= flow_id@.len() <= MAX_CID_LEN)),
            final(self)@ == (ConnView {
                multicast: if r is Ok && old(self)@.peer_multicast_support && old(
                    self,
                )@.multicast is None {
                    Some(
                        McView {
                            flow: FlowView {
                                flow_id: flow_id@,
                                source_ip,
                                group_ip,
                                udp_port,
                                cipher_suite,
                                first_pn,
                                secret: secret@,
                            },
                            flow_sent: false,
                            flow_acked: false,
                            open: None,
                            largest_pn: None,
                            recv_pns: Set::empty(),
                            ack_pending: false,
                            acked_pns: None,
                        },
                    )
                } else {
                    old(self)@.multicast
                },
                ..old(self)@
            }),
    {
        if !self.is_server {
            return Err(Error::Multicast(McError::McFlow));
        }
        // A server MUST NOT send MC_FLOW to a client that did not advertise
        // multicast support.
        if !self.peer_multicast_support {
            return Ok(());
        }
        match check_flow_id(flow_id.as_slice()) {
            Ok(()) => (),
            Err(e) => return Err(e),
        }
        if self.multicast.is_none() {
            self.multicast = Some(
                MulticastData {
                    mc_flow_info: McFlowInfo {
                        flow_id,
                        source_ip,
                        group_ip,
                        udp_port,
                        cipher_suite,
                        first_pn,
                        secret,
                    },
                    mc_flow_sent: false,
                    mc_flow_acked: false,
                    flow_open: None,
                    flow_largest_pn: None,
                    flow_recv_pns: RangeSet::default(),
                    flow_ack_pending: false,
                    flow_acked_pns: None,
                },
            );
        }
        Ok(())
    }

    /// Creates state on the client for the advertised multicast flow.
    pub fn mc_new_from_info(
        &mut self,
        flow_id: Vec<u8>,
        source_ip: IpAddr,
        group_ip: IpAddr,
        udp_port: u16,
        cipher_suite: u16,
        first_pn: u64,
        secret: Vec<u8>,
    ) -> (r: Result<(), Error>)
        requires
            old(self).wf(),
            secret@.len() < SECRET_LIMIT,
        ensures
            final(self).wf(),
            match suite_alg(cipher_suite) {
                Some(alg) => r is Ok && final(self)@ == (ConnView {
                    multicast: Some(
                        McView {
                            flow: FlowView {
                                flow_id: flow_id@,
                                source_ip,
                                group_ip,
                                udp_port,
                                cipher_suite,
                                first_pn,
                                secret: secret@,
                            },
                            flow_sent: true,
                            flow_acked: true,
                            open: Some(keys_from_secret(alg, secret@)),
                            largest_pn: None,
                            recv_pns: Set::empty(),
                            ack_pending: false,
                            acked_pns: None,
                        },
                    ),
                    ..old(self)@
                }),
                None => r == Err::<(), Error>(Error::Multicast(McError::McFlow)) && final(self)@
                    == old(self)@,
            },
    {
        // Derive the flow key context from the secret, exactly as from a 1-RTT
        // application traffic secret.
        let alg = match alg_from_cipher_suite(cipher_suite) {
            Ok(alg) => alg,
            Err(e) => return Err(e),
        };
        let flow_open = match Open::from_secret(alg, secret.as_slice()) {
            Ok(open) => open,
            Err(_) => return Err(Error::Multicast(McError::McFlow)),
        };
        self.multicast = Some(
            MulticastData {
                mc_flow_info: McFlowInfo {
                    flow_id,
                    source_ip,
                    group_ip,
                    udp_port,
                    cipher_suite,
                    first_pn,
                    secret,
                },
                // Not meaningful on the client; the client never sends MC_FLOW.
                mc_flow_sent: true,
                mc_flow_acked: true,
                flow_open: Some(flow_open),
                flow_largest_pn: None,
                flow_recv_pns: RangeSet::default(),
                flow_ack_pending: false,
                flow_acked_pns: None,
            },
        );
        Ok(())
    }

    /// Delivers a `STREAM` frame received on the flow into the receiver's
    /// stream reassembly buffers, so the application observes the data through
    /// [`Connection::stream_recv`] and [`Connection::readable`].
    ///
    /// There is no return channel on the flow to raise limits or send ACKs.
    pub fn mc_deliver_stream(&mut self, stream_id: u64, data: RangeBuf) -> (r: Result<(), Error>)
        requires
            old(self).wf(),
            data.wf(),
        ensures
            final(self).wf(),
            (final(self)@, r) == old(self)@.stream_delivered(
                stream_id,
                data.off,
                data.data@,
                data.fin,
            ),
    {
        let max_rx_data_left: u64 = self.flow_control.max_data - self.rx_data;
        let ghost before = self.streams@.live;
        proof {
            self.streams.lemma_finite();
            self.streams.lemma_sound();
        }
        // Get the existing stream or create a new one, ignoring frames for a
        // stream that has already been closed and collected.
        match self.streams.get_or_create(stream_id) {
            Ok(()) => (),
            Err(Error::Done) => return Ok(()),
            Err(e) => return Err(e),
        }
        let ghost live = self.streams@.live;
        proof {
            self.streams.lemma_finite();
            self.streams.lemma_sound();
            lemma_outstanding_insert(before, stream_id, live[stream_id]);
            assert(live =~= before.insert(stream_id, live[stream_id]));
            assert(self@.balanced());
        }
        let (recv_max_off, was_draining): (u64, bool) = match self.streams.get(stream_id) {
            Some(stream) => (stream.max_off(), stream.is_draining()),
            None => return Err(Error::InvalidStreamState(stream_id)),
        };
        // Enforce the connection-level flow control limit; on the flow this
        // should never bind as limits are provisioned large up front.
        let max_off_delta: u64 = data.max_off().saturating_sub(recv_max_off);
        if max_off_delta > max_rx_data_left {
            return Err(Error::FlowControl);
        }
        match self.streams.write(stream_id, &data) {
            Ok(()) => (),
            Err(e) => return Err(e),
        }
        proof {
            let after = self.streams@.live[stream_id];
            lemma_outstanding_insert(live, stream_id, after);
            lemma_outstanding_bound(live.remove(stream_id));
            self.streams.lemma_sound();
            assert(self.streams@.live =~= live.insert(stream_id, after));
        }
        self.rx_data = self.rx_data + max_off_delta;
        if was_draining {
            self.flow_control.consumed = self.flow_control.consumed + max_off_delta;
        }
        Ok(())
    }

    /// Delivers the frames of a decrypted payload.
    pub fn mc_deliver(&mut self, payload: &[u8]) -> (r: Result<(), Error>)
        requires
            old(self).wf(),
        ensures
            final(self).wf(),
            (final(self)@, r) == old(self)@.delivered(payload@),
    {
        let mut b = Octets::with_slice(payload);
        assert(unread(b) =~= payload@);
        // Keep only the frames carrying application data; any other frame type
        // (ACK, flow control, ...) is meaningless on the one-way flow.
        while b.cap() > 0
            invariant
                live(b),
                self.wf(),
                old(self)@.delivered(payload@) == self@.delivered(unread(b)),
            decreases unread(b).len(),
        {
            proof {
                lemma_take_frame(unread(b));
            }
            match Frame::from_bytes(&mut b) {
                Ok(Frame::Datagram { data }) => {
                    if self.dgram_recv_queue.is_full() {
                        self.dgram_recv_queue.pop();
                    }
                    match self.dgram_recv_queue.push(data) {
                        Ok(()) => (),
                        Err(e) => return Err(e),
                    }
                    self.dgram_recv_count = self.dgram_recv_count.saturating_add(1);
                },
                Ok(Frame::Stream { stream_id, data }) => {
                    match self.mc_deliver_stream(stream_id, data) {
                        Ok(()) => (),
                        Err(e) => return Err(e),
                    }
                },
                Ok(_) => (),
                Err(_) => return Err(Error::Multicast(McError::McFlow)),
            }
        }
        Ok(())
    }

    /// Takes in the decrypted payload of packet number `pn` of the flow: its
    /// frames are delivered, and then its number is noted, to be acknowledged.
    pub fn mc_process(&mut self, pn: u64, payload: &[u8]) -> (r: Result<(), Error>)
        requires
            old(self).wf(),
            pn < u64::MAX,
        ensures
            final(self).wf(),
            (final(self)@, r) == old(self)@.processed(pn, payload@),
    {
        match self.mc_deliver(payload) {
            Ok(()) => (),
            Err(e) => return Err(e),
        }
        proof {
            law_delivery_keeps_flow(old(self)@, payload@);
        }
        // Update the largest packet number seen on the flow and record it for
        // acknowledgement back to the server.
        if let Some(mut mc) = self.multicast.take() {
            mc.flow_largest_pn = match mc.flow_largest_pn {
                Some(largest) if largest >= pn => Some(largest),
                _ => Some(pn),
            };
            mc.record_flow_pn(pn);
            self.multicast = Some(mc);
        }
        Ok(())
    }

    /// Processes a QUIC packet received on the multicast flow socket.
    ///
    /// The packet is a 1-RTT short-header packet whose Destination Connection
    /// ID is the Flow ID. It is decrypted with the flow key context in the flow
    /// packet-number space. Its `DATAGRAM` frames are delivered to the
    /// application exactly like unicast datagrams (retrieved with
    /// [`Connection::dgram_recv`]), and its `STREAM` frames are delivered into
    /// the receiver's stream reassembly buffers (retrieved with
    /// [`Connection::stream_recv`]). All other frame types are ignored; a frame of
    /// an unknown type is, with all that follows it in the packet.
    pub fn mc_recv(&mut self, buf: &mut [u8], _info: RecvInfo) -> (r: Result<usize, Error>)
        requires
            old(self).wf(),
            old(self)@.basis_in_range(),
        ensures
            final(self).wf(),
            (final(self)@, r) == old(self)@.received(old(buf)@),
            final(buf)@ == old(self)@.buffer_received(old(buf)@),
    {
        let mc = match &self.multicast {
            Some(mc) => mc,
            None => return Err(Error::Multicast(McError::McFlow)),
        };
        let open = match &mc.flow_open {
            Some(open) => open,
            None => return Err(Error::Multicast(McError::McFlow)),
        };
        // Reconstruct the full packet number in the flow space.
        let largest: u64 = match mc.flow_largest_pn {
            Some(largest) => largest,
            None => mc.mc_flow_info.first_pn.saturating_sub(1),
        };
        let len: usize = buf.len();
        // Only 1-RTT short-header packets addressed to the Flow ID belong to
        // the flow.
        let packet = match open_packet(buf, mc.mc_flow_info.flow_id.as_slice(), open, largest) {
            Some(packet) => packet,
            None => return Err(Error::Multicast(McError::McFlow)),
        };
        match self.mc_process(packet.pn, packet.payload.as_slice()) {
            Ok(()) => Ok(len - TAG_LEN),
            Err(e) => Err(e),
        }
    }

    /// Returns the flow traffic secret of a multicast sender connection, to be
    /// advertised to clients via [`Connection::mc_provide_flow`].
    pub fn mc_flow_secret(&self) -> (secret: Option<&[u8]>)
        ensures
            match secret {
                Some(secret) => self@.multicast matches Some(mc) && secret@ == mc.flow.secret,
                None => self@.multicast is None,
            },
    {
        match &self.multicast {
            Some(mc) => Some(mc.mc_flow_info.secret.as_slice()),
            None => None,
        }
    }

    /// Returns the cipher suite of a multicast sender connection, to be
    /// advertised to clients via [`Connection::mc_provide_flow`].
    pub fn mc_flow_cipher_suite(&self) -> (suite: Option<u16>)
        ensures
            match suite {
                Some(suite) => self@.multicast matches Some(mc) && suite == mc.flow.cipher_suite,
                None => self@.multicast is None,
            },
    {
        match &self.multicast {
            Some(mc) => Some(mc.mc_flow_info.cipher_suite),
            None => None,
        }
    }

    /// Returns whether the server should schedule an `MC_FLOW` frame for
    /// transmission on the unicast connection.
    pub fn mc_should_send_flow(&self) -> (b: bool)
        ensures
            b == self@.should_send_flow(),
            b <==> self@.is_server && self@.multicast is Some && !self@.multicast->0.flow_sent,
    {
        match &self.multicast {
            Some(mc) => self.is_server && !mc.mc_flow_sent,
            None => false,
        }
    }

    /// Returns whether the client should schedule an `MC_ACK` frame for
    /// transmission on the unicast connection.
    pub fn mc_should_send_ack(&self) -> (b: bool)
        ensures
            b == self@.should_send_ack(),
            b <==> !self@.is_server && self@.multicast is Some && self@.multicast->0.ack_pending,
    {
        match &self.multicast {
            Some(mc) => !self.is_server && mc.flow_ack_pending,
            None => false,
        }
    }

    /// Returns the flow packet numbers reported as received by the client in
    /// `MC_ACK` frames since the previous call, for relay to the standalone
    /// sender connection. Server only.
    pub fn mc_take_flow_ack(&mut self) -> (acked: Option<RangeSet>)
        requires
            old(self).wf(),
        ensures
            final(self).wf(),
            match old(self)@.multicast {
                Some(mc) => {
                    &&& match acked {
                        Some(acked) => acked.wf() && mc.acked_pns == Some(acked@),
                        None => mc.acked_pns is None,
                    }
                    &&& final(self)@ == (ConnView {
                        multicast: Some(mc.after_relay()),
                        ..old(self)@
                    })
                },
                None => acked is None && final(self)@ == old(self)@,
            },
    {
        match self.multicast.take() {
            Some(mut mc) => {
                let acked = mc.flow_acked_pns.take();
                self.multicast = Some(mc);
                acked
            },
            None => None,
        }
    }

    /// Works out what flow packet numbers reported by the receivers (obtained
    /// on the unicast connection with [`Connection::mc_take_flow_ack`]) mean to
    /// the standalone sender's loss recovery, in the flow (Application) packet
    /// number space. There is nothing to acknowledge without a largest reported
    /// packet number.
    ///
    /// This drives the sender's ordinary QUIC loss detection: packets missing
    /// from the reported ranges are eventually declared lost and their `STREAM`
    /// data is retransmitted. Call on the connection returned by
    /// [`mc_flow::mc_new_flow`].
    pub fn mc_on_flow_ack(&mut self, ranges: &RangeSet) -> (r: Result<Option<AckReceived>, Error>)
        requires
            old(self).wf(),
            ranges.wf(),
        ensures
            *final(self) == *old(self),
            match r {
                Ok(None) => ranges@ == Set::<u64>::empty(),
                Ok(Some(ack)) => ranges@ != Set::<u64>::empty() && old(self)@.active_path is Some
                    && ack.ranges.wf() && ack.ranges@ == ranges@ && ack.ack_delay == 0 && ack.epoch
                    == Epoch::Application && ack.skip_pn == old(self)@.skip_pn
                    && ack.handshake_status == old(self)@.handshake_status,
                Err(e) => ranges@ != Set::<u64>::empty() && old(self)@.active_path is None && e
                    == Error::InvalidState,
            },
    {
        if ranges.last().is_none() {
            return Ok(None);
        }
        if self.active_path.is_none() {
            return Err(Error::InvalidState);
        }
        // The relayed report carries no meaningful delay; use zero.
        Ok(
            Some(
                AckReceived {
                    ranges: ranges.clone(),
                    ack_delay: 0,
                    epoch: Epoch::Application,
                    skip_pn: self.skip_pn,
                    handshake_status: self.handshake_status,
                },
            ),
        )
    }

    /// Returns the largest flow packet number the sender considers resolved
    /// (acknowledged by all receivers, or declared lost and re-sent under a new
    /// packet number). Receiver state up to it can be dropped with
    /// [`aggregator::McAckAggregator::prune`]. Call on the connection returned
    /// by [`mc_flow::mc_new_flow`]; returns `None` when nothing has been
    /// resolved yet.
    pub fn mc_flow_prune_pn(&self) -> (pn: Option<u64>)
        ensures
            pn == self@.resolved_pn(),
            pn matches Some(pn) ==> self@.active_path is Some && pn + 1 == (
            match self@.active_path->0.oldest_sent_pkt_num {
                Some(oldest) => oldest,
                None => self@.active_path->0.next_pkt_num,
            }),
    {
        let path = match self.active_path {
            Some(path) => path,
            None => return None,
        };
        // Everything below the oldest still-tracked packet is resolved, and
        // everything that was sent once none is tracked.
        let next: u64 = match path.oldest_sent_pkt_num {
            Some(oldest) => oldest,
            None => path.next_pkt_num,
        };
        match &self.multicast {
            Some(mc) => if next > mc.mc_flow_info.first_pn {
                Some(next - 1)
            } else {
                None
            },
            None => match path.oldest_sent_pkt_num {
                Some(oldest) => oldest.checked_sub(1),
                None => None,
            },
        }
    }

    /// Returns the multicast state, for the transport to build the frames that
    /// are scheduled.
    pub fn multicast(&self) -> (mc: Option<&MulticastData>)
        requires
            self.wf(),
        ensures
            match mc {
                Some(mc) => mc.wf() && self@.multicast == Some(mc@),
                None => self@.multicast is None,
            },
    {
        self.multicast.as_ref()
    }

    /// Returns the multicast state, for the transport to note what became of
    /// the frames that were scheduled.
    pub fn multicast_mut(&mut self) -> (mc: Option<&mut MulticastData>)
        requires
            old(self).wf(),
        ensures
            match mc {
                Some(mc) => {
                    &&& mc.wf()
                    &&& old(self)@.multicast == Some(mc@)
                    &&& final(mc).wf() && (mc@.flow_acked ==> final(mc)@.flow_acked)
                        ==> final(self).wf()
                    &&& final(self)@ == (ConnView {
                        multicast: Some(final(mc)@),
                        ..old(self)@
                    })
                },
                None => old(self)@.multicast is None && final(self).wf() && final(self)@ == old(
                    self,
                )@,
            },
    {
        match &mut self.multicast {
            Some(mc) => Some(mc),
            None => None,
        }
    }

    /// Returns whether the basis for packet numbers leaves room to reconstruct
    /// the next one, as [`Connection::mc_recv`] must be able to.
    pub fn mc_basis_in_range(&self) -> (b: bool)
        ensures
            b == self@.basis_in_range(),
    {
        match &self.multicast {
            Some(mc) => {
                if mc.flow_open.is_none() {
                    return true;
                }
                match mc.flow_largest_pn {
                    Some(largest) => largest <= MAX_PKT_NUM_BASIS,
                    None => mc.mc_flow_info.first_pn.saturating_sub(1) <= MAX_PKT_NUM_BASIS,
                }
            },
            None => true,
        }
    }
}

} // verus!
