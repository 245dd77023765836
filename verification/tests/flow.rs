//! A flow from its sender to a receiver, and reports back.

use mcquic::connection::{ActivePath, Connection, HandshakeStatus};
use mcquic::crypto::Algorithm;
use mcquic::error::Error;
use mcquic::frame::Frame;
use mcquic::multicast::aggregator::McAckAggregator;
use mcquic::multicast::error::McError;
use mcquic::multicast::mc_flow::{cipher_suite_from_alg, mc_new_flow, Handshake, Seal};
use mcquic::multicast::{alg_from_cipher_suite, check_flow_id, Epoch};
use mcquic::net::{IpAddr, RecvInfo, SocketAddr};
use mcquic::ranges::RangeSet;
use mcquic::stream::RangeBuf;
use mcquic::streams::StreamLimits;
use mcquic::wire::encode_flow;
use octets::Octets;

const FAILED: Error = Error::Multicast(McError::McFlow);

fn ip4(a: u8, b: u8, c: u8, d: u8) -> IpAddr {
    IpAddr::V4(u32::from_be_bytes([a, b, c, d]))
}

/// The limits of a client with little room.
fn small_limits() -> StreamLimits {
    StreamLimits {
        max_streams_bidi: 3,
        max_streams_uni: 3,
        max_stream_data_bidi: 15,
        max_stream_data_uni: 0,
    }
}

/// Generous limits, so that sender and receiver can move stream data.
fn flow_limits() -> StreamLimits {
    StreamLimits {
        max_streams_bidi: 10,
        max_streams_uni: 10,
        max_stream_data_bidi: 100_000,
        max_stream_data_uni: 100_000,
    }
}

/// The two sides of a unicast connection.
struct Pipe {
    client: Connection,
    server: Connection,
}

impl Pipe {
    fn new(multicast_support: bool, max_data: u64, limits: StreamLimits) -> Pipe {
        Pipe {
            client: Connection::new(false, false, max_data, limits, 10),
            server: Connection::new(true, multicast_support, max_data, limits, 10),
        }
    }

    /// Exchanges the frames that are scheduled, and acknowledges them.
    fn advance(&mut self) {
        if self.server.mc_should_send_flow() {
            let mc = self.server.multicast().unwrap();
            assert!(matches!(mc.pending_flow_frame(), Some(Frame::McFlow { .. })));
            let bytes = encode_flow(self.server.mc_get_flow_info().unwrap()).unwrap();
            let mc = self.server.multicast_mut().unwrap();
            mc.mark_flow_sent();
            match Frame::from_bytes(&mut Octets::with_slice(&bytes)) {
                Ok(Frame::McFlow {
                    flow_id,
                    source_ip,
                    group_ip,
                    udp_port,
                    cipher_suite,
                    first_pn,
                    secret,
                }) => self
                    .client
                    .mc_new_from_info(
                        flow_id,
                        source_ip,
                        group_ip,
                        udp_port,
                        cipher_suite,
                        first_pn,
                        secret,
                    )
                    .unwrap(),
                _ => panic!("not an advertisement"),
            }
            mc.mark_flow_acked();
        }
        if self.client.mc_should_send_ack() {
            let mc = self.client.multicast_mut().unwrap();
            let (ranges, largest) = match mc.pending_ack_frame() {
                Some(Frame::McAck { ranges, ack_delay, .. }) => {
                    assert_eq!(ack_delay, 0);
                    let largest = ranges.last();
                    (ranges, largest)
                },
                _ => panic!("not a report"),
            };
            mc.mark_ack_sent();
            self.server.multicast_mut().unwrap().store_flow_ack(ranges);
            mc.remove_ack_up_to(largest);
        }
    }
}

type Flow = (Vec<u8>, IpAddr, IpAddr, u16, u16, u64, Vec<u8>);

fn sample_flow() -> Flow {
    (
        vec![0x11; 8],
        ip4(192, 0, 2, 1),
        ip4(232, 1, 2, 3),
        4433,
        0x1301,
        42,
        vec![0xab; 32],
    )
}

#[test]
fn server_advertises_flow_to_capable_client() {
    let mut pipe = Pipe::new(true, 30, small_limits());

    let (flow_id, src, grp, port, suite, first_pn, secret) = sample_flow();
    pipe.server
        .mc_provide_flow(flow_id.clone(), src, grp, port, suite, first_pn, secret.clone())
        .unwrap();

    // The server has a pending, un-acked flow advertisement.
    assert!(pipe.server.mc_should_send_flow());

    // Flush the MC_FLOW frame to the client and its ACK back.
    pipe.advance();

    // The client installed the advertised flow.
    let info = pipe.client.mc_get_flow_info().unwrap();
    assert_eq!(info.flow_id, flow_id);
    assert_eq!(info.source_ip, src);
    assert_eq!(info.group_ip, grp);
    assert_eq!(info.udp_port, port);
    assert_eq!(info.cipher_suite, suite);
    assert_eq!(info.first_pn, first_pn);
    assert_eq!(info.secret, secret);

    // The server retired the frame after acknowledgement.
    let server_mc = pipe.server.multicast().unwrap();
    assert!(server_mc.is_flow_acked());
    assert!(!pipe.server.mc_should_send_flow());
}

#[test]
fn provide_flow_requires_client_support() {
    // Client does not advertise multicast support.
    let mut pipe = Pipe::new(false, 30, small_limits());

    // Providing a flow to a client without multicast support is a no-op: it
    // succeeds but installs nothing and schedules no advertisement.
    let (flow_id, src, grp, port, suite, first_pn, secret) = sample_flow();
    assert_eq!(
        pipe.server.mc_provide_flow(flow_id, src, grp, port, suite, first_pn, secret),
        Ok(())
    );
    assert!(pipe.server.multicast().is_none());
    assert!(!pipe.server.mc_should_send_flow());
}

#[test]
fn provide_flow_rejects_non_server() {
    let mut pipe = Pipe::new(true, 30, small_limits());

    // A client must not originate an MC_FLOW advertisement.
    let (flow_id, src, grp, port, suite, first_pn, secret) = sample_flow();
    assert_eq!(
        pipe.client.mc_provide_flow(flow_id, src, grp, port, suite, first_pn, secret),
        Err(Error::Multicast(McError::McFlow))
    );
}

#[test]
fn provide_flow_checks_the_flow_id_and_keeps_the_first_flow() {
    let mut pipe = Pipe::new(true, 30, small_limits());
    let (flow_id, src, grp, port, suite, first_pn, secret) = sample_flow();
    for len in [0, 21, 300] {
        assert_eq!(check_flow_id(&vec![1; len]), Err(FAILED));
        assert_eq!(
            pipe.server.mc_provide_flow(
                vec![1; len],
                src,
                grp,
                port,
                suite,
                first_pn,
                secret.clone()
            ),
            Err(FAILED)
        );
        assert!(pipe.server.multicast().is_none());
    }
    assert_eq!(check_flow_id(&[1; 20]), Ok(()));
    assert_eq!(check_flow_id(&[1]), Ok(()));
    pipe.server
        .mc_provide_flow(flow_id.clone(), src, grp, port, suite, first_pn, secret.clone())
        .unwrap();
    pipe.server.mc_provide_flow(vec![7], src, grp, 1, 2, 3, vec![]).unwrap();
    let info = pipe.server.mc_get_flow_info().unwrap();
    assert_eq!(info.flow_id, flow_id);
    assert_eq!(pipe.server.mc_flow_secret(), Some(&secret[..]));
    assert_eq!(pipe.server.mc_flow_cipher_suite(), Some(0x1301));
}

#[test]
fn lost_advertisements_are_repeated_until_acknowledged() {
    let mut pipe = Pipe::new(true, 30, small_limits());
    let (flow_id, src, grp, port, suite, first_pn, secret) = sample_flow();
    pipe.server.mc_provide_flow(flow_id, src, grp, port, suite, first_pn, secret).unwrap();

    let mc = pipe.server.multicast_mut().unwrap();
    mc.mark_flow_sent();
    assert!(mc.pending_flow_frame().is_none());
    mc.mark_flow_lost();
    assert!(mc.pending_flow_frame().is_some());
    mc.mark_flow_sent();
    mc.mark_flow_acked();
    mc.mark_flow_lost();
    assert!(mc.pending_flow_frame().is_none());
    assert!(!pipe.server.mc_should_send_flow());
}

// What a sender protects its packets with, from a traffic secret.
struct Protection {
    key: ring::aead::LessSafeKey,
    iv: Vec<u8>,
    hp: ring::aead::quic::HeaderProtectionKey,
}

struct Len(usize);

impl ring::hkdf::KeyType for Len {
    fn len(&self) -> usize {
        self.0
    }
}

impl Protection {
    fn new(alg: Algorithm, secret: &[u8]) -> Protection {
        let (hash, aead, quic, key_len) = match alg {
            Algorithm::AES128_GCM => (
                ring::hkdf::HKDF_SHA256,
                &ring::aead::AES_128_GCM,
                &ring::aead::quic::AES_128,
                16,
            ),
            Algorithm::AES256_GCM => (
                ring::hkdf::HKDF_SHA384,
                &ring::aead::AES_256_GCM,
                &ring::aead::quic::AES_256,
                32,
            ),
            Algorithm::ChaCha20_Poly1305 => (
                ring::hkdf::HKDF_SHA256,
                &ring::aead::CHACHA20_POLY1305,
                &ring::aead::quic::CHACHA20,
                32,
            ),
        };
        let expand = |label: &str, len: usize| {
            let label = format!("tls13 {label}");
            let mut info = vec![(len >> 8) as u8, len as u8, label.len() as u8];
            info.extend_from_slice(label.as_bytes());
            info.push(0);
            let prk = ring::hkdf::Prk::new_less_safe(hash, secret);
            let mut out = vec![0; len];
            prk.expand(&[&info], Len(len)).unwrap().fill(&mut out).unwrap();
            out
        };
        let key = ring::aead::UnboundKey::new(aead, &expand("quic key", key_len)).unwrap();
        Protection {
            key: ring::aead::LessSafeKey::new(key),
            iv: expand("quic iv", 12),
            hp: ring::aead::quic::HeaderProtectionKey::new(quic, &expand("quic hp", key_len))
                .unwrap(),
        }
    }

    /// Builds a short-header packet with a packet number of `pn_len` bytes.
    fn seal(&self, dcid: &[u8], pn: u64, pn_len: usize, payload: &[u8]) -> Vec<u8> {
        let mut pkt = vec![0x40 | (pn_len - 1) as u8];
        pkt.extend_from_slice(dcid);
        pkt.extend_from_slice(&pn.to_be_bytes()[8 - pn_len..]);
        let mut nonce = self.iv.clone();
        for (n, b) in nonce[4..].iter_mut().zip(pn.to_be_bytes()) {
            *n ^= b;
        }
        let mut sealed = payload.to_vec();
        self.key
            .seal_in_place_append_tag(
                ring::aead::Nonce::try_assume_unique_for_key(&nonce).unwrap(),
                ring::aead::Aad::from(&pkt),
                &mut sealed,
            )
            .unwrap();
        pkt.extend_from_slice(&sealed);
        let pn_off = 1 + dcid.len();
        let mask = self.hp.new_mask(&pkt[pn_off + 4..pn_off + 20]).unwrap();
        pkt[0] ^= mask[0] & 0x1f;
        for i in 0..pn_len {
            pkt[pn_off + i] ^= mask[1 + i];
        }
        pkt
    }
}

fn varint(v: u64) -> Vec<u8> {
    (0xc000_0000_0000_0000 | v).to_be_bytes().to_vec()
}

fn stream_frame(stream_id: u64, off: u64, data: &[u8], fin: bool) -> Vec<u8> {
    let mut f = vec![0x0e | fin as u8];
    f.extend(varint(stream_id));
    f.extend(varint(off));
    f.extend(varint(data.len() as u64));
    f.extend_from_slice(data);
    f
}

fn dgram_frame(data: &[u8]) -> Vec<u8> {
    let mut f = vec![0x31];
    f.extend(varint(data.len() as u64));
    f.extend_from_slice(data);
    f
}

/// A multicast sender with packet-threshold loss detection.
struct Sender {
    conn: Connection,
    protection: Protection,
    next_pn: u64,
    /// What is to be sent: stream, offset, data, end of the stream.
    queue: Vec<(u64, u64, Vec<u8>, bool)>,
    in_flight: Vec<(u64, (u64, u64, Vec<u8>, bool))>,
}

impl Sender {
    fn new(flow_id: Vec<u8>, alg: Algorithm) -> Sender {
        let secret = vec![0x5c; 32];
        let conn = mc_new_flow(
            Handshake::Completed {
                sender: Connection::new(true, false, 100_000, flow_limits(), 10),
                seal: Some(Seal { secret: secret.clone(), alg }),
                next_pkt_num: 3,
            },
            flow_id,
            ip4(192, 0, 2, 1),
            ip4(232, 1, 2, 3),
            4433,
        )
        .unwrap();
        let mut sender = Sender {
            conn,
            protection: Protection::new(alg, &secret),
            next_pn: 3,
            queue: Vec::new(),
            in_flight: Vec::new(),
        };
        sender.update_path();
        sender
    }

    /// Tells the connection what loss recovery tracks.
    fn update_path(&mut self) {
        let path = ActivePath {
            oldest_sent_pkt_num: self.in_flight.first().map(|p| p.0),
            next_pkt_num: self.next_pn,
        };
        self.conn.set_active_path(Some(path), None);
    }

    fn stream_send(&mut self, stream_id: u64, data: &[u8], fin: bool) {
        let n = data.chunks(1100).count();
        for (i, c) in data.chunks(1100).enumerate() {
            self.queue.push((stream_id, 1100 * i as u64, c.to_vec(), fin && i + 1 == n));
        }
    }

    fn seal(&mut self, payload: &[u8]) -> Vec<u8> {
        let flow_id = self.conn.mc_get_flow_info().unwrap().flow_id.clone();
        self.next_pn += 1;
        self.protection.seal(&flow_id, self.next_pn - 1, 4, payload)
    }

    fn send(&mut self) -> Result<Vec<u8>, Error> {
        if self.queue.is_empty() {
            return Err(Error::Done);
        }
        let chunk = self.queue.remove(0);
        let payload = stream_frame(chunk.0, chunk.1, &chunk.2, chunk.3);
        self.in_flight.push((self.next_pn, chunk));
        let pkt = self.seal(&payload);
        self.update_path();
        Ok(pkt)
    }

    fn on_flow_ack(&mut self, acked: &RangeSet) -> Result<(), Error> {
        let ack = match self.conn.mc_on_flow_ack(acked)? {
            Some(ack) => ack,
            None => return Ok(()),
        };
        assert_eq!(ack.ack_delay, 0);
        assert_eq!(ack.epoch, Epoch::Application);
        let largest = ack.ranges.last().unwrap();
        let mut left = Vec::new();
        for (pn, chunk) in self.in_flight.drain(..) {
            if ack.ranges.iter().iter().any(|r| r.contains(&pn)) {
                continue;
            } else if pn + 3 <= largest {
                self.queue.push(chunk);
            } else {
                left.push((pn, chunk));
            }
        }
        self.in_flight = left;
        self.update_path();
        Ok(())
    }
}

/// Creates a standalone sender for a flow and an established receiver with the
/// flow installed on it via an in-band `MC_FLOW` advertisement.
fn sender_and_receiver_with(flow_id: Vec<u8>, alg: Algorithm) -> (Sender, Pipe) {
    let sender = Sender::new(flow_id, alg);
    let info = sender.conn.mc_get_flow_info().unwrap().clone();

    let mut pipe = Pipe::new(true, 100_000, flow_limits());

    // The server advertises the sender's flow; the client installs it from the
    // MC_FLOW frame.
    pipe.server
        .mc_provide_flow(
            info.flow_id.clone(),
            info.source_ip,
            info.group_ip,
            info.udp_port,
            info.cipher_suite,
            info.first_pn,
            info.secret.clone(),
        )
        .unwrap();
    pipe.advance();
    assert!(pipe.client.multicast().is_some());

    (sender, pipe)
}

fn sender_and_receiver(flow_id: Vec<u8>) -> (Sender, Pipe) {
    sender_and_receiver_with(flow_id, Algorithm::AES128_GCM)
}

fn flow_recv_info() -> RecvInfo {
    RecvInfo {
        from: SocketAddr { ip: ip4(127, 0, 0, 1), port: 4433 },
        to: SocketAddr { ip: ip4(127, 0, 0, 1), port: 1234 },
    }
}

#[test]
fn flow_delivers_stream_to_receiver() {
    let (mut sender, mut pipe) = sender_and_receiver(vec![0x42; 8]);

    // The sender writes a unidirectional stream and produces a flow packet.
    let data = b"hello multicast";
    sender.stream_send(3, data, true);

    let mut buf = [0u8; 1500];
    let pkt = sender.send().unwrap();
    let len = pkt.len();
    buf[..len].copy_from_slice(&pkt);

    pipe.client.mc_recv(&mut buf[..len], flow_recv_info()).unwrap();

    // The receiver reads the stream data delivered over the flow.
    let mut out = [0u8; 64];
    let (read, fin) = pipe.client.stream_recv(3, &mut out).unwrap();
    assert_eq!(&out[..read], data);
    assert!(fin);
}

#[test]
fn flow_reception_is_acknowledged_to_server() {
    let (mut sender, mut pipe) = sender_and_receiver(vec![0x37; 8]);
    let first_pn = sender.conn.mc_get_flow_info().unwrap().first_pn;

    // The client receives a flow packet and records its packet number.
    sender.stream_send(3, b"payload", true);
    let mut buf = [0u8; 1500];
    let pkt = sender.send().unwrap();
    let len = pkt.len();
    buf[..len].copy_from_slice(&pkt);
    pipe.client.mc_recv(&mut buf[..len], flow_recv_info()).unwrap();

    // Flush the resulting MC_ACK to the server over the unicast connection.
    pipe.advance();

    // The server can relay the reported reception to the sender.
    let acked = pipe.server.mc_take_flow_ack().expect("flow ack reported");
    assert_eq!(acked.last(), Some(first_pn));
}

#[test]
fn flow_ack_triggers_retransmission() {
    let (mut sender, mut pipe) = sender_and_receiver(vec![0x51; 8]);
    let first_pn = sender.conn.mc_get_flow_info().unwrap().first_pn;

    // Send a stream large enough to span several flow packets.
    let data = vec![0xa5u8; 6000];
    sender.stream_send(3, &data, true);

    // Collect every flow packet the sender produces (packet i has packet
    // number first_pn + i).
    let mut packets: Vec<Vec<u8>> = Vec::new();
    loop {
        match sender.send() {
            Ok(pkt) => packets.push(pkt),
            Err(Error::Done) => break,
            Err(e) => panic!("send failed: {e:?}"),
        }
    }
    assert!(
        packets.len() >= 4,
        "need enough packets for loss detection, got {}",
        packets.len()
    );

    // Deliver every packet except the first, leaving a gap at the start of the
    // stream the receiver cannot yet read past.
    for pkt in &packets[1..] {
        let mut b = pkt.clone();
        pipe.client.mc_recv(&mut b, flow_recv_info()).unwrap();
    }
    let mut out = vec![0u8; data.len()];
    assert_eq!(pipe.client.stream_recv(3, &mut out), Err(Error::Done));

    // Report to the sender that every packet but the first was received.
    let mut acked = RangeSet::default();
    acked.insert(first_pn + 1..first_pn + packets.len() as u64);
    sender.on_flow_ack(&acked).unwrap();

    // The sender now retransmits the lost stream data; deliver it.
    let mut retransmitted = false;
    loop {
        match sender.send() {
            Ok(pkt) => {
                let mut b = pkt;
                pipe.client.mc_recv(&mut b, flow_recv_info()).unwrap();
                retransmitted = true;
            },
            Err(Error::Done) => break,
            Err(e) => panic!("send failed: {e:?}"),
        }
    }
    assert!(retransmitted, "sender did not retransmit after the ack");

    // With the gap filled, the receiver can read the whole stream.
    let mut got = Vec::new();
    loop {
        match pipe.client.stream_recv(3, &mut out) {
            Ok((read, fin)) => {
                got.extend_from_slice(&out[..read]);
                if fin {
                    break;
                }
            },
            Err(Error::Done) => break,
            Err(e) => panic!("stream_recv failed: {e:?}"),
        }
    }
    assert_eq!(got, data);
}

#[test]
fn every_cipher_suite_decrypts() {
    for alg in [
        Algorithm::AES128_GCM,
        Algorithm::AES256_GCM,
        Algorithm::ChaCha20_Poly1305,
    ] {
        assert_eq!(alg_from_cipher_suite(cipher_suite_from_alg(alg)), Ok(alg));
        let (mut sender, mut pipe) = sender_and_receiver_with(vec![9; 20], alg);
        assert_eq!(sender.conn.mc_flow_cipher_suite(), Some(cipher_suite_from_alg(alg)));
        let mut pkt = sender.seal(&dgram_frame(b"rtp"));
        let len = pkt.len();
        assert_eq!(pipe.client.mc_recv(&mut pkt, flow_recv_info()), Ok(len - 16));
        let mut out = [0; 10];
        assert_eq!(pipe.client.dgram_recv(&mut out), Ok(3));
        assert_eq!(&out[..3], b"rtp");
        assert_eq!(pipe.client.dgram_recv(&mut out), Err(Error::Done));
    }
    for suite in [0, 0x1300, 0x1304, 0xffff] {
        assert_eq!(alg_from_cipher_suite(suite), Err(FAILED));
    }
}

#[test]
fn unknown_suites_leave_the_connection_as_it_is() {
    let mut conn = Connection::new(false, false, 30, small_limits(), 1);
    let (flow_id, src, grp, port, _, first_pn, secret) = sample_flow();
    assert_eq!(
        conn.mc_new_from_info(flow_id, src, grp, port, 0x1304, first_pn, secret),
        Err(FAILED)
    );
    assert!(conn.multicast().is_none());
    assert_eq!(conn.mc_flow_secret(), None);
    assert_eq!(conn.mc_flow_cipher_suite(), None);
    assert!(conn.mc_get_flow_info().is_none());
    assert!(conn.mc_take_flow_ack().is_none());
    assert!(!conn.mc_should_send_ack());
}

#[test]
fn only_clients_with_keys_receive() {
    // No flow.
    let mut conn = Connection::new(false, false, 30, small_limits(), 1);
    let mut pkt = vec![0x40; 100];
    assert_eq!(conn.mc_recv(&mut pkt, flow_recv_info()), Err(FAILED));
    // A flow, but no keys.
    let mut server = Pipe::new(true, 30, small_limits()).server;
    let (flow_id, src, grp, port, suite, first_pn, secret) = sample_flow();
    server.mc_provide_flow(flow_id, src, grp, port, suite, first_pn, secret).unwrap();
    assert_eq!(server.mc_recv(&mut pkt, flow_recv_info()), Err(FAILED));
    assert_eq!(pkt, vec![0x40; 100]);
    // Nor is there anything to reconstruct packet numbers for.
    let mut server = Pipe::new(true, 30, small_limits()).server;
    server.mc_provide_flow(vec![1], src, grp, port, suite, u64::MAX, vec![]).unwrap();
    assert!(server.mc_basis_in_range());
    assert_eq!(server.mc_recv(&mut pkt, flow_recv_info()), Err(FAILED));
}

#[test]
fn foreign_packets_are_refused() {
    let (mut sender, mut pipe) = sender_and_receiver(vec![0x42; 8]);
    let pkt = sender.seal(&dgram_frame(b"x"));

    // Too short, a long header, another flow, a changed payload, a changed tag.
    let mut bad: Vec<Vec<u8>> = vec![vec![], pkt[..1].to_vec(), pkt[..28].to_vec()];
    for i in [0, 1, 8, 20, pkt.len() - 1] {
        let mut b = pkt.clone();
        b[i] ^= if i == 0 { 0x80 } else { 0x01 };
        bad.push(b);
    }
    for mut b in bad {
        assert_eq!(pipe.client.mc_recv(&mut b, flow_recv_info()), Err(FAILED));
        assert!(!pipe.client.mc_should_send_ack());
        let mut out = [0; 10];
        assert_eq!(pipe.client.dgram_recv(&mut out), Err(Error::Done));
    }
    let mut good = pkt.clone();
    assert_eq!(pipe.client.mc_recv(&mut good, flow_recv_info()), Ok(pkt.len() - 16));
    // The packet was decrypted in place.
    assert_eq!(good[0], 0x43);
    assert_eq!(&good[9..13], &[0, 0, 0, 3]);
    assert_eq!(&good[13..good.len() - 16], &dgram_frame(b"x")[..]);
    assert_eq!(&good[good.len() - 16..], &pkt[pkt.len() - 16..]);
}

#[test]
fn other_frames_are_ignored_on_the_flow() {
    let (mut sender, mut pipe) = sender_and_receiver(vec![0x42; 8]);
    let mut payload = vec![0x01, 0x00, 0x00, 0x1e];
    payload.extend(dgram_frame(b"one"));
    payload.extend([0x10, 0x05]);
    payload.extend(encode_flow(sender.conn.mc_get_flow_info().unwrap()).unwrap());
    payload.extend([0x30, b't', b'w', b'o']);
    let mut pkt = sender.seal(&payload);
    pipe.client.mc_recv(&mut pkt, flow_recv_info()).unwrap();
    let mut out = [0; 10];
    assert_eq!(pipe.client.dgram_recv(&mut out), Ok(3));
    assert_eq!(&out[..3], b"one");
    assert_eq!(pipe.client.dgram_recv(&mut out), Ok(3));
    assert_eq!(&out[..3], b"two");
    assert!(pipe.client.mc_should_send_ack());
}

#[test]
fn unknown_frame_types_are_ignored_on_the_flow() {
    let (mut sender, mut pipe) = sender_and_receiver(vec![0x42; 8]);
    for ty in [&[0x1f][..], &[0x20], &[0x32], &[0x7f, 0xff], &[0x80, 0xff, 0x4d, 0x44]] {
        let mut payload = dgram_frame(b"one");
        payload.extend_from_slice(ty);
        // Where the unknown frame ends, nobody knows.
        payload.extend(dgram_frame(b"two"));
        let mut pkt = sender.seal(&payload);
        let len = pkt.len();
        assert_eq!(pipe.client.mc_recv(&mut pkt, flow_recv_info()), Ok(len - 16));
        let mut out = [0; 10];
        assert_eq!(pipe.client.dgram_recv(&mut out), Ok(3));
        assert_eq!(&out[..3], b"one");
        assert_eq!(pipe.client.dgram_recv(&mut out), Err(Error::Done));
    }
    // The packets are reported.
    match pipe.client.multicast().unwrap().pending_ack_frame() {
        Some(Frame::McAck { ranges, .. }) => assert_eq!(ranges.iter(), vec![3..8]),
        _ => panic!("no report"),
    }
}

#[test]
fn a_frame_that_does_not_parse_is_an_error() {
    let (mut sender, mut pipe) = sender_and_receiver(vec![0x42; 8]);
    let mut payload = dgram_frame(b"kept");
    payload.extend([0x31, 0x05, 0x00]);
    let mut pkt = sender.seal(&payload);
    assert_eq!(pipe.client.mc_recv(&mut pkt, flow_recv_info()), Err(FAILED));
    // What came before it was delivered, but the packet is not reported.
    let mut out = [0; 10];
    assert_eq!(pipe.client.dgram_recv(&mut out), Ok(4));
    assert!(!pipe.client.mc_should_send_ack());
}

#[test]
fn datagrams_queue_up_and_the_oldest_makes_room() {
    let (mut sender, mut pipe) = sender_and_receiver(vec![0x42; 8]);
    for i in 0..12u8 {
        let mut pkt = sender.seal(&dgram_frame(&[i]));
        pipe.client.mc_recv(&mut pkt, flow_recv_info()).unwrap();
    }
    let mut out = [0; 1];
    for i in 2..12u8 {
        assert_eq!(pipe.client.dgram_recv(&mut out), Ok(1));
        assert_eq!(out[0], i);
    }
    assert_eq!(pipe.client.dgram_recv(&mut out), Err(Error::Done));

    let mut pkt = sender.seal(&dgram_frame(&[1, 2]));
    pipe.client.mc_recv(&mut pkt, flow_recv_info()).unwrap();
    assert_eq!(pipe.client.dgram_recv(&mut out), Err(Error::BufferTooShort));
    assert_eq!(pipe.client.dgram_recv(&mut out), Err(Error::Done));
}

#[test]
fn datagrams_are_refused_where_there_is_no_queue() {
    let mut conn = Connection::new(false, false, 30, small_limits(), 0);
    assert_eq!(conn.mc_deliver(&dgram_frame(b"x")), Err(Error::Done));
}

#[test]
fn packet_numbers_of_every_length_are_recovered() {
    let secret = vec![7; 32];
    let protection = Protection::new(Algorithm::AES128_GCM, &secret);
    for (pn_len, pn) in [(1, 1100), (1, 990), (2, 20_000), (3, 5_000_000), (4, 1 << 30)] {
        let mut conn = Connection::new(false, false, 30, small_limits(), 1);
        conn.mc_new_from_info(
            vec![1],
            ip4(0, 0, 0, 0),
            ip4(0, 0, 0, 0),
            1,
            0x1301,
            1000,
            secret.clone(),
        )
        .unwrap();
        assert!(conn.mc_basis_in_range());
        let mut pkt = protection.seal(&[1], pn, pn_len, &dgram_frame(b"abcd"));
        conn.mc_recv(&mut pkt, flow_recv_info()).unwrap();
        match conn.multicast().unwrap().pending_ack_frame() {
            Some(Frame::McAck { flow_id, ack_delay, ranges }) => {
                assert_eq!(flow_id, vec![1]);
                assert_eq!(ack_delay, 0);
                assert_eq!(ranges.iter(), vec![pn..pn + 1]);
            },
            _ => panic!("no report"),
        }
    }
}

#[test]
fn absurd_first_packet_numbers_are_out_of_range() {
    let mut conn = Connection::new(false, false, 30, small_limits(), 1);
    assert!(conn.mc_basis_in_range());
    let (flow_id, src, grp, port, suite, _, secret) = sample_flow();
    conn.mc_new_from_info(flow_id, src, grp, port, suite, u64::MAX, secret.clone()).unwrap();
    assert!(!conn.mc_basis_in_range());
    let first = mcquic::packet::MAX_PKT_NUM_BASIS + 1;
    conn.mc_new_from_info(vec![1], src, grp, port, suite, first, secret.clone()).unwrap();
    assert!(conn.mc_basis_in_range());
    conn.mc_new_from_info(vec![1], src, grp, port, suite, first + 1, secret).unwrap();
    assert!(!conn.mc_basis_in_range());
}

#[test]
fn reports_cover_all_that_was_received() {
    let (mut sender, mut pipe) = sender_and_receiver(vec![0x42; 8]);
    let packets: Vec<Vec<u8>> = (0..6).map(|_| sender.seal(&[0x01, 0, 0, 0])).collect();
    // Packets 3, 5, 6 and 8.
    for i in [2, 0, 5, 3] {
        let mut b = packets[i].clone();
        pipe.client.mc_recv(&mut b, flow_recv_info()).unwrap();
    }
    let mc = pipe.client.multicast_mut().unwrap();
    let report = |mc: &mcquic::multicast::MulticastData| match mc.pending_ack_frame() {
        Some(Frame::McAck { ranges, .. }) => ranges.iter(),
        _ => vec![],
    };
    assert_eq!(report(mc), vec![3..4, 5..7, 8..9]);
    mc.mark_ack_sent();
    assert!(mc.pending_ack_frame().is_none());
    // A lost report is sent again.
    mc.mark_ack_lost();
    assert_eq!(report(mc), vec![3..4, 5..7, 8..9]);
    // What was acknowledged is not reported again.
    mc.remove_ack_up_to(None);
    assert_eq!(report(mc), vec![3..4, 5..7, 8..9]);
    mc.remove_ack_up_to(Some(5));
    assert_eq!(report(mc), vec![6..7, 8..9]);
    mc.remove_ack_up_to(Some(8));
    assert!(mc.pending_ack_frame().is_none());
}

#[test]
fn reports_are_merged_and_taken_once() {
    let mut pipe = Pipe::new(true, 30, small_limits());
    let (flow_id, src, grp, port, suite, first_pn, secret) = sample_flow();
    pipe.server.mc_provide_flow(flow_id, src, grp, port, suite, first_pn, secret).unwrap();
    assert!(pipe.server.mc_take_flow_ack().is_none());
    for r in [1..3, 10..12, 2..5] {
        let mut ranges = RangeSet::default();
        ranges.insert(r);
        pipe.server.multicast_mut().unwrap().store_flow_ack(ranges);
    }
    assert_eq!(pipe.server.mc_take_flow_ack().unwrap().iter(), vec![1..5, 10..12]);
    assert!(pipe.server.mc_take_flow_ack().is_none());
}

#[test]
fn reports_of_two_receivers_reach_the_sender() {
    let (mut sender, mut first) = sender_and_receiver(vec![0x42; 8]);
    let info = sender.conn.mc_get_flow_info().unwrap().clone();
    let mut second = Pipe::new(true, 100_000, flow_limits());
    second
        .server
        .mc_provide_flow(
            info.flow_id.clone(),
            info.source_ip,
            info.group_ip,
            info.udp_port,
            info.cipher_suite,
            info.first_pn,
            info.secret.clone(),
        )
        .unwrap();
    second.advance();

    let mut agg = McAckAggregator::new();
    agg.add_receiver(1, info.first_pn);
    agg.add_receiver(2, info.first_pn);

    sender.stream_send(3, &[7; 4000], true);
    let packets: Vec<Vec<u8>> = (0..4).map(|_| sender.send().unwrap()).collect();
    for (i, pkt) in packets.iter().enumerate() {
        first.client.mc_recv(&mut pkt.clone(), flow_recv_info()).unwrap();
        if i != 0 {
            second.client.mc_recv(&mut pkt.clone(), flow_recv_info()).unwrap();
        }
    }
    first.advance();
    second.advance();
    agg.record(1, &first.server.mc_take_flow_ack().unwrap());
    agg.record(2, &second.server.mc_take_flow_ack().unwrap());
    assert_eq!(agg.aggregate().iter(), vec![0..3, 4..7]);
    assert_eq!(sender.conn.mc_flow_prune_pn(), None);

    sender.on_flow_ack(&agg.aggregate()).unwrap();
    // Packet 3 was lost, so everything is resolved up to the packet that carries
    // its data again.
    let pkt = sender.send().unwrap();
    assert_eq!(sender.conn.mc_flow_prune_pn(), Some(6));
    agg.prune(6);
    assert_eq!(agg.aggregate().iter(), vec![]);
    second.client.mc_recv(&mut pkt.clone(), flow_recv_info()).unwrap();
    let mut out = vec![0; 5000];
    assert_eq!(second.client.stream_recv(3, &mut out), Ok((4000, true)));
}

#[test]
fn the_sender_needs_a_path_and_a_report() {
    let mut sender = Sender::new(vec![1], Algorithm::AES128_GCM);
    let mut some = RangeSet::default();
    some.insert(4..6);
    assert!(matches!(sender.conn.mc_on_flow_ack(&RangeSet::default()), Ok(None)));
    sender.conn.set_active_path(None, Some(77));
    assert!(matches!(sender.conn.mc_on_flow_ack(&RangeSet::default()), Ok(None)));
    assert!(matches!(sender.conn.mc_on_flow_ack(&some), Err(Error::InvalidState)));
    assert_eq!(sender.conn.mc_flow_prune_pn(), None);
    let path = ActivePath { oldest_sent_pkt_num: Some(0), next_pkt_num: 9 };
    sender.conn.set_active_path(Some(path), Some(77));
    let status = HandshakeStatus {
        has_handshake_keys: true,
        peer_verified_address: false,
        completed: true,
    };
    sender.conn.set_handshake_status(status);
    let ack = sender.conn.mc_on_flow_ack(&some).unwrap().unwrap();
    assert_eq!(ack.ranges.iter(), vec![4..6]);
    assert_eq!(ack.skip_pn, Some(77));
    assert_eq!(ack.handshake_status, status);
    assert_eq!(sender.conn.mc_flow_prune_pn(), None);
}

#[test]
fn the_sender_knows_what_is_resolved() {
    let mut sender = Sender::new(vec![1], Algorithm::AES128_GCM);
    let first_pn = sender.conn.mc_get_flow_info().unwrap().first_pn;
    assert_eq!(first_pn, 3);
    // Nothing was sent on the flow yet.
    assert_eq!(sender.conn.mc_flow_prune_pn(), None);
    sender.stream_send(3, &[1; 3000], true);
    for _ in 0..3 {
        sender.send().unwrap();
    }
    // The first packet of the flow is still tracked.
    assert_eq!(sender.conn.mc_flow_prune_pn(), None);
    let mut acked = RangeSet::default();
    acked.insert(3..5);
    sender.on_flow_ack(&acked).unwrap();
    // All that came before the oldest tracked packet.
    assert_eq!(sender.conn.mc_flow_prune_pn(), Some(4));
    // With no packet left to track, all that was sent.
    acked.insert(3..6);
    sender.on_flow_ack(&acked).unwrap();
    assert!(sender.in_flight.is_empty());
    assert_eq!(sender.conn.mc_flow_prune_pn(), Some(5));
    // A connection without a flow has resolved nothing of it.
    let mut conn = Connection::new(true, false, 30, small_limits(), 1);
    let path = ActivePath { oldest_sent_pkt_num: None, next_pkt_num: 9 };
    conn.set_active_path(Some(path), None);
    assert_eq!(conn.mc_flow_prune_pn(), None);
    // There, only tracked packets tell.
    for (oldest, resolved) in [(0, None), (1, Some(0)), (7, Some(6))] {
        let path = ActivePath { oldest_sent_pkt_num: Some(oldest), next_pkt_num: 9 };
        conn.set_active_path(Some(path), None);
        assert_eq!(conn.mc_flow_prune_pn(), resolved);
    }
}

#[test]
fn the_first_packet_number_is_expected_next() {
    let secret = vec![7; 32];
    let protection = Protection::new(Algorithm::AES128_GCM, &secret);
    for (first_pn, pn) in [(128, 1), (128, 256), (0, 0), (0, 200), (1, 0), (500, 373), (500, 628)] {
        let mut conn = Connection::new(false, false, 30, small_limits(), 1);
        let any = ip4(0, 0, 0, 0);
        conn.mc_new_from_info(vec![1], any, any, 1, 0x1301, first_pn, secret.clone()).unwrap();
        let mut pkt = protection.seal(&[1], pn, 1, &dgram_frame(b"abcd"));
        conn.mc_recv(&mut pkt, flow_recv_info()).unwrap();
        match conn.multicast().unwrap().pending_ack_frame() {
            Some(Frame::McAck { ranges, .. }) => assert_eq!(ranges.iter(), vec![pn..pn + 1]),
            _ => panic!("no report"),
        }
    }
}

#[test]
fn senders_need_a_flow_id_a_handshake_and_keys() {
    let new_flow = |handshake: Handshake, len: usize| {
        mc_new_flow(handshake, vec![1; len], ip4(1, 2, 3, 4), ip4(5, 6, 7, 8), 9).map(|_| ())
    };
    let completed = |seal: Option<Seal>| Handshake::Completed {
        sender: Connection::new(true, false, 30, small_limits(), 1),
        seal,
        next_pkt_num: 5,
    };
    let seal = || Some(Seal { secret: vec![1; 48], alg: Algorithm::AES256_GCM });
    assert_eq!(new_flow(completed(seal()), 0), Err(FAILED));
    assert_eq!(new_flow(completed(seal()), 21), Err(FAILED));
    assert_eq!(new_flow(completed(None), 8), Err(FAILED));
    assert_eq!(new_flow(Handshake::Failed, 8), Err(FAILED));
    assert_eq!(new_flow(Handshake::Refused(Error::CryptoFail), 8), Err(Error::CryptoFail));
    assert_eq!(new_flow(Handshake::Refused(Error::CryptoFail), 0), Err(FAILED));

    let conn =
        mc_new_flow(completed(seal()), vec![1; 20], ip4(1, 2, 3, 4), ip4(5, 6, 7, 8), 9).unwrap();
    let info = conn.mc_get_flow_info().unwrap();
    assert_eq!(info.cipher_suite, 0x1302);
    assert_eq!(info.first_pn, 5);
    assert_eq!(info.secret, vec![1; 48]);
    assert_eq!(info.source_ip, ip4(1, 2, 3, 4));
    assert_eq!(info.group_ip, ip4(5, 6, 7, 8));
    assert_eq!(info.udp_port, 9);
    // The sender does not advertise its flow itself.
    assert!(!conn.mc_should_send_flow());
}

#[test]
fn stream_data_keeps_to_the_limits() {
    let limits = StreamLimits {
        max_streams_bidi: 1,
        max_streams_uni: 2,
        max_stream_data_bidi: 100,
        max_stream_data_uni: 20,
    };
    let mut conn = Connection::new(false, false, 30, limits, 1);
    let deliver = |conn: &mut Connection, id: u64, off: u64, len: usize, fin: bool| {
        conn.mc_deliver_stream(id, RangeBuf { off, data: vec![1; len], fin })
    };
    // Streams of this side are not the peer's to use.
    assert_eq!(deliver(&mut conn, 0, 0, 1, false), Err(Error::InvalidStreamState(0)));
    // The third unidirectional stream is too many.
    assert_eq!(deliver(&mut conn, 11, 0, 1, false), Err(Error::StreamLimit));
    // The stream's limit.
    assert_eq!(deliver(&mut conn, 3, 20, 1, false), Err(Error::FlowControl));
    assert_eq!(deliver(&mut conn, 3, 10, 10, false), Ok(()));
    // The connection's limit: 20 of 30 bytes are used.
    assert_eq!(deliver(&mut conn, 1, 0, 11, false), Err(Error::FlowControl));
    assert_eq!(deliver(&mut conn, 1, 0, 10, false), Ok(()));
    assert_eq!(deliver(&mut conn, 1, 10, 1, false), Err(Error::FlowControl));
    // Data that is there already counts no more.
    assert_eq!(deliver(&mut conn, 1, 0, 10, false), Ok(()));
    // The final size.
    assert_eq!(deliver(&mut conn, 3, 0, 10, true), Err(Error::FinalSize));
    assert_eq!(deliver(&mut conn, 3, 20, 0, true), Ok(()));
    assert_eq!(deliver(&mut conn, 3, 19, 0, true), Err(Error::FinalSize));
    assert_eq!(conn.readable(), vec![1]);
    assert_eq!(deliver(&mut conn, 3, 0, 10, false), Ok(()));
    assert_eq!(conn.readable(), vec![1, 3]);
    let mut out = [0; 64];
    assert_eq!(conn.stream_recv(3, &mut out), Ok((20, true)));
    // A stream that is over is ignored.
    assert_eq!(deliver(&mut conn, 3, 0, 10, false), Ok(()));
    assert_eq!(conn.stream_recv(3, &mut out), Err(Error::InvalidStreamState(3)));
    assert_eq!(conn.readable(), vec![1]);
}

#[test]
fn streams_that_are_given_up_take_no_data() {
    let mut conn = Connection::new(false, false, 1000, flow_limits(), 1);
    conn.mc_deliver(&stream_frame(3, 0, &[1; 10], false)).unwrap();
    assert_eq!(conn.stream_shutdown(3), Ok(()));
    assert_eq!(conn.stream_shutdown(3), Err(Error::Done));
    assert_eq!(conn.stream_shutdown(7), Err(Error::InvalidStreamState(7)));
    conn.mc_deliver(&stream_frame(3, 10, &[1; 10], true)).unwrap();
    let mut out = [0; 64];
    assert_eq!(conn.stream_recv(3, &mut out), Err(Error::Done));
    assert_eq!(conn.readable(), vec![]);
}

#[test]
fn duplicates_and_overlaps_change_nothing() {
    let mut conn = Connection::new(false, false, 1000, flow_limits(), 1);
    let content: Vec<u8> = (0..100).collect();
    for (from, to) in [(40, 60), (90, 100), (50, 95), (40, 60), (0, 45), (10, 20)] {
        conn.mc_deliver(&stream_frame(3, from as u64, &content[from..to], to == 100)).unwrap();
    }
    let mut out = [0; 30];
    let mut got = vec![];
    loop {
        let (n, fin) = conn.stream_recv(3, &mut out).unwrap();
        got.extend_from_slice(&out[..n]);
        if fin {
            break;
        }
    }
    assert_eq!(got, content);
}

#[test]
fn processing_notes_the_packet_number() {
    let mut conn = Connection::new(false, false, 1000, flow_limits(), 1);
    let (flow_id, src, grp, port, suite, _, secret) = sample_flow();
    conn.mc_new_from_info(flow_id, src, grp, port, suite, 5, secret).unwrap();
    assert_eq!(conn.mc_process(9, &stream_frame(3, 0, b"ab", true)), Ok(()));
    assert_eq!(conn.mc_process(6, &[]), Ok(()));
    assert_eq!(conn.mc_process(7, &[0x31, 0x05]), Err(FAILED));
    assert_eq!(conn.mc_process(8, &stream_frame(0, 0, b"x", false)), Err(
        Error::InvalidStreamState(0)
    ));
    match conn.multicast().unwrap().pending_ack_frame() {
        Some(Frame::McAck { ranges, .. }) => assert_eq!(ranges.iter(), vec![6..7, 9..10]),
        _ => panic!("no report"),
    }
    let mut out = [0; 4];
    assert_eq!(conn.stream_recv(3, &mut out), Ok((2, true)));
    assert_eq!(&out[..2], b"ab");
}

#[test]
fn every_receiver_decrypts_the_same_packet() {
    let mut sender = Sender::new(vec![8; 8], Algorithm::AES128_GCM);
    let info = sender.conn.mc_get_flow_info().unwrap().clone();
    sender.next_pn = 70_000;
    let pkt = sender.seal(&dgram_frame(b"same"));
    // One receiver has been there from the start, others join later.
    for first_pn in [info.first_pn, 69_999, 70_000, 90_000] {
        let mut conn = Connection::new(false, false, 30, small_limits(), 1);
        conn.mc_new_from_info(
            info.flow_id.clone(),
            info.source_ip,
            info.group_ip,
            info.udp_port,
            info.cipher_suite,
            first_pn,
            info.secret.clone(),
        )
        .unwrap();
        conn.mc_recv(&mut pkt.clone(), flow_recv_info()).unwrap();
        let mut out = [0; 4];
        assert_eq!(conn.dgram_recv(&mut out), Ok(4));
        assert_eq!(&out, b"same");
        match conn.multicast().unwrap().pending_ack_frame() {
            Some(Frame::McAck { ranges, .. }) => assert_eq!(ranges.iter(), vec![70_000..70_001]),
            _ => panic!("no report"),
        }
    }
}

#[test]
fn an_acknowledged_report_settles_every_smaller_number() {
    let (mut sender, mut pipe) = sender_and_receiver(vec![0x42; 8]);
    let packets: Vec<Vec<u8>> = (0..3).map(|_| sender.seal(&[0x01, 0, 0, 0])).collect();
    // Packet 5 is reported; packet 3 arrives before the report is acknowledged.
    pipe.client.mc_recv(&mut packets[2].clone(), flow_recv_info()).unwrap();
    pipe.client.multicast_mut().unwrap().mark_ack_sent();
    pipe.client.mc_recv(&mut packets[0].clone(), flow_recv_info()).unwrap();
    let mc = pipe.client.multicast_mut().unwrap();
    mc.remove_ack_up_to(Some(5));
    assert!(mc.pending_ack_frame().is_none());
}
