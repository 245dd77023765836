//! Multicast flow module.
//! This module handles everything related to the source multicast flow.
//!
//! The standalone multicast sender is an ordinary [`Connection`] that generates
//! QUIC packets intended to be sent to multiple receivers on the multicast
//! group. The application is responsible for transmitting them to the multicast
//! (S,G) group with its own socket.

use crate::connection::{ConnView, Connection};
use crate::crypto::Algorithm;
use crate::error::Error;
use crate::multicast::error::McError;
use crate::multicast::{check_flow_id, suite_alg, FlowView, McFlowInfo, McView, MulticastData};
use crate::net::IpAddr;
use crate::packet::MAX_CID_LEN;
use crate::ranges::RangeSet;
use vstd::prelude::*;

verus! {

/// Maps a negotiated AEAD [`Algorithm`] onto its TLS cipher suite code point.
pub fn cipher_suite_from_alg(alg: Algorithm) -> (suite: u16)
    ensures
        suite == alg.code(),
{
    match alg {
        Algorithm::AES128_GCM => 0x1301,
        Algorithm::AES256_GCM => 0x1302,
        Algorithm::ChaCha20_Poly1305 => 0x1303,
    }
}

/// The keys that a connection protects its 1-RTT packets with.
pub struct Seal {
    /// The application traffic secret.
    pub secret: Vec<u8>,
    /// The negotiated algorithm.
    pub alg: Algorithm,
}

/// What came of the throwaway in-memory handshake between the sender and a
/// client whose Source Connection ID is the Flow ID.
pub enum Handshake {
    /// One of the two sides could not be set up.
    Refused(Error),
    /// The handshake did not complete, or did not settle.
    Failed,
    /// The handshake completed and both sides settled.
    Completed {
        /// The server side. It uses the Flow ID as the Destination Connection
        /// ID of its packets.
        sender: Connection,
        /// Its 1-RTT keys, if there are any.
        seal: Option<Seal>,
        /// The number of its next packet.
        next_pkt_num: u64,
    },
}

/// The error that a flow is refused with, if it is.
pub open spec fn flow_refusal(handshake: Handshake, flow_id: Seq<u8>) -> Option<Error> {
    if !(1 <= flow_id.len() <= MAX_CID_LEN) {
        Some(Error::Multicast(McError::McFlow))
    } else {
        match handshake {
            Handshake::Refused(e) => Some(e),
            Handshake::Failed => Some(Error::Multicast(McError::McFlow)),
            Handshake::Completed { seal: None, .. } => Some(Error::Multicast(McError::McFlow)),
            _ => None,
        }
    }
}

/// Creates a standalone multicast sender [`Connection`] for the given flow.
///
/// The flow keys are the connection's own 1-RTT keys, derived from a secret
/// established during a throwaway in-memory handshake. That secret is exposed
/// via [`Connection::mc_flow_secret`] and must be advertised, together with the
/// [`Connection::mc_flow_cipher_suite`], to each multicast-capable client
/// through [`Connection::mc_provide_flow`].
///
/// The flow has its own packet-number space, starting at the number of the
/// sender's next packet.
pub fn mc_new_flow(
    handshake: Handshake,
    flow_id: Vec<u8>,
    source_ip: IpAddr,
    group_ip: IpAddr,
    udp_port: u16,
) -> (r: Result<Connection, Error>)
    requires
        handshake matches Handshake::Completed { sender, .. } ==> sender.wf(),
    ensures
        match r {
            Ok(conn) => {
                &&& flow_refusal(handshake, flow_id@) is None
                &&& handshake matches Handshake::Completed {
                    sender,
                    seal: Some(seal),
                    next_pkt_num,
                }
                &&& conn.wf()
                &&& conn@ == (ConnView {
                    multicast: Some(
                        McView {
                            flow: FlowView {
                                flow_id: flow_id@,
                                source_ip,
                                group_ip,
                                udp_port,
                                cipher_suite: seal.alg.code(),
                                first_pn: next_pkt_num,
                                secret: seal.secret@,
                            },
                            flow_sent: true,
                            flow_acked: true,
                            open: None,
                            largest_pn: None,
                            recv_pns: Set::empty(),
                            ack_pending: false,
                            acked_pns: None,
                        },
                    ),
                    ..sender@
                })
            },
            Err(e) => flow_refusal(handshake, flow_id@) == Some(e),
        },
{
    match check_flow_id(flow_id.as_slice()) {
        Ok(()) => (),
        Err(e) => return Err(e),
    }
    let (mut sender, seal, first_pn) = match handshake {
        Handshake::Refused(e) => return Err(e),
        Handshake::Failed => return Err(Error::Multicast(McError::McFlow)),
        Handshake::Completed { sender, seal, next_pkt_num } => (sender, seal, next_pkt_num),
    };
    // The 1-RTT application traffic secret becomes the flow secret.
    let seal = match seal {
        Some(seal) => seal,
        None => return Err(Error::Multicast(McError::McFlow)),
    };
    sender.multicast = Some(
        MulticastData {
            mc_flow_info: McFlowInfo {
                flow_id,
                source_ip,
                group_ip,
                udp_port,
                cipher_suite: cipher_suite_from_alg(seal.alg),
                first_pn,
                secret: seal.secret,
            },
            // Not meaningful on the sender; it never advertises MC_FLOW itself.
            mc_flow_sent: true,
            mc_flow_acked: true,
            flow_open: None,
            flow_largest_pn: None,
            flow_recv_pns: RangeSet::default(),
            flow_ack_pending: false,
            flow_acked_pns: None,
        },
    );
    Ok(sender)
}

impl Connection {
    /// Retrieves the [`McFlowInfo`].
    pub fn mc_get_flow_info(&self) -> (info: Option<&McFlowInfo>)
        ensures
            match info {
                Some(info) => self@.multicast matches Some(mc) && info@ == mc.flow,
                None => self@.multicast is None,
            },
    {
        match &self.multicast {
            Some(mc) => Some(&mc.mc_flow_info),
            None => None,
        }
    }
}

/// Which flows are refused, and why: those whose Flow ID cannot be a connection
/// ID, or is empty, before anything else; then those whose handshake was refused,
/// with its reason; then those without a settled handshake or without keys.
pub proof fn law_flow_refusals(handshake: Handshake, flow_id: Seq<u8>)
    ensures
        ({
            let refusal = flow_refusal(handshake, flow_id);
            let failed = Some(Error::Multicast(McError::McFlow));
            &&& flow_id.len() == 0 || flow_id.len() > 20 ==> refusal == failed
            &&& 1 <= flow_id.len() <= 20 ==> match handshake {
                Handshake::Refused(e) => refusal == Some(e),
                Handshake::Failed => refusal == failed,
                Handshake::Completed { seal, .. } => (seal is None ==> refusal == failed) && (
                seal is Some ==> refusal is None),
            }
        }),
{
}

/// The maps between algorithms and cipher suites are each other's inverse.
pub proof fn law_cipher_suites(alg: Algorithm, suite: u16)
    ensures
        suite_alg(alg.code()) == Some(alg),
        suite_alg(suite) matches Some(a) ==> a.code() == suite,
        suite_alg(suite) == Some(Algorithm::AES128_GCM) <==> suite == 0x1301,
        suite_alg(suite) == Some(Algorithm::AES256_GCM) <==> suite == 0x1302,
        suite_alg(suite) == Some(Algorithm::ChaCha20_Poly1305) <==> suite == 0x1303,
{
}

} // verus!
