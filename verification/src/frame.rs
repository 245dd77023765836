//! QUIC frames, as far as a receiver of a multicast flow tells them apart.

use crate::error::Error;
use crate::multicast::FlowView;
use crate::net::IpAddr;
use crate::octets_spec::{
    advanced, be, has_varint, octets_bytes, octets_read, unread, varint_len, varint_value,
};
use crate::packet::MAX_CID_LEN;
use crate::ranges::RangeSet;
use crate::stream::RangeBuf;
use octets::Octets;
use vstd::arithmetic::power::pow;
use vstd::prelude::*;

verus! {

/// The frame type of `MC_FLOW`.
pub const MC_FLOW_TYPE: u64 = 0xff4d43;

/// The data of a stream ends before this offset.
pub const MAX_STREAM_SIZE: u64 = 0x4000_0000_0000_0000;

/// The length of a stateless reset token.
pub const RESET_TOKEN_LEN: usize = 16;

/// A frame.
#[allow(inconsistent_fields)]
pub enum Frame {
    /// An unreliable datagram.
    Datagram { data: Vec<u8> },
    /// A chunk of stream data.
    Stream { stream_id: u64, data: RangeBuf },
    /// The advertisement of a multicast flow.
    McFlow {
        flow_id: Vec<u8>,
        source_ip: IpAddr,
        group_ip: IpAddr,
        udp_port: u16,
        cipher_suite: u16,
        first_pn: u64,
        secret: Vec<u8>,
    },
    /// A report of the packet numbers received on a multicast flow.
    McAck { flow_id: Vec<u8>, ack_delay: u64, ranges: RangeSet },
    /// A frame of any other type, known or not, which means nothing on a one-way
    /// flow.
    Ignored,
}

/// What a frame says.
#[allow(inconsistent_fields)]
#[verifier::ext_equal]
pub enum FrameView {
    Datagram { data: Seq<u8> },
    Stream { stream_id: u64, offset: u64, data: Seq<u8>, fin: bool },
    McFlow { flow: FlowView },
    McAck { flow_id: Seq<u8>, ack_delay: u64, ranges: Set<u64> },
    Ignored,
}

impl View for Frame {
    type V = FrameView;

    open spec fn view(&self) -> FrameView {
        match self {
            Frame::Datagram { data } => FrameView::Datagram { data: data@ },
            Frame::Stream { stream_id, data } => FrameView::Stream {
                stream_id: *stream_id,
                offset: data.off,
                data: data.data@,
                fin: data.fin,
            },
            Frame::McFlow {
                flow_id,
                source_ip,
                group_ip,
                udp_port,
                cipher_suite,
                first_pn,
                secret,
            } => FrameView::McFlow {
                flow: FlowView {
                    flow_id: flow_id@,
                    source_ip: *source_ip,
                    group_ip: *group_ip,
                    udp_port: *udp_port,
                    cipher_suite: *cipher_suite,
                    first_pn: *first_pn,
                    secret: secret@,
                },
            },
            Frame::McAck { flow_id, ack_delay, ranges } => FrameView::McAck {
                flow_id: flow_id@,
                ack_delay: *ack_delay,
                ranges: ranges@,
            },
            Frame::Ignored => FrameView::Ignored,
        }
    }
}

impl Frame {
    /// The parts of the frame are well-formed.
    pub open spec fn wf(&self) -> bool {
        match self {
            Frame::Stream { data, .. } => data.wf(),
            Frame::McAck { ranges, .. } => ranges.wf(),
            _ => true,
        }
    }
}

// The grammar. Each function takes the bytes that are left and returns what it
// reads, with the bytes that are left then. `None`, where they do not conform.
/// One byte.
pub open spec fn take_u8(s: Seq<u8>) -> Option<(u8, Seq<u8>)> {
    if s.len() >= 1 {
        Some((s[0], s.skip(1)))
    } else {
        None
    }
}

/// `n` bytes.
pub open spec fn take_bytes(s: Seq<u8>, n: nat) -> Option<(Seq<u8>, Seq<u8>)> {
    if s.len() >= n {
        Some((s.take(n as int), s.skip(n as int)))
    } else {
        None
    }
}

/// A number of `n` bytes in network byte order.
pub open spec fn take_be(s: Seq<u8>, n: nat) -> Option<(nat, Seq<u8>)> {
    if s.len() >= n {
        Some((be(s.take(n as int)), s.skip(n as int)))
    } else {
        None
    }
}

/// A variable-length integer.
pub open spec fn take_varint(s: Seq<u8>) -> Option<(u64, Seq<u8>)> {
    if has_varint(s) {
        Some((varint_value(s), s.skip(varint_len(s[0]) as int)))
    } else {
        None
    }
}

/// Bytes behind their number, which is a variable-length integer.
pub open spec fn take_sized(s: Seq<u8>) -> Option<(Seq<u8>, Seq<u8>)> {
    match take_varint(s) {
        Some((n, rest)) => take_bytes(rest, n as nat),
        None => None,
    }
}

/// Passes over `n` variable-length integers.
pub open spec fn skip_varints(s: Seq<u8>, n: nat) -> Option<Seq<u8>>
    decreases n,
{
    if n == 0 {
        Some(s)
    } else {
        match take_varint(s) {
            Some((_, rest)) => skip_varints(rest, (n - 1) as nat),
            None => None,
        }
    }
}

/// Passes over bytes behind their number.
pub open spec fn skip_sized(s: Seq<u8>) -> Option<Seq<u8>> {
    match take_sized(s) {
        Some((_, rest)) => Some(rest),
        None => None,
    }
}

/// Passes over `n` bytes.
pub open spec fn skip_bytes(s: Seq<u8>, n: nat) -> Option<Seq<u8>> {
    if s.len() >= n {
        Some(s.skip(n as int))
    } else {
        None
    }
}

/// Passes over the further ranges of an `ACK` frame. Below `smallest`, each
/// leaves a gap of at least two numbers and then acknowledges at least one.
pub open spec fn skip_ack_ranges(s: Seq<u8>, n: nat, smallest: int) -> Option<Seq<u8>>
    decreases n,
{
    if n == 0 {
        Some(s)
    } else {
        match take_varint(s) {
            Some((gap, s1)) => match take_varint(s1) {
                Some((len, s2)) => if smallest - gap - 2 - len >= 0 {
                    skip_ack_ranges(s2, (n - 1) as nat, smallest - gap - 2 - len)
                } else {
                    None
                },
                None => None,
            },
            None => None,
        }
    }
}

/// Passes over the fields of an `ACK` frame, but for its ECN counts.
pub open spec fn skip_ack(s: Seq<u8>) -> Option<Seq<u8>> {
    match take_varint(s) {
        Some((largest, s1)) => match take_varint(s1) {
            Some((_, s2)) => match take_varint(s2) {
                Some((count, s3)) => match take_varint(s3) {
                    Some((len, s4)) => if largest - len >= 0 {
                        skip_ack_ranges(s4, count as nat, largest - len)
                    } else {
                        None
                    },
                    None => None,
                },
                None => None,
            },
            None => None,
        },
        None => None,
    }
}

/// Passes over the fields of a `NEW_CONNECTION_ID` frame.
pub open spec fn skip_new_connection_id(s: Seq<u8>) -> Option<Seq<u8>> {
    match skip_varints(s, 2) {
        Some(s1) => match take_u8(s1) {
            Some((len, s2)) => if 1 <= len <= MAX_CID_LEN {
                skip_bytes(s2, (len + RESET_TOKEN_LEN) as nat)
            } else {
                None
            },
            None => None,
        },
        None => None,
    }
}

/// The fields of a `STREAM` frame. The low bits of its type say whether there
/// is an offset, whether there is a length, and whether the stream ends.
pub open spec fn take_stream(ty: u64, s: Seq<u8>) -> Option<(FrameView, Seq<u8>)> {
    let fin = ty == 0x09 || ty == 0x0b || ty == 0x0d || ty == 0x0f;
    let with_len = ty == 0x0a || ty == 0x0b || ty == 0x0e || ty == 0x0f;
    match take_varint(s) {
        Some((stream_id, s1)) => {
            let at = if ty >= 0x0c {
                take_varint(s1)
            } else {
                Some((0u64, s1))
            };
            match at {
                Some((offset, s2)) => {
                    let data = if with_len {
                        take_sized(s2)
                    } else {
                        take_bytes(s2, s2.len())
                    };
                    match data {
                        Some((data, s3)) => if offset + data.len() < MAX_STREAM_SIZE {
                            Some((FrameView::Stream { stream_id, offset, data, fin }, s3))
                        } else {
                            None
                        },
                        None => None,
                    }
                },
                None => None,
            }
        },
        None => None,
    }
}

/// An IP address of the given version.
pub open spec fn take_ip(version: u8, s: Seq<u8>) -> Option<(IpAddr, Seq<u8>)> {
    if version == 4 {
        match take_be(s, 4) {
            Some((ip, rest)) => Some((IpAddr::V4(ip as u32), rest)),
            None => None,
        }
    } else if version == 6 {
        match take_be(s, 16) {
            Some((ip, rest)) => Some((IpAddr::V6(ip as u128), rest)),
            None => None,
        }
    } else {
        None
    }
}

/// The last fields of an `MC_FLOW` frame: port, cipher suite, first packet
/// number and secret.
pub open spec fn take_flow_keys(s: Seq<u8>) -> Option<((u16, u16, u64, Seq<u8>), Seq<u8>)> {
    match take_be(s, 2) {
        Some((port, s1)) => match take_be(s1, 2) {
            Some((suite, s2)) => match take_varint(s2) {
                Some((first_pn, s3)) => match take_sized(s3) {
                    Some((secret, s4)) => Some(((port as u16, suite as u16, first_pn, secret), s4)),
                    None => None,
                },
                None => None,
            },
            None => None,
        },
        None => None,
    }
}

/// The fields of an `MC_FLOW` frame.
pub open spec fn take_flow(s: Seq<u8>) -> Option<(FlowView, Seq<u8>)> {
    match take_u8(s) {
        Some((len, s1)) => if 1 <= len <= MAX_CID_LEN {
            match take_bytes(s1, len as nat) {
                Some((flow_id, s2)) => match take_u8(s2) {
                    Some((version, s3)) => match take_ip(version, s3) {
                        Some((source_ip, s4)) => match take_ip(version, s4) {
                            Some((group_ip, s5)) => match take_flow_keys(s5) {
                                Some(((udp_port, cipher_suite, first_pn, secret), s6)) => Some(
                                    (
                                        FlowView {
                                            flow_id,
                                            source_ip,
                                            group_ip,
                                            udp_port,
                                            cipher_suite,
                                            first_pn,
                                            secret,
                                        },
                                        s6,
                                    ),
                                ),
                                None => None,
                            },
                            None => None,
                        },
                        None => None,
                    },
                    None => None,
                },
                None => None,
            }
        } else {
            None
        },
        None => None,
    }
}

/// Whether the layout of a frame type is known.
pub open spec fn is_known(ty: u64) -> bool {
    ty <= 0x1e || ty == 0x30 || ty == 0x31 || ty == MC_FLOW_TYPE
}

/// Passes over the fields of a frame that means nothing on a flow. Nothing tells
/// where a frame of an unknown type ends: it takes all that is left.
pub open spec fn skip_fields(ty: u64, s: Seq<u8>) -> Option<Seq<u8>> {
    if ty == 0x00 || ty == 0x01 || ty == 0x1e {
        // PADDING, PING, HANDSHAKE_DONE
        Some(s)
    } else if ty == 0x02 {
        // ACK
        skip_ack(s)
    } else if ty == 0x03 {
        // ACK with ECN counts
        match skip_ack(s) {
            Some(s1) => skip_varints(s1, 3),
            None => None,
        }
    } else if ty == 0x04 {
        // RESET_STREAM
        skip_varints(s, 3)
    } else if ty == 0x05 || ty == 0x11 || ty == 0x15 {
        // STOP_SENDING, MAX_STREAM_DATA, STREAM_DATA_BLOCKED
        skip_varints(s, 2)
    } else if ty == 0x06 || ty == 0x1d {
        // CRYPTO, CONNECTION_CLOSE of the application
        match skip_varints(s, 1) {
            Some(s1) => skip_sized(s1),
            None => None,
        }
    } else if ty == 0x07 {
        // NEW_TOKEN
        match take_sized(s) {
            Some((token, rest)) => if token.len() > 0 {
                Some(rest)
            } else {
                None
            },
            None => None,
        }
    } else if ty == 0x10 || 0x12 <= ty <= 0x14 || ty == 0x16 || ty == 0x17 || ty == 0x19 {
        // MAX_DATA, MAX_STREAMS, DATA_BLOCKED, STREAMS_BLOCKED, RETIRE_CONNECTION_ID
        skip_varints(s, 1)
    } else if ty == 0x18 {
        skip_new_connection_id(s)
    } else if ty == 0x1a || ty == 0x1b {
        // PATH_CHALLENGE, PATH_RESPONSE
        skip_bytes(s, 8)
    } else if ty == 0x1c {
        // CONNECTION_CLOSE
        match skip_varints(s, 2) {
            Some(s1) => skip_sized(s1),
            None => None,
        }
    } else {
        Some(Seq::empty())
    }
}

/// The frame that `s` begins with, and the bytes behind it.
pub open spec fn take_frame(s: Seq<u8>) -> Option<(FrameView, Seq<u8>)> {
    match take_varint(s) {
        Some((ty, s1)) => if 0x08 <= ty <= 0x0f {
            take_stream(ty, s1)
        } else if ty == 0x30 {
            Some((FrameView::Datagram { data: s1 }, Seq::empty()))
        } else if ty == 0x31 {
            match take_sized(s1) {
                Some((data, rest)) => Some((FrameView::Datagram { data }, rest)),
                None => None,
            }
        } else if ty == MC_FLOW_TYPE {
            match take_flow(s1) {
                Some((flow, rest)) => Some((FrameView::McFlow { flow }, rest)),
                None => None,
            }
        } else {
            match skip_fields(ty, s1) {
                Some(rest) => Some((FrameView::Ignored, rest)),
                None => None,
            }
        },
        None => None,
    }
}

/// Passing over variable-length integers leaves no more than there was.
proof fn lemma_skip_varints(s: Seq<u8>, n: nat)
    ensures
        skip_varints(s, n) matches Some(rest) ==> rest.len() <= s.len(),
    decreases n,
{
    if n > 0 {
        if let Some((_, rest)) = take_varint(s) {
            lemma_skip_varints(rest, (n - 1) as nat);
        }
    }
}

/// Passing over the ranges of an `ACK` frame leaves no more than there was.
proof fn lemma_skip_ack_ranges(s: Seq<u8>, n: nat, smallest: int)
    ensures
        skip_ack_ranges(s, n, smallest) matches Some(rest) ==> rest.len() <= s.len(),
    decreases n,
{
    if n > 0 {
        if let Some((gap, s1)) = take_varint(s) {
            if let Some((len, s2)) = take_varint(s1) {
                lemma_skip_ack_ranges(s2, (n - 1) as nat, smallest - gap - 2 - len);
            }
        }
    }
}

/// Passing over the fields of a frame leaves no more than there was.
proof fn lemma_skip_fields(ty: u64, s: Seq<u8>)
    ensures
        skip_fields(ty, s) matches Some(rest) ==> rest.len() <= s.len(),
{
    lemma_skip_varints(s, 1);
    lemma_skip_varints(s, 2);
    lemma_skip_varints(s, 3);
    if let Some((largest, s1)) = take_varint(s) {
        if let Some((_, s2)) = take_varint(s1) {
            if let Some((count, s3)) = take_varint(s2) {
                if let Some((len, s4)) = take_varint(s3) {
                    lemma_skip_ack_ranges(s4, count as nat, largest - len);
                }
            }
        }
    }
    if let Some(s1) = skip_ack(s) {
        lemma_skip_varints(s1, 3);
    }
}

/// There are fewer bytes behind a frame than there were before it.
pub proof fn lemma_take_frame(s: Seq<u8>)
    ensures
        take_frame(s) matches Some((_, rest)) ==> rest.len() < s.len(),
{
    if let Some((ty, s1)) = take_varint(s) {
        lemma_skip_fields(ty, s1);
    }
}

/// A variable-length integer is there where as many bytes are as the two leading
/// bits of the first one announce: one, two, four or eight. It is the number that
/// they spell without those bits, and what follows it is left.
pub proof fn law_varint_read(s: Seq<u8>)
    ensures
        s.len() == 0 ==> take_varint(s) is None,
        s.len() > 0 ==> {
            let (n, bound): (int, int) = if s[0] / 64 == 0 {
                (1, 0x40)
            } else if s[0] / 64 == 1 {
                (2, 0x4000)
            } else if s[0] / 64 == 2 {
                (4, 0x4000_0000)
            } else {
                (8, 0x4000_0000_0000_0000)
            };
            &&& s.len() < n ==> take_varint(s) is None
            &&& s.len() >= n ==> {
                &&& take_varint(s) is Some
                &&& (take_varint(s)->0).0 == be(s.take(n)) % (bound as nat)
                &&& (take_varint(s)->0).1 == s.skip(n)
            }
        },
{
}

/// What a `STREAM` frame of any type says. The lowest bit of the type is the end
/// of the stream, the next one is a length, the third one is an offset; without a
/// length the data is all that is left. The data ends before the largest offset
/// that there is.
pub proof fn law_stream_frame(s: Seq<u8>, ty: u64, s1: Seq<u8>, stream_id: u64, s2: Seq<u8>)
    requires
        take_varint(s) == Some((ty, s1)),
        0x08 <= ty <= 0x0f,
        take_varint(s1) == Some((stream_id, s2)),
    ensures
        ({
            let with_off = (ty / 4) % 2 == 1;
            let with_len = (ty / 2) % 2 == 1;
            let fin = ty % 2 == 1;
            let (offset, s3) = if with_off {
                take_varint(s2)->0
            } else {
                (0u64, s2)
            };
            let (len, s4) = if with_len {
                ((take_varint(s3)->0).0 as int, (take_varint(s3)->0).1)
            } else {
                (s3.len() as int, s3)
            };
            let there = (with_off ==> take_varint(s2) is Some) && (with_len ==> take_varint(
                s3,
            ) is Some) && len <= s4.len() && offset + len < 0x4000_0000_0000_0000;
            &&& !there ==> take_frame(s) is None
            &&& there ==> take_frame(s) == Some(
                (
                    FrameView::Stream { stream_id, offset, data: s4.take(len), fin },
                    s4.skip(len),
                ),
            )
        }),
{
}

/// What a `DATAGRAM` frame says: all that is left, or as many bytes as it
/// announces, of which none may be missing.
pub proof fn law_dgram_frame(s: Seq<u8>, ty: u64, s1: Seq<u8>)
    requires
        take_varint(s) == Some((ty, s1)),
        ty == 0x30 || ty == 0x31,
    ensures
        ty == 0x30 ==> take_frame(s) == Some(
            (FrameView::Datagram { data: s1 }, Seq::<u8>::empty()),
        ),
        ty == 0x31 ==> match take_varint(s1) {
            Some((n, s2)) if n <= s2.len() => take_frame(s) == Some(
                (FrameView::Datagram { data: s2.take(n as int) }, s2.skip(n as int)),
            ),
            _ => take_frame(s) is None,
        },
{
}

/// What is behind `n` variable-length integers, for the few that frames begin
/// with.
pub proof fn law_varints_skipped(s: Seq<u8>)
    ensures
        skip_varints(s, 0) == Some(s),
        match take_varint(s) {
            Some((_, s1)) => skip_varints(s, 1) == Some(s1) && match take_varint(s1) {
                Some((_, s2)) => skip_varints(s, 2) == Some(s2) && match take_varint(s2) {
                    Some((_, s3)) => skip_varints(s, 3) == Some(s3),
                    None => skip_varints(s, 3) is None,
                },
                None => skip_varints(s, 2) is None && skip_varints(s, 3) is None,
            },
            None => skip_varints(s, 1) is None && skip_varints(s, 2) is None && skip_varints(
                s,
                3,
            ) is None,
        },
{
    reveal_with_fuel(skip_varints, 4);
}

/// Frames that mean nothing on a flow are passed over where they are whole, and
/// malformed where they are not: those without fields, those with only
/// variable-length integers, those with bytes behind their number, and those with
/// a fixed number of bytes.
pub proof fn law_passed_over(s: Seq<u8>, ty: u64, s1: Seq<u8>)
    requires
        take_varint(s) == Some((ty, s1)),
        ty < 0x08 || 0x10 <= ty <= 0x1e,
        ty != 0x02,
        ty != 0x03,
        ty != 0x18,
    ensures
        ({
            // The number of variable-length integers in front.
            let n: nat = if ty == 0x04 {
                3
            } else if ty == 0x05 || ty == 0x11 || ty == 0x15 || ty == 0x1c {
                2
            } else if ty == 0x06 || ty == 0x10 || ty == 0x12 || ty == 0x13 || ty == 0x14 || ty
                == 0x16 || ty == 0x17 || ty == 0x19 || ty == 0x1d {
                1
            } else {
                0
            };
            let sized = ty == 0x06 || ty == 0x07 || ty == 0x1c || ty == 0x1d;
            let fixed = ty == 0x1a || ty == 0x1b;
            match skip_varints(s1, n) {
                None => take_frame(s) is None,
                Some(s2) => if sized {
                    match take_varint(s2) {
                        Some((len, s3)) if len <= s3.len() && (ty == 0x07 ==> len > 0) => take_frame(
                            s,
                        ) == Some((FrameView::Ignored, s3.skip(len as int))),
                        _ => take_frame(s) is None,
                    }
                } else if fixed {
                    if s2.len() >= 8 {
                        take_frame(s) == Some((FrameView::Ignored, s2.skip(8)))
                    } else {
                        take_frame(s) is None
                    }
                } else {
                    take_frame(s) == Some((FrameView::Ignored, s2))
                },
            }
        }),
{
    reveal_with_fuel(skip_varints, 4);
}

/// A `NEW_CONNECTION_ID` frame is passed over where its connection ID has one to
/// twenty bytes, and they and a reset token of sixteen are there.
pub proof fn law_new_connection_id_passed(s: Seq<u8>, s1: Seq<u8>)
    requires
        take_varint(s) == Some((0x18u64, s1)),
    ensures
        match skip_varints(s1, 2) {
            Some(s2) => if s2.len() > 0 && 1 <= s2[0] <= 20 && s2.len() >= 1 + s2[0] + 16 {
                take_frame(s) == Some((FrameView::Ignored, s2.skip(1 + s2[0] + 16)))
            } else {
                take_frame(s) is None
            },
            None => take_frame(s) is None,
        },
{
    if let Some(s2) = skip_varints(s1, 2) {
        if s2.len() > 0 && s2.len() >= 1 + s2[0] + 16 {
            assert(s2.skip(1).skip(s2[0] + 16) =~= s2.skip(1 + s2[0] + 16));
        }
    }
}

/// The further ranges of an `ACK` frame: each leaves a gap of its first number
/// and two more, and acknowledges its second number and one more, and none
/// reaches below packet number zero.
pub proof fn law_ack_range_passed(s: Seq<u8>, n: nat, smallest: int)
    ensures
        n == 0 ==> skip_ack_ranges(s, n, smallest) == Some(s),
        n > 0 ==> match take_varint(s) {
            Some((gap, s1)) => match take_varint(s1) {
                Some((len, s2)) => if gap + 2 + len <= smallest {
                    skip_ack_ranges(s, n, smallest) == skip_ack_ranges(
                        s2,
                        (n - 1) as nat,
                        smallest - (gap + 2 + len),
                    )
                } else {
                    skip_ack_ranges(s, n, smallest) is None
                },
                None => skip_ack_ranges(s, n, smallest) is None,
            },
            None => skip_ack_ranges(s, n, smallest) is None,
        },
{
}

/// An `ACK` frame is passed over where its first range does not reach below packet
/// number zero, and its further ranges, and the counts of one with ECN, are there.
pub proof fn law_ack_passed(s: Seq<u8>, ty: u64, s1: Seq<u8>)
    requires
        take_varint(s) == Some((ty, s1)),
        ty == 0x02 || ty == 0x03,
    ensures
        match skip_varints(s1, 3) {
            Some(s4) => {
                let largest = (take_varint(s1)->0).0;
                let s2 = (take_varint(s1)->0).1;
                let s3 = (take_varint(s2)->0).1;
                let count = (take_varint(s3)->0).0;
                match take_varint(s4) {
                    Some((len, s5)) if len <= largest => match skip_ack_ranges(
                        s5,
                        count as nat,
                        largest - len,
                    ) {
                        Some(s6) => if ty == 0x02 {
                            take_frame(s) == Some((FrameView::Ignored, s6))
                        } else {
                            match skip_varints(s6, 3) {
                                Some(s7) => take_frame(s) == Some((FrameView::Ignored, s7)),
                                None => take_frame(s) is None,
                            }
                        },
                        None => take_frame(s) is None,
                    },
                    _ => take_frame(s) is None,
                }
            },
            None => take_frame(s) is None,
        },
{
    reveal_with_fuel(skip_varints, 4);
}

/// What an `MC_FLOW` frame says. The Flow ID has one to twenty bytes, and both
/// addresses are of the version that is given, four or six; any other frame is
/// malformed.
pub proof fn law_flow_frame(s: Seq<u8>, s1: Seq<u8>)
    requires
        take_varint(s) == Some((0xff4d43u64, s1)),
    ensures
        ({
            let len = s1[0] as int;
            let version = s1[1 + len];
            let width: int = if version == 4 {
                4
            } else {
                16
            };
            let s2 = s1.skip(2 + len);
            let s3 = s2.skip(2 * width + 4);
            let (first_pn, s4) = take_varint(s3)->0;
            let (secret_len, s5) = take_varint(s4)->0;
            let whole = s1.len() > 0 && 1 <= len <= 20 && s1.len() >= 2 + len && (version == 4
                || version == 6) && s2.len() >= 2 * width + 4 && take_varint(s3) is Some
                && take_varint(s4) is Some && secret_len <= s5.len();
            &&& !whole ==> take_frame(s) is None
            &&& whole ==> {
                let ip = |bytes: Seq<u8>|
                    if version == 4 {
                        IpAddr::V4(be(bytes) as u32)
                    } else {
                        IpAddr::V6(be(bytes) as u128)
                    };
                take_frame(s) == Some(
                    (
                        FrameView::McFlow {
                            flow: FlowView {
                                flow_id: s1.subrange(1, 1 + len),
                                source_ip: ip(s2.take(width)),
                                group_ip: ip(s2.subrange(width, 2 * width)),
                                udp_port: be(s2.subrange(2 * width, 2 * width + 2)) as u16,
                                cipher_suite: be(s2.subrange(2 * width + 2, 2 * width + 4)) as u16,
                                first_pn,
                                secret: s5.take(secret_len as int),
                            },
                        },
                        s5.skip(secret_len as int),
                    ),
                )
            }
        }),
{
    if s1.len() > 0 {
        let len = s1[0] as int;
        if 1 <= len <= 20 && s1.len() >= 2 + len {
            let version = s1[1 + len];
            let s2 = s1.skip(2 + len);
            let a = s1.skip(1);
            assert(a.take(len) =~= s1.subrange(1, 1 + len));
            let b = a.skip(len);
            assert(b[0] == version);
            assert(b.skip(1) =~= s2);
            let width: int = if version == 4 {
                4
            } else {
                16
            };
            assert(take_u8(b) == Some((version, s2)));
            if s2.len() >= width {
                let c = s2.skip(width);
                if c.len() >= width {
                    assert(c.take(width) =~= s2.subrange(width, 2 * width));
                    let d = c.skip(width);
                    if d.len() >= 2 {
                        assert(d.take(2) =~= s2.subrange(2 * width, 2 * width + 2));
                        let e = d.skip(2);
                        if e.len() >= 2 {
                            assert(e.take(2) =~= s2.subrange(2 * width + 2, 2 * width + 4));
                            assert(e.skip(2) =~= s2.skip(2 * width + 4));
                        }
                    }
                }
            }
        }
    }
}

/// A frame whose type is not there is malformed.
pub proof fn law_type_needed(s: Seq<u8>)
    requires
        take_varint(s) is None,
    ensures
        take_frame(s) is None,
{
}

/// Which frame types are known: those of QUIC itself, the two of datagrams, and
/// that of flows.
pub proof fn law_known_types(ty: u64)
    ensures
        is_known(ty) <==> ty <= 0x1e || ty == 0x30 || ty == 0x31 || ty == 0xff4d43,
{
}

/// No more has been read than there is.
pub open spec fn live(b: Octets) -> bool {
    octets_read(b) <= octets_bytes(b).len()
}

/// Reading `n` more bytes leaves the bytes behind them.
proof fn lemma_advanced(before: Octets, after: Octets, n: nat)
    requires
        advanced(before, after, n),
    ensures
        unread(after) == unread(before).skip(n as int),
        unread(before).len() >= n,
        live(after),
{
    assert(unread(after) =~= unread(before).skip(n as int));
}

fn read_u8(b: &mut Octets) -> (r: Option<u8>)
    requires
        live(*old(b)),
    ensures
        live(*final(b)),
        match r {
            Some(v) => take_u8(unread(*old(b))) == Some((v, unread(*final(b)))),
            None => take_u8(unread(*old(b))) is None,
        },
{
    match b.get_u8() {
        Ok(v) => {
            proof {
                lemma_advanced(*old(b), *b, 1);
            }
            Some(v)
        },
        Err(_) => None,
    }
}

fn read_u16(b: &mut Octets) -> (r: Option<u16>)
    requires
        live(*old(b)),
    ensures
        live(*final(b)),
        match r {
            Some(v) => take_be(unread(*old(b)), 2) == Some((v as nat, unread(*final(b)))),
            None => take_be(unread(*old(b)), 2) is None,
        },
{
    match b.get_u16() {
        Ok(v) => {
            proof {
                lemma_advanced(*old(b), *b, 2);
            }
            Some(v)
        },
        Err(_) => None,
    }
}

fn read_varint(b: &mut Octets) -> (r: Option<u64>)
    requires
        live(*old(b)),
    ensures
        live(*final(b)),
        match r {
            Some(v) => take_varint(unread(*old(b))) == Some((v, unread(*final(b)))),
            None => take_varint(unread(*old(b))) is None,
        },
{
    match b.get_varint() {
        Ok(v) => {
            proof {
                lemma_advanced(*old(b), *b, varint_len(unread(*old(b))[0]));
            }
            Some(v)
        },
        Err(_) => None,
    }
}

fn read_bytes(b: &mut Octets, n: usize) -> (r: Option<Vec<u8>>)
    requires
        live(*old(b)),
    ensures
        live(*final(b)),
        match r {
            Some(v) => take_bytes(unread(*old(b)), n as nat) == Some((v@, unread(*final(b)))),
            None => take_bytes(unread(*old(b)), n as nat) is None,
        },
{
    match b.get_bytes(n) {
        Ok(v) => {
            proof {
                lemma_advanced(*old(b), *b, n as nat);
                assert(unread(v) =~= unread(*old(b)).take(n as int));
            }
            Some(v.to_vec())
        },
        Err(_) => None,
    }
}

fn read_sized(b: &mut Octets) -> (r: Option<Vec<u8>>)
    requires
        live(*old(b)),
    ensures
        live(*final(b)),
        match r {
            Some(v) => take_sized(unread(*old(b))) == Some((v@, unread(*final(b)))),
            None => take_sized(unread(*old(b))) is None,
        },
{
    let n = match read_varint(b) {
        Some(n) => n,
        None => return None,
    };
    let left: usize = b.cap();
    if n > left as u64 {
        return None;
    }
    read_bytes(b, n as usize)
}

fn pass_varints(b: &mut Octets, n: usize) -> (ok: bool)
    requires
        live(*old(b)),
    ensures
        live(*final(b)),
        ok ==> skip_varints(unread(*old(b)), n as nat) == Some(unread(*final(b))),
        !ok ==> skip_varints(unread(*old(b)), n as nat) is None,
{
    let mut i: usize = 0;
    while i < n
        invariant
            i <= n,
            live(*b),
            skip_varints(unread(*old(b)), n as nat) == skip_varints(unread(*b), (n - i) as nat),
        decreases n - i,
    {
        if read_varint(b).is_none() {
            return false;
        }
        i += 1;
    }
    true
}

fn pass_bytes(b: &mut Octets, n: usize) -> (ok: bool)
    requires
        live(*old(b)),
    ensures
        live(*final(b)),
        ok ==> skip_bytes(unread(*old(b)), n as nat) == Some(unread(*final(b))),
        !ok ==> skip_bytes(unread(*old(b)), n as nat) is None,
{
    read_bytes(b, n).is_some()
}

fn pass_sized(b: &mut Octets) -> (ok: bool)
    requires
        live(*old(b)),
    ensures
        live(*final(b)),
        ok ==> skip_sized(unread(*old(b))) == Some(unread(*final(b))),
        !ok ==> skip_sized(unread(*old(b))) is None,
{
    read_sized(b).is_some()
}

fn pass_ack(b: &mut Octets) -> (ok: bool)
    requires
        live(*old(b)),
    ensures
        live(*final(b)),
        ok ==> skip_ack(unread(*old(b))) == Some(unread(*final(b))),
        !ok ==> skip_ack(unread(*old(b))) is None,
{
    let largest = match read_varint(b) {
        Some(v) => v,
        None => return false,
    };
    if read_varint(b).is_none() {
        return false;
    }
    let count = match read_varint(b) {
        Some(v) => v,
        None => return false,
    };
    let len = match read_varint(b) {
        Some(v) => v,
        None => return false,
    };
    if largest < len {
        return false;
    }
    let mut smallest: u64 = largest - len;
    let mut i: u64 = 0;
    assert(skip_ack(unread(*old(b))) == skip_ack_ranges(unread(*b), count as nat, smallest as int));
    while i < count
        invariant
            i <= count,
            live(*b),
            skip_ack(unread(*old(b))) == skip_ack_ranges(
                unread(*b),
                (count - i) as nat,
                smallest as int,
            ),
        decreases count - i,
    {
        let gap = match read_varint(b) {
            Some(v) => v,
            None => return false,
        };
        let len = match read_varint(b) {
            Some(v) => v,
            None => return false,
        };
        if smallest < gap || smallest - gap < 2 || smallest - gap - 2 < len {
            return false;
        }
        smallest = smallest - gap - 2 - len;
        i += 1;
    }
    true
}

fn pass_new_connection_id(b: &mut Octets) -> (ok: bool)
    requires
        live(*old(b)),
    ensures
        live(*final(b)),
        ok ==> skip_new_connection_id(unread(*old(b))) == Some(unread(*final(b))),
        !ok ==> skip_new_connection_id(unread(*old(b))) is None,
{
    if !pass_varints(b, 2) {
        return false;
    }
    let len = match read_u8(b) {
        Some(v) => v,
        None => return false,
    };
    if len < 1 || len > MAX_CID_LEN {
        return false;
    }
    pass_bytes(b, len as usize + RESET_TOKEN_LEN)
}

fn pass_fields(ty: u64, b: &mut Octets) -> (ok: bool)
    requires
        live(*old(b)),
    ensures
        live(*final(b)),
        ok ==> skip_fields(ty, unread(*old(b))) == Some(unread(*final(b))),
        !ok ==> skip_fields(ty, unread(*old(b))) is None,
{
    if ty == 0x00 || ty == 0x01 || ty == 0x1e {
        true
    } else if ty == 0x02 {
        pass_ack(b)
    } else if ty == 0x03 {
        pass_ack(b) && pass_varints(b, 3)
    } else if ty == 0x04 {
        pass_varints(b, 3)
    } else if ty == 0x05 || ty == 0x11 || ty == 0x15 {
        pass_varints(b, 2)
    } else if ty == 0x06 || ty == 0x1d {
        pass_varints(b, 1) && pass_sized(b)
    } else if ty == 0x07 {
        match read_sized(b) {
            Some(token) => token.len() > 0,
            None => false,
        }
    } else if ty == 0x10 || (0x12 <= ty && ty <= 0x14) || ty == 0x16 || ty == 0x17 || ty == 0x19 {
        pass_varints(b, 1)
    } else if ty == 0x18 {
        pass_new_connection_id(b)
    } else if ty == 0x1a || ty == 0x1b {
        pass_bytes(b, 8)
    } else if ty == 0x1c {
        pass_varints(b, 2) && pass_sized(b)
    } else {
        let left: usize = b.cap();
        let ghost s = unread(*b);
        assert(s.skip(left as int) =~= Seq::empty());
        pass_bytes(b, left)
    }
}

fn read_stream(ty: u64, b: &mut Octets) -> (r: Option<(u64, RangeBuf)>)
    requires
        live(*old(b)),
        0x08 <= ty <= 0x0f,
    ensures
        live(*final(b)),
        match r {
            Some((stream_id, data)) => data.wf() && take_stream(ty, unread(*old(b))) == Some(
                (
                    FrameView::Stream {
                        stream_id,
                        offset: data.off,
                        data: data.data@,
                        fin: data.fin,
                    },
                    unread(*final(b)),
                ),
            ),
            None => take_stream(ty, unread(*old(b))) is None,
        },
{
    let fin = ty == 0x09 || ty == 0x0b || ty == 0x0d || ty == 0x0f;
    let with_len = ty == 0x0a || ty == 0x0b || ty == 0x0e || ty == 0x0f;
    let stream_id = match read_varint(b) {
        Some(v) => v,
        None => return None,
    };
    let off: u64 = if ty >= 0x0c {
        match read_varint(b) {
            Some(v) => v,
            None => return None,
        }
    } else {
        0
    };
    let data = if with_len {
        read_sized(b)
    } else {
        let left: usize = b.cap();
        read_bytes(b, left)
    };
    let data = match data {
        Some(v) => v,
        None => return None,
    };
    if off >= MAX_STREAM_SIZE || data.len() as u64 >= MAX_STREAM_SIZE - off {
        return None;
    }
    Some((stream_id, RangeBuf { off, data, fin }))
}

/// Bytes in front multiply by the weight of those behind them.
proof fn lemma_be_concat(a: Seq<u8>, b: Seq<u8>)
    ensures
        be(a + b) == be(a) * pow(256, b.len()) + be(b),
    decreases b.len(),
{
    reveal(pow);
    if b.len() == 0 {
        assert(a + b =~= a);
    } else {
        let c = b.drop_last();
        lemma_be_concat(a, c);
        assert((a + b).drop_last() =~= a + c);
        assert((be(a) * pow(256, c.len()) + be(c)) * 256 + b.last() == be(a) * (256 * pow(
            256,
            c.len(),
        )) + (be(c) * 256 + b.last())) by (nonlinear_arith);
    }
}

/// A number of sixteen bytes is made of two of eight.
proof fn lemma_be_halves(s: Seq<u8>)
    requires
        s.len() == 16,
    ensures
        be(s) == be(s.take(8)) * 0x1_0000_0000_0000_0000 + be(s.skip(8)),
{
    lemma_be_concat(s.take(8), s.skip(8));
    assert(s.take(8) + s.skip(8) =~= s);
    assert(pow(256, 8) == 0x1_0000_0000_0000_0000) by {
        reveal_with_fuel(pow, 9);
    }
}

fn read_ip(version: u8, b: &mut Octets) -> (r: Option<IpAddr>)
    requires
        live(*old(b)),
    ensures
        live(*final(b)),
        match r {
            Some(ip) => take_ip(version, unread(*old(b))) == Some((ip, unread(*final(b)))),
            None => take_ip(version, unread(*old(b))) is None,
        },
{
    if version == 4 {
        match b.get_u32() {
            Ok(v) => {
                proof {
                    lemma_advanced(*old(b), *b, 4);
                }
                Some(IpAddr::V4(v))
            },
            Err(_) => None,
        }
    } else if version == 6 {
        let high = match b.get_u64() {
            Ok(v) => v,
            Err(_) => return None,
        };
        let ghost mid = *b;
        proof {
            lemma_advanced(*old(b), mid, 8);
        }
        let low = match b.get_u64() {
            Ok(v) => v,
            Err(_) => return None,
        };
        proof {
            lemma_advanced(mid, *b, 8);
            let s = unread(*old(b));
            lemma_be_halves(s.take(16));
            assert(s.take(16).take(8) =~= s.take(8));
            assert(s.take(16).skip(8) =~= s.skip(8).take(8));
            assert(s.skip(8).skip(8) =~= s.skip(16));
        }
        Some(IpAddr::V6(high as u128 * 0x1_0000_0000_0000_0000 + low as u128))
    } else {
        None
    }
}

fn read_flow(b: &mut Octets) -> (r: Option<Frame>)
    requires
        live(*old(b)),
    ensures
        live(*final(b)),
        match r {
            Some(f) => f is McFlow && take_flow(unread(*old(b))) == Some(
                (f@->flow, unread(*final(b))),
            ),
            None => take_flow(unread(*old(b))) is None,
        },
{
    let len = match read_u8(b) {
        Some(v) => v,
        None => return None,
    };
    if len < 1 || len > MAX_CID_LEN {
        return None;
    }
    let flow_id = match read_bytes(b, len as usize) {
        Some(v) => v,
        None => return None,
    };
    let version = match read_u8(b) {
        Some(v) => v,
        None => return None,
    };
    let source_ip = match read_ip(version, b) {
        Some(v) => v,
        None => return None,
    };
    let group_ip = match read_ip(version, b) {
        Some(v) => v,
        None => return None,
    };
    let udp_port = match read_u16(b) {
        Some(v) => v,
        None => return None,
    };
    let cipher_suite = match read_u16(b) {
        Some(v) => v,
        None => return None,
    };
    let first_pn = match read_varint(b) {
        Some(v) => v,
        None => return None,
    };
    let secret = match read_sized(b) {
        Some(v) => v,
        None => return None,
    };
    Some(
        Frame::McFlow { flow_id, source_ip, group_ip, udp_port, cipher_suite, first_pn, secret },
    )
}

impl Frame {
    /// Parses the next frame of a packet payload.
    pub fn from_bytes(b: &mut Octets) -> (r: Result<Frame, Error>)
        requires
            live(*old(b)),
        ensures
            live(*final(b)),
            match r {
                Ok(frame) => frame.wf() && take_frame(unread(*old(b))) == Some(
                    (frame@, unread(*final(b))),
                ),
                Err(e) => take_frame(unread(*old(b))) is None && e == Error::InvalidFrame,
            },
    {
        let ty = match read_varint(b) {
            Some(v) => v,
            None => return Err(Error::InvalidFrame),
        };
        if 0x08 <= ty && ty <= 0x0f {
            match read_stream(ty, b) {
                Some((stream_id, data)) => Ok(Frame::Stream { stream_id, data }),
                None => Err(Error::InvalidFrame),
            }
        } else if ty == 0x30 {
            let left: usize = b.cap();
            let ghost s = unread(*b);
            match read_bytes(b, left) {
                Some(data) => {
                    assert(s.take(left as int) =~= s);
                    assert(s.skip(left as int) =~= Seq::empty());
                    Ok(Frame::Datagram { data })
                },
                None => Err(Error::InvalidFrame),
            }
        } else if ty == 0x31 {
            match read_sized(b) {
                Some(data) => Ok(Frame::Datagram { data }),
                None => Err(Error::InvalidFrame),
            }
        } else if ty == MC_FLOW_TYPE {
            match read_flow(b) {
                Some(frame) => Ok(frame),
                None => Err(Error::InvalidFrame),
            }
        } else if pass_fields(ty, b) {
            Ok(Frame::Ignored)
        } else {
            Err(Error::InvalidFrame)
        }
    }
}

} // verus!
