//! The wire format of `MC_FLOW` frames.

use crate::frame::{
    take_be, take_bytes, take_flow, take_flow_keys, take_frame, take_ip, take_u8, take_varint,
    FrameView, MC_FLOW_TYPE,
};
use crate::multicast::{FlowView, McFlowInfo};
use crate::net::IpAddr;
use crate::octets_spec::{be, varint_len};
use crate::packet::MAX_CID_LEN;
use vstd::arithmetic::power::pow;
use vstd::prelude::*;

verus! {

/// Variable-length integers are below this number.
pub const VARINT_LIMIT: u64 = 0x4000_0000_0000_0000;

/// The `n` bytes of a number in network byte order.
pub open spec fn be_bytes(v: nat, n: nat) -> Seq<u8>
    decreases n,
{
    if n == 0 {
        Seq::empty()
    } else {
        be_bytes(v / 256, (n - 1) as nat).push((v % 256) as u8)
    }
}

/// The shortest variable-length integer for `v`: its two leading bits say
/// whether it has one, two, four or eight bytes.
pub open spec fn varint_bytes(v: u64) -> Seq<u8> {
    if v < 0x40 {
        seq![v as u8]
    } else if v < 0x4000 {
        be_bytes((0x4000 + v) as nat, 2)
    } else if v < 0x4000_0000 {
        be_bytes((0x8000_0000 + v) as nat, 4)
    } else {
        be_bytes((0xc000_0000_0000_0000 + v) as nat, 8)
    }
}

/// The IP version of an address.
pub open spec fn ip_version(ip: IpAddr) -> u8 {
    match ip {
        IpAddr::V4(_) => 4,
        IpAddr::V6(_) => 6,
    }
}

/// The bytes of an address in network byte order.
pub open spec fn ip_bytes(ip: IpAddr) -> Seq<u8> {
    match ip {
        IpAddr::V4(v) => be_bytes(v as nat, 4),
        IpAddr::V6(v) => be_bytes(v as nat, 16),
    }
}

/// Whether an `MC_FLOW` frame can describe the flow.
pub open spec fn describable(flow: FlowView) -> bool {
    &&& 1 <= flow.flow_id.len() <= MAX_CID_LEN
    &&& ip_version(flow.source_ip) == ip_version(flow.group_ip)
    &&& flow.first_pn < VARINT_LIMIT
    &&& flow.secret.len() < VARINT_LIMIT
}

/// The first fields of an `MC_FLOW` frame: Flow ID and IP version.
pub open spec fn flow_id_bytes(flow: FlowView) -> Seq<u8> {
    seq![flow.flow_id.len() as u8] + flow.flow_id + seq![ip_version(flow.source_ip)]
}

/// The last fields of an `MC_FLOW` frame: port, cipher suite, first packet
/// number and secret.
pub open spec fn flow_key_bytes(flow: FlowView) -> Seq<u8> {
    be_bytes(flow.udp_port as nat, 2) + be_bytes(flow.cipher_suite as nat, 2) + varint_bytes(
        flow.first_pn,
    ) + varint_bytes(flow.secret.len() as u64) + flow.secret
}

/// The `MC_FLOW` frame that describes a flow.
pub open spec fn flow_bytes(flow: FlowView) -> Seq<u8> {
    varint_bytes(MC_FLOW_TYPE) + flow_id_bytes(flow) + ip_bytes(flow.source_ip) + ip_bytes(
        flow.group_ip,
    ) + flow_key_bytes(flow)
}

/// The bytes of a number spell it.
proof fn lemma_be_bytes(v: nat, n: nat)
    requires
        v < pow(256, n),
    ensures
        be_bytes(v, n).len() == n,
        be(be_bytes(v, n)) == v,
    decreases n,
{
    reveal(pow);
    if n > 0 {
        assert(v / 256 < pow(256, (n - 1) as nat)) by (nonlinear_arith)
            requires
                v < 256 * pow(256, (n - 1) as nat),
        ;
        lemma_be_bytes(v / 256, (n - 1) as nat);
        let s = be_bytes(v, n);
        assert(s.drop_last() =~= be_bytes(v / 256, (n - 1) as nat));
        assert(s.last() == v % 256);
    }
}

/// Reading a number behind its bytes.
proof fn lemma_take_be(v: nat, n: nat, rest: Seq<u8>)
    requires
        v < pow(256, n),
    ensures
        take_be(be_bytes(v, n) + rest, n) == Some((v, rest)),
{
    lemma_be_bytes(v, n);
    let s = be_bytes(v, n) + rest;
    assert(s.take(n as int) =~= be_bytes(v, n));
    assert(s.skip(n as int) =~= rest);
}

/// Reading bytes.
proof fn lemma_take_bytes(a: Seq<u8>, rest: Seq<u8>)
    ensures
        take_bytes(a + rest, a.len()) == Some((a, rest)),
{
    assert((a + rest).take(a.len() as int) =~= a);
    assert((a + rest).skip(a.len() as int) =~= rest);
}

/// Reading one byte.
proof fn lemma_take_u8(b: u8, rest: Seq<u8>)
    ensures
        take_u8(seq![b] + rest) == Some((b, rest)),
{
    assert((seq![b] + rest).skip(1) =~= rest);
}

/// A variable-length integer is read as it was written.
pub proof fn law_varint_round_trip(v: u64, rest: Seq<u8>)
    requires
        v < VARINT_LIMIT,
    ensures
        take_varint(varint_bytes(v) + rest) == Some((v, rest)),
{
    reveal_with_fuel(pow, 9);
    let s = varint_bytes(v) + rest;
    let n: nat = if v < 0x40 {
        1
    } else if v < 0x4000 {
        2
    } else if v < 0x4000_0000 {
        4
    } else {
        8
    };
    let x: nat = if v < 0x40 {
        v as nat
    } else if v < 0x4000 {
        (0x4000 + v) as nat
    } else if v < 0x4000_0000 {
        (0x8000_0000 + v) as nat
    } else {
        (0xc000_0000_0000_0000 + v) as nat
    };
    reveal_with_fuel(be_bytes, 9);
    assert(varint_bytes(v) =~= be_bytes(x, n));
    lemma_be_bytes(x, n);
    assert(s.take(n as int) =~= be_bytes(x, n));
    assert(s.skip(n as int) =~= rest);
    assert(varint_len(s[0]) == n);
}

/// An address is read as it was written.
proof fn lemma_take_ip(ip: IpAddr, rest: Seq<u8>)
    ensures
        take_ip(ip_version(ip), ip_bytes(ip) + rest) == Some((ip, rest)),
{
    reveal_with_fuel(pow, 17);
    match ip {
        IpAddr::V4(v) => lemma_take_be(v as nat, 4, rest),
        IpAddr::V6(v) => lemma_take_be(v as nat, 16, rest),
    }
}

/// It does not matter where five pieces are joined first.
proof fn lemma_joined(a: Seq<u8>, b: Seq<u8>, c: Seq<u8>, d: Seq<u8>, e: Seq<u8>, rest: Seq<u8>)
    ensures
        a + b + c + d + e + rest == a + (b + (c + (d + (e + rest)))),
{
    assert(a + b + c + d + e + rest =~= a + (b + (c + (d + (e + rest)))));
}

/// The last fields of the frame are read as they were written.
proof fn lemma_take_flow_keys(flow: FlowView, rest: Seq<u8>)
    requires
        flow.first_pn < VARINT_LIMIT,
        flow.secret.len() < VARINT_LIMIT,
    ensures
        take_flow_keys(flow_key_bytes(flow) + rest) == Some(
            ((flow.udp_port, flow.cipher_suite, flow.first_pn, flow.secret), rest),
        ),
{
    reveal_with_fuel(pow, 3);
    let s4 = flow.secret + rest;
    let s3 = varint_bytes(flow.secret.len() as u64) + s4;
    let s2 = varint_bytes(flow.first_pn) + s3;
    let s1 = be_bytes(flow.cipher_suite as nat, 2) + s2;
    lemma_joined(
        be_bytes(flow.udp_port as nat, 2),
        be_bytes(flow.cipher_suite as nat, 2),
        varint_bytes(flow.first_pn),
        varint_bytes(flow.secret.len() as u64),
        flow.secret,
        rest,
    );
    lemma_take_be(flow.udp_port as nat, 2, s1);
    lemma_take_be(flow.cipher_suite as nat, 2, s2);
    law_varint_round_trip(flow.first_pn, s3);
    law_varint_round_trip(flow.secret.len() as u64, s4);
    lemma_take_bytes(flow.secret, rest);
}

/// The fields of the frame are read as they were written.
proof fn lemma_take_flow(flow: FlowView, rest: Seq<u8>)
    requires
        describable(flow),
    ensures
        take_flow(
            flow_id_bytes(flow) + (ip_bytes(flow.source_ip) + (ip_bytes(flow.group_ip) + (
            flow_key_bytes(flow) + rest))),
        ) == Some((flow, rest)),
{
    let keys = flow_key_bytes(flow) + rest;
    let s5 = ip_bytes(flow.group_ip) + keys;
    let s4 = ip_bytes(flow.source_ip) + s5;
    let s3 = seq![ip_version(flow.source_ip)] + s4;
    let s2 = flow.flow_id + s3;
    let s1 = seq![flow.flow_id.len() as u8] + s2;
    assert(flow_id_bytes(flow) + s4 =~= s1);
    lemma_take_u8(flow.flow_id.len() as u8, s2);
    lemma_take_bytes(flow.flow_id, s3);
    lemma_take_u8(ip_version(flow.source_ip), s4);
    lemma_take_ip(flow.source_ip, s5);
    lemma_take_ip(flow.group_ip, keys);
    lemma_take_flow_keys(flow, rest);
}

/// What a client reads from an advertisement is the flow that was advertised,
/// whatever follows in the packet.
pub proof fn law_flow_round_trip(flow: FlowView, rest: Seq<u8>)
    requires
        describable(flow),
    ensures
        take_frame(flow_bytes(flow) + rest) == Some((FrameView::McFlow { flow }, rest)),
{
    lemma_joined(
        varint_bytes(MC_FLOW_TYPE),
        flow_id_bytes(flow),
        ip_bytes(flow.source_ip),
        ip_bytes(flow.group_ip),
        flow_key_bytes(flow),
        rest,
    );
    let fields = flow_id_bytes(flow) + (ip_bytes(flow.source_ip) + (ip_bytes(flow.group_ip) + (
    flow_key_bytes(flow) + rest)));
    law_varint_round_trip(MC_FLOW_TYPE, fields);
    lemma_take_flow(flow, rest);
}

/// Which flows can be described: those with a Flow ID of one to twenty bytes,
/// with addresses of one family, and with a first packet number and a secret whose
/// length variable-length integers can hold.
pub proof fn law_describable(flow: FlowView)
    ensures
        describable(flow) <==> {
            &&& 1 <= flow.flow_id.len() <= 20
            &&& (flow.source_ip is V4 <==> flow.group_ip is V4)
            &&& flow.first_pn < 0x4000_0000_0000_0000
            &&& flow.secret.len() < 0x4000_0000_0000_0000
        },
{
}

/// The frame that describes a flow has the documented fields in their order:
/// type, Flow ID behind its length, IP version, source, group, port, cipher suite,
/// first packet number, and secret behind its length.
pub proof fn law_flow_layout(flow: FlowView)
    requires
        describable(flow),
    ensures
        ({
            let b = flow_bytes(flow);
            let len = flow.flow_id.len() as int;
            let (version, width): (u8, int) = if flow.source_ip is V4 {
                (4, 4)
            } else {
                (6, 16)
            };
            let at = 6 + len;
            &&& b.take(4) == seq![0x80u8, 0xff, 0x4d, 0x43]
            &&& b[4] == len
            &&& b.subrange(5, 5 + len) == flow.flow_id
            &&& b[5 + len] == version
            &&& be(b.subrange(at, at + width)) == (match flow.source_ip {
                IpAddr::V4(ip) => ip as nat,
                IpAddr::V6(ip) => ip as nat,
            })
            &&& be(b.subrange(at + width, at + 2 * width)) == (match flow.group_ip {
                IpAddr::V4(ip) => ip as nat,
                IpAddr::V6(ip) => ip as nat,
            })
            &&& be(b.subrange(at + 2 * width, at + 2 * width + 2)) == flow.udp_port
            &&& be(b.subrange(at + 2 * width + 2, at + 2 * width + 4)) == flow.cipher_suite
            &&& take_varint(b.skip(at + 2 * width + 4)) == Some(
                (flow.first_pn, varint_bytes(flow.secret.len() as u64) + flow.secret),
            )
        }),
{
    reveal_with_fuel(pow, 17);
    let empty = Seq::<u8>::empty();
    let b = flow_bytes(flow);
    let len = flow.flow_id.len() as int;
    let width: int = if flow.source_ip is V4 {
        4
    } else {
        16
    };
    let at = 6 + len;
    let ty = varint_bytes(MC_FLOW_TYPE);
    let id = flow_id_bytes(flow);
    let source = ip_bytes(flow.source_ip);
    let group = ip_bytes(flow.group_ip);
    let keys = flow_key_bytes(flow);
    let port = be_bytes(flow.udp_port as nat, 2);
    let suite = be_bytes(flow.cipher_suite as nat, 2);
    let tail = varint_bytes(flow.first_pn) + (varint_bytes(flow.secret.len() as u64) + flow.secret);
    assert(ty =~= seq![0x80u8, 0xff, 0x4d, 0x43]) by {
        reveal_with_fuel(be_bytes, 5);
    }
    lemma_be_bytes(flow.udp_port as nat, 2);
    lemma_be_bytes(flow.cipher_suite as nat, 2);
    match flow.source_ip {
        IpAddr::V4(ip) => lemma_be_bytes(ip as nat, 4),
        IpAddr::V6(ip) => lemma_be_bytes(ip as nat, 16),
    }
    match flow.group_ip {
        IpAddr::V4(ip) => lemma_be_bytes(ip as nat, 4),
        IpAddr::V6(ip) => lemma_be_bytes(ip as nat, 16),
    }
    assert(keys =~= port + suite + tail);
    assert(b.take(4) =~= ty);
    assert(b.subrange(5, 5 + len) =~= flow.flow_id);
    assert(b.subrange(at, at + width) =~= source);
    assert(b.subrange(at + width, at + 2 * width) =~= group);
    assert(b.skip(at + 2 * width) =~= keys);
    assert(b.subrange(at + 2 * width, at + 2 * width + 2) =~= port) by {
        assert(keys.subrange(0, 2) =~= port);
        assert(b.subrange(at + 2 * width, at + 2 * width + 2) =~= keys.subrange(0, 2));
    }
    assert(b.subrange(at + 2 * width + 2, at + 2 * width + 4) =~= suite) by {
        assert(keys.subrange(2, 4) =~= suite);
        assert(b.subrange(at + 2 * width + 2, at + 2 * width + 4) =~= keys.subrange(2, 4));
    }
    assert(b.skip(at + 2 * width + 4) =~= tail) by {
        assert(keys.skip(4) =~= tail);
        assert(b.skip(at + 2 * width + 4) =~= keys.skip(4));
    }
    law_varint_round_trip(
        flow.first_pn,
        varint_bytes(flow.secret.len() as u64) + flow.secret,
    );
}

/// Appends the `n` bytes of a number in network byte order.
fn put_be(out: &mut Vec<u8>, v: u128, n: usize)
    ensures
        final(out)@ == old(out)@ + be_bytes(v as nat, n as nat),
    decreases n,
{
    if n > 0 {
        put_be(out, v / 256, n - 1);
        out.push((v % 256) as u8);
    }
    assert(out@ =~= old(out)@ + be_bytes(v as nat, n as nat));
}

/// Appends a variable-length integer.
fn put_varint(out: &mut Vec<u8>, v: u64)
    requires
        v < VARINT_LIMIT,
    ensures
        final(out)@ == old(out)@ + varint_bytes(v),
{
    if v < 0x40 {
        out.push(v as u8);
        assert(out@ =~= old(out)@ + varint_bytes(v));
    } else if v < 0x4000 {
        put_be(out, 0x4000 + v as u128, 2);
    } else if v < 0x4000_0000 {
        put_be(out, 0x8000_0000 + v as u128, 4);
    } else {
        put_be(out, 0xc000_0000_0000_0000 + v as u128, 8);
    }
}

/// Appends an address.
fn put_ip(out: &mut Vec<u8>, ip: IpAddr)
    ensures
        final(out)@ == old(out)@ + ip_bytes(ip),
{
    match ip {
        IpAddr::V4(v) => put_be(out, v as u128, 4),
        IpAddr::V6(v) => put_be(out, v, 16),
    }
}

/// Encodes the `MC_FLOW` frame that describes a flow. `None`, where no such
/// frame can.
pub fn encode_flow(flow: &McFlowInfo) -> (bytes: Option<Vec<u8>>)
    ensures
        match bytes {
            Some(bytes) => describable(flow@) && bytes@ == flow_bytes(flow@),
            None => !describable(flow@),
        },
{
    let version: u8 = match (flow.source_ip, flow.group_ip) {
        (IpAddr::V4(_), IpAddr::V4(_)) => 4,
        (IpAddr::V6(_), IpAddr::V6(_)) => 6,
        _ => return None,
    };
    let id_len: usize = flow.flow_id.len();
    let secret_len: usize = flow.secret.len();
    if id_len < 1 || id_len > MAX_CID_LEN as usize || flow.first_pn >= VARINT_LIMIT
        || secret_len as u64 >= VARINT_LIMIT {
        return None;
    }
    let mut out: Vec<u8> = Vec::new();
    put_varint(&mut out, MC_FLOW_TYPE);
    out.push(id_len as u8);
    out.extend_from_slice(flow.flow_id.as_slice());
    out.push(version);
    put_ip(&mut out, flow.source_ip);
    put_ip(&mut out, flow.group_ip);
    put_be(&mut out, flow.udp_port as u128, 2);
    put_be(&mut out, flow.cipher_suite as u128, 2);
    put_varint(&mut out, flow.first_pn);
    put_varint(&mut out, secret_len as u64);
    out.extend_from_slice(flow.secret.as_slice());
    assert(out@ =~= flow_bytes(flow@));
    Some(out)
}

} // verus!
