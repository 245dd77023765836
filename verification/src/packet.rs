//! Short-header packets.

use crate::crypto::{aead_opened, header_mask, nonce, Keys, Open, SAMPLE_LEN, TAG_LEN};
use crate::octets_spec::{be, unread};
use octets::Octets;
use vstd::arithmetic::power::pow;
use vstd::prelude::*;
use vstd::slice::slice_subrange;

verus! {

/// The maximum length of a connection ID.
pub const MAX_CID_LEN: u8 = 20;

/// The maximum length of a packet number on the wire.
pub const MAX_PKT_NUM_LEN: usize = 4;

/// Packet numbers are below this number.
pub const PKT_NUM_LIMIT: u64 = 0x4000_0000_0000_0000;

/// Up to this number, and not above it, the reconstruction of packet numbers
/// cannot overflow, whatever a packet holds.
pub const MAX_PKT_NUM_BASIS: u64 = 0xffff_fffe_ffff_fffe;

/// The number of values that `pn_len` bytes can hold.
pub open spec fn pn_window(pn_len: nat) -> nat {
    if pn_len <= 1 {
        0x100
    } else if pn_len == 2 {
        0x1_0000
    } else if pn_len == 3 {
        0x100_0000
    } else {
        0x1_0000_0000
    }
}

/// The full packet number for a truncated one: of the numbers that end in
/// `truncated`, the one in the same window as the next expected number, moved
/// by one window where that brings it closer.
pub open spec fn decoded_pkt_num(largest: int, truncated: int, pn_len: nat) -> int {
    let expected = largest + 1;
    let window = pn_window(pn_len) as int;
    let candidate = expected - expected % window + truncated;
    if candidate + window / 2 <= expected && candidate < PKT_NUM_LIMIT - window {
        candidate + window
    } else if candidate > expected + window / 2 && candidate >= window {
        candidate - window
    } else {
        candidate
    }
}

/// Reconstructs a full packet number from its `pn_len` least significant
/// bytes and the largest packet number received so far.
pub fn decode_pkt_num(largest: u64, truncated: u64, pn_len: usize) -> (pn: u64)
    requires
        largest <= MAX_PKT_NUM_BASIS,
        1 <= pn_len <= MAX_PKT_NUM_LEN,
        truncated < pn_window(pn_len as nat),
    ensures
        pn == decoded_pkt_num(largest as int, truncated as int, pn_len as nat),
        pn < u64::MAX,
{
    let expected: u64 = largest + 1;
    let window: u64 = if pn_len == 1 {
        0x100
    } else if pn_len == 2 {
        0x1_0000
    } else if pn_len == 3 {
        0x100_0000
    } else {
        0x1_0000_0000
    };
    let candidate: u64 = expected - expected % window + truncated;
    if candidate + window / 2 <= expected && candidate < PKT_NUM_LIMIT - window {
        candidate + window
    } else if candidate > expected + window / 2 && candidate >= window {
        candidate - window
    } else {
        candidate
    }
}

/// A packet number survives truncation: whatever number the sender used, if it
/// is within half a window of the number that the receiver expects next, the
/// receiver reconstructs it from its `pn_len` least significant bytes.
pub proof fn law_pkt_num_recovered(largest: int, pn: int, pn_len: nat)
    requires
        0 <= largest < PKT_NUM_LIMIT,
        0 <= pn < PKT_NUM_LIMIT,
        1 <= pn_len <= MAX_PKT_NUM_LEN,
        largest + 1 - pn_window(pn_len) / 2 < pn <= largest + 1 + pn_window(pn_len) / 2,
    ensures
        decoded_pkt_num(largest, pn % (pn_window(pn_len) as int), pn_len) == pn,
{
    let expected = largest + 1;
    if pn_len == 1 {
        lemma_nearest(expected, pn, 0x100);
    } else if pn_len == 2 {
        lemma_nearest(expected, pn, 0x1_0000);
    } else if pn_len == 3 {
        lemma_nearest(expected, pn, 0x100_0000);
    } else {
        lemma_nearest(expected, pn, 0x1_0000_0000);
    }
}

/// `pn` is in the window of `expected` or in one beside it.
proof fn lemma_nearest(expected: int, pn: int, window: int)
    requires
        0 < window,
        window % 2 == 0,
        0 <= expected,
        0 <= pn,
        expected - window / 2 < pn <= expected + window / 2,
    ensures
        ({
            let base = expected - expected % window;
            let rest = pn % window;
            pn == base + rest || pn == base + rest + window || pn == base + rest - window
        }),
{
    let a = expected / window;
    let b = pn / window;
    assert(expected == window * a + expected % window) by {
        vstd::arithmetic::div_mod::lemma_fundamental_div_mod(expected, window);
    }
    assert(pn == window * b + pn % window) by {
        vstd::arithmetic::div_mod::lemma_fundamental_div_mod(pn, window);
    }
    assert(0 <= expected % window < window && 0 <= pn % window < window) by {
        vstd::arithmetic::div_mod::lemma_mod_bound(expected, window);
        vstd::arithmetic::div_mod::lemma_mod_bound(pn, window);
    }
    assert(b == a || b == a + 1 || b == a - 1) by (nonlinear_arith)
        requires
            0 < window,
            expected == window * a + expected % window,
            pn == window * b + pn % window,
            0 <= expected % window < window,
            0 <= pn % window < window,
            expected - window < pn,
            pn < expected + window,
    ;
    assert(window * (a + 1) == window * a + window) by (nonlinear_arith);
    assert(window * (a - 1) == window * a - window) by (nonlinear_arith);
}

/// Whether `pkt` is a short-header packet addressed to the flow.
pub open spec fn is_flow_packet(pkt: Seq<u8>, flow_id: Seq<u8>) -> bool {
    &&& pkt.len() >= 1 + flow_id.len()
    &&& pkt[0] < 0x80
    &&& pkt.subrange(1, 1 + flow_id.len() as int) == flow_id
}

/// The ciphertext that the header protection mask is computed from, when the
/// packet number begins at `pn_off`.
pub open spec fn sample(pkt: Seq<u8>, pn_off: int) -> Seq<u8> {
    pkt.subrange(pn_off + MAX_PKT_NUM_LEN, pn_off + MAX_PKT_NUM_LEN + SAMPLE_LEN)
}

/// The length of the packet number that an unprotected first byte announces.
pub open spec fn pn_len(first: u8) -> nat {
    ((first & 0x03) + 1) as nat
}

/// The first byte without header protection.
pub open spec fn clear_first(first: u8, mask: Seq<u8>) -> u8 {
    first ^ (mask[0] & 0x1f)
}

/// The packet without header protection.
pub open spec fn clear_header(pkt: Seq<u8>, pn_off: int, mask: Seq<u8>) -> Seq<u8> {
    let first = clear_first(pkt[0], mask);
    Seq::new(
        pkt.len(),
        |i: int|
            if i == 0 {
                first
            } else if pn_off <= i < pn_off + pn_len(first) {
                pkt[i] ^ mask[i - pn_off + 1]
            } else {
                pkt[i]
            },
    )
}

/// What a protected packet turns out to be.
#[verifier::ext_equal]
pub struct Opened {
    /// The full packet number.
    pub pn: u64,
    /// The unprotected header.
    pub header: Seq<u8>,
    /// The decrypted payload.
    pub payload: Seq<u8>,
}

/// Whether header protection can be removed from a flow packet: enough of it is
/// there, and there is a mask.
pub open spec fn has_mask(pkt: Seq<u8>, flow_id: Seq<u8>, keys: Keys) -> bool {
    let pn_off = 1 + flow_id.len() as int;
    &&& is_flow_packet(pkt, flow_id)
    &&& pkt.len() >= pn_off + MAX_PKT_NUM_LEN + SAMPLE_LEN
    &&& keys.mask(sample(pkt, pn_off)) is Some
}

/// A flow packet without header protection.
pub open spec fn clear_packet(pkt: Seq<u8>, flow_id: Seq<u8>, keys: Keys) -> Seq<u8> {
    let pn_off = 1 + flow_id.len() as int;
    clear_header(pkt, pn_off, keys.mask(sample(pkt, pn_off))->0)
}

/// Unprotects a packet of the flow. `largest` is the basis for the
/// reconstruction of its packet number. `None`, where `pkt` is not a packet of
/// the flow, is too short or does not decrypt.
pub open spec fn opened(
    pkt: Seq<u8>,
    flow_id: Seq<u8>,
    keys: Keys,
    largest: int,
) -> Option<Opened> {
    if !has_mask(pkt, flow_id, keys) {
        None
    } else {
        let pn_off = 1 + flow_id.len() as int;
        let clear = clear_packet(pkt, flow_id, keys);
        let end = pn_off + pn_len(clear[0]);
        let pn = decoded_pkt_num(
            largest,
            be(clear.subrange(pn_off, end)) as int,
            pn_len(clear[0]),
        ) as u64;
        match keys.opened(pn, clear.take(end), pkt.skip(end)) {
            Some(payload) => Some(Opened { pn, header: clear.take(end), payload }),
            None => None,
        }
    }
}

/// One packet is the same to every receiver of the flow: receivers that
/// expect different packet numbers, each within half a window of the number
/// `pn` that the packet was sent with, all decrypt it with that number, or
/// none does.
pub proof fn law_same_for_all(
    pkt: Seq<u8>,
    flow_id: Seq<u8>,
    keys: Keys,
    largest: int,
    other: int,
    pn: int,
)
    requires
        0 <= largest < PKT_NUM_LIMIT,
        0 <= other < PKT_NUM_LIMIT,
        0 <= pn < PKT_NUM_LIMIT,
        ({
            let pn_off = 1 + flow_id.len() as int;
            let clear = clear_packet(pkt, flow_id, keys);
            let n = pn_len(clear[0]);
            let window = pn_window(n);
            &&& has_mask(pkt, flow_id, keys)
            &&& be(clear.subrange(pn_off, pn_off + n)) == pn % (window as int)
            &&& largest + 1 - window / 2 < pn <= largest + 1 + window / 2
            &&& other + 1 - window / 2 < pn <= other + 1 + window / 2
        }),
    ensures
        opened(pkt, flow_id, keys, largest) == opened(pkt, flow_id, keys, other),
        opened(pkt, flow_id, keys, largest) matches Some(o) ==> o.pn == pn,
{
    let first = clear_packet(pkt, flow_id, keys)[0];
    assert((first & 0x03) <= 3) by (bit_vector);
    law_pkt_num_recovered(largest, pn, pn_len(first));
    law_pkt_num_recovered(other, pn, pn_len(first));
}

/// What unprotecting a packet in place leaves in its buffer: the header without
/// protection, as soon as there is a mask; and the payload in place of the
/// ciphertext, before the tag, when it decrypts.
pub open spec fn buffer_after(
    pkt: Seq<u8>,
    flow_id: Seq<u8>,
    keys: Keys,
    largest: int,
) -> Seq<u8> {
    match opened(pkt, flow_id, keys, largest) {
        Some(o) => o.header + o.payload + pkt.skip(pkt.len() - TAG_LEN),
        None => if has_mask(pkt, flow_id, keys) {
            clear_packet(pkt, flow_id, keys)
        } else {
            pkt
        },
    }
}

/// The number of values that `n` bytes can hold is the `n`-th power of that of
/// one.
proof fn lemma_window(n: nat)
    requires
        1 <= n <= 4,
    ensures
        pn_window(n) == pow(256, n),
{
    reveal_with_fuel(pow, 5);
}

/// Whatever a reconstructed packet number is, it ends in the truncated one, and
/// no other number that does, and that a packet can have, is closer to the one
/// that is expected next.
pub proof fn law_nearest_pkt_num(largest: int, truncated: int, n: nat, other: int)
    requires
        0 <= largest,
        1 <= n <= 4,
        0 <= truncated < pow(256, n),
        0 <= other < 0x4000_0000_0000_0000,
        other % pow(256, n) == truncated,
    ensures
        ({
            let pn = decoded_pkt_num(largest, truncated, n);
            let expected = largest + 1;
            &&& pn >= 0
            &&& pn % pow(256, n) == truncated
            &&& -pow(256, n) < pn - expected < pow(256, n)
            &&& largest < 0x4000_0000_0000_0000 && pn >= expected && other >= expected ==> pn
                <= other
            &&& largest < 0x4000_0000_0000_0000 && pn >= expected && other < expected ==> pn
                - expected <= expected - other
            &&& largest < 0x4000_0000_0000_0000 && pn < expected && other >= expected ==> expected
                - pn <= other - expected
            &&& largest < 0x4000_0000_0000_0000 && pn < expected && other < expected ==> other <= pn
        }),
{
    lemma_window(n);
    if n == 1 {
        lemma_nearest_in(largest, truncated, n, other, 0x100);
    } else if n == 2 {
        lemma_nearest_in(largest, truncated, n, other, 0x1_0000);
    } else if n == 3 {
        lemma_nearest_in(largest, truncated, n, other, 0x100_0000);
    } else {
        lemma_nearest_in(largest, truncated, n, other, 0x1_0000_0000);
    }
}

/// Two numbers with the same remainder are apart by a multiple of the window.
proof fn lemma_nearest_in(largest: int, truncated: int, n: nat, other: int, window: int)
    requires
        0 <= largest,
        pn_window(n) == window,
        window == 0x100 || window == 0x1_0000 || window == 0x100_0000 || window == 0x1_0000_0000,
        0 <= truncated < window,
        0 <= other < 0x4000_0000_0000_0000,
        other % window == truncated,
    ensures
        ({
            let pn = decoded_pkt_num(largest, truncated, n);
            let expected = largest + 1;
            &&& pn >= 0
            &&& pn % window == truncated
            &&& -window < pn - expected < window
            &&& largest < 0x4000_0000_0000_0000 && pn >= expected && other >= expected ==> pn
                <= other
            &&& largest < 0x4000_0000_0000_0000 && pn >= expected && other < expected ==> pn
                - expected <= expected - other
            &&& largest < 0x4000_0000_0000_0000 && pn < expected && other >= expected ==> expected
                - pn <= other - expected
            &&& largest < 0x4000_0000_0000_0000 && pn < expected && other < expected ==> other <= pn
        }),
{
    let expected = largest + 1;
    let pn = decoded_pkt_num(largest, truncated, n);
    let q = expected / window;
    let p = other / window;
    let base = window * q;
    vstd::arithmetic::div_mod::lemma_fundamental_div_mod(expected, window);
    vstd::arithmetic::div_mod::lemma_fundamental_div_mod(other, window);
    vstd::arithmetic::div_mod::lemma_mod_bound(expected, window);
    assert(window * (q + 1) == base + window) by (nonlinear_arith)
        requires
            base == window * q,
    ;
    assert(window * (q - 1) == base - window) by (nonlinear_arith)
        requires
            base == window * q,
    ;
    assert(pn == base + truncated || pn == base + window + truncated || pn == base - window
        + truncated);
    // `other` is in the window of `expected`, in an earlier or in a later one.
    if p < q {
        assert(window * p <= base - window) by (nonlinear_arith)
            requires
                base == window * q,
                p <= q - 1,
                0 < window,
        ;
    } else if p > q {
        assert(window * p >= base + window) by (nonlinear_arith)
            requires
                base == window * q,
                p >= q + 1,
                0 < window,
        ;
    }
    assert(pn % window == truncated) by {
        let k = if pn == base + truncated {
            q
        } else if pn == base + window + truncated {
            q + 1
        } else {
            q - 1
        };
        assert(pn == k * window + truncated) by (nonlinear_arith)
            requires
                pn == window * k + truncated,
        ;
        vstd::arithmetic::div_mod::lemma_fundamental_div_mod_converse(pn, window, k, truncated);
    }
}

/// Unprotecting is complete: a packet that a sender builds with the keys of the
/// flow is opened, whatever its length, its first byte, its number and its
/// payload are.
///
/// The sender puts the Flow ID and the last `pn_bytes.len()` bytes of the packet
/// number `pn` behind a first byte that says how many those are. It seals the
/// payload under that number, with that header. It then masks five bits of the
/// first byte and the bytes of the packet number, with the mask of the sixteen
/// bytes that begin four bytes behind the Flow ID.
pub proof fn law_sealed_packet_opens(
    pkt: Seq<u8>,
    flow_id: Seq<u8>,
    keys: Keys,
    largest: int,
    first: u8,
    pn: u64,
    pn_bytes: Seq<u8>,
    sealed: Seq<u8>,
    payload: Seq<u8>,
    mask: Seq<u8>,
)
    requires
        // The number is within half a window of the one that is expected next.
        0 <= largest < 0x4000_0000_0000_0000,
        pn < 0x4000_0000_0000_0000,
        1 <= pn_bytes.len() <= 4,
        largest + 1 - pow(256, pn_bytes.len()) / 2 < pn <= largest + 1 + pow(256, pn_bytes.len())
            / 2,
        // The header, and the sealed payload.
        first < 0x80,
        first % 4 + 1 == pn_bytes.len(),
        be(pn_bytes) == pn as int % pow(256, pn_bytes.len()),
        aead_opened(
            keys.alg.code(),
            keys.key,
            nonce(keys.iv, pn),
            seq![first] + flow_id + pn_bytes,
            sealed,
        ) == Some(payload),
        // The mask.
        pn_bytes.len() + sealed.len() >= 20,
        header_mask(
            keys.alg.code(),
            keys.hp,
            (pn_bytes + sealed).subrange(4, 20),
        ) == Some(mask),
        // The packet.
        pkt.len() == 1 + flow_id.len() + pn_bytes.len() + sealed.len(),
        pkt[0] == first ^ (mask[0] & 0x1f),
        pkt.subrange(1, 1 + flow_id.len() as int) == flow_id,
        forall|i: int|
            0 <= i < pn_bytes.len() ==> #[trigger] pkt[1 + flow_id.len() + i] == pn_bytes[i] ^ mask[i
                + 1],
        pkt.skip(1 + (flow_id.len() + pn_bytes.len()) as int) == sealed,
    ensures
        opened(pkt, flow_id, keys, largest) == Some(
            Opened { pn, header: seq![first] + flow_id + pn_bytes, payload },
        ),
{
    let pn_off = 1 + flow_id.len() as int;
    let n = pn_bytes.len();
    let end = pn_off + n;
    let m = mask[0];
    let p = pkt[0];
    assert(first ^ (m & 0x1f) < 0x80) by (bit_vector)
        requires
            first < 0x80,
    ;
    assert((first ^ (m & 0x1f)) ^ (m & 0x1f) == first) by (bit_vector);
    assert(first & 0x03 == first % 4) by (bit_vector);
    assert(sample(pkt, pn_off) =~= (pn_bytes + sealed).subrange(4, 20)) by {
        assert forall|i: int| 0 <= i < 16 implies #[trigger] sample(pkt, pn_off)[i] == (pn_bytes
            + sealed).subrange(4, 20)[i] by {
            assert(pkt.skip(end)[4 + i - n] == pkt[pn_off + 4 + i]);
        }
    }
    assert(has_mask(pkt, flow_id, keys));
    let clear = clear_packet(pkt, flow_id, keys);
    assert(clear[0] == first);
    assert(pn_len(clear[0]) == n);
    assert(clear.subrange(pn_off, end) =~= pn_bytes) by {
        assert forall|i: int| 0 <= i < n implies #[trigger] clear.subrange(pn_off, end)[i]
            == pn_bytes[i] by {
            let a = pn_bytes[i];
            let b = mask[i + 1];
            assert(pkt[1 + flow_id.len() + i] == a ^ b);
            assert((a ^ b) ^ b == a) by (bit_vector);
        }
    }
    let header = seq![first] + flow_id + pn_bytes;
    assert(clear.take(end) =~= header) by {
        assert forall|i: int| 0 <= i < end implies #[trigger] clear.take(end)[i] == header[i] by {
            if 1 <= i < pn_off {
                assert(pkt.subrange(1, pn_off)[i - 1] == pkt[i]);
            } else if i >= pn_off {
                assert(clear.subrange(pn_off, end)[i - pn_off] == clear[i]);
            }
        }
    }
    lemma_window(n);
    law_pkt_num_recovered(largest, pn as int, n);
}

/// Unprotecting is sound: a packet that is opened is a short-header packet of
/// the flow, it is long enough, its header is what the mask makes of it, and its
/// payload authenticates under the number that is reconstructed.
pub proof fn law_opened_packet_authentic(
    pkt: Seq<u8>,
    flow_id: Seq<u8>,
    keys: Keys,
    largest: int,
    o: Opened,
)
    requires
        opened(pkt, flow_id, keys, largest) == Some(o),
        0 <= largest < 0x4000_0000_0000_0000,
    ensures
        ({
            let pn_off = 1 + flow_id.len() as int;
            let mask = header_mask(
                keys.alg.code(),
                keys.hp,
                pkt.subrange(pn_off + 4, pn_off + 20),
            );
            let n = o.header.len() - pn_off;
            &&& pkt.len() >= pn_off + 20
            &&& pkt[0] < 0x80
            &&& pkt.subrange(1, pn_off) == flow_id
            &&& mask is Some
            &&& o.header[0] == pkt[0] ^ (mask->0[0] & 0x1f)
            &&& n == o.header[0] % 4 + 1
            &&& o.header.subrange(1, pn_off) == flow_id
            &&& forall|i: int|
                0 <= i < n ==> #[trigger] o.header[pn_off + i] == pkt[pn_off + i] ^ mask->0[i + 1]
            &&& o.pn as int % pow(256, n as nat) == be(o.header.skip(pn_off))
            &&& aead_opened(
                keys.alg.code(),
                keys.key,
                nonce(keys.iv, o.pn),
                o.header,
                pkt.skip(o.header.len() as int),
            ) == Some(o.payload)
        }),
{
    let pn_off = 1 + flow_id.len() as int;
    let clear = clear_packet(pkt, flow_id, keys);
    let first = clear[0];
    assert(first & 0x03 == first % 4) by (bit_vector);
    let n = pn_len(first);
    let end = pn_off + n;
    assert(o.header.subrange(1, pn_off) =~= pkt.subrange(1, pn_off));
    assert(o.header.skip(pn_off) =~= clear.subrange(pn_off, end));
    let truncated = be(clear.subrange(pn_off, end)) as int;
    lemma_be_bound(clear.subrange(pn_off, end));
    lemma_window(n);
    law_nearest_pkt_num(largest, truncated, n, truncated);
}

/// What is left in the buffer of a packet: all of it where it is not a packet of
/// the flow; the header without protection and the ciphertext where it does not
/// authenticate; the header, the payload and the tag where it does.
pub proof fn law_buffer_left(pkt: Seq<u8>, flow_id: Seq<u8>, keys: Keys, largest: int, i: int)
    requires
        0 <= i < pkt.len(),
    ensures
        ({
            let buf = buffer_after(pkt, flow_id, keys, largest);
            let pn_off = 1 + flow_id.len() as int;
            &&& match opened(pkt, flow_id, keys, largest) {
                Some(o) => {
                    let end = o.header.len() as int;
                    &&& i < end ==> buf[i] == o.header[i]
                    &&& end <= i < end + o.payload.len() ==> buf[i] == o.payload[i - end]
                    &&& end + o.payload.len() + 16 == pkt.len() ==> buf.len() == pkt.len() && (i
                        >= end + o.payload.len() ==> buf[i] == pkt[i])
                },
                None => {
                    &&& buf.len() == pkt.len()
                    &&& 1 <= i < pn_off || i >= pn_off + 4 ==> buf[i] == pkt[i]
                    &&& pkt.len() < pn_off + 20 || pkt[0] >= 0x80 || pkt.subrange(1, pn_off)
                        != flow_id ==> buf == pkt
                },
            }
        }),
{
    let first = clear_packet(pkt, flow_id, keys)[0];
    assert((first & 0x03) <= 3) by (bit_vector);
}

/// Checks that `pkt` is a short-header packet whose Destination Connection ID
/// is the Flow ID.
pub fn check_header(pkt: &[u8], flow_id: &[u8]) -> (ok: bool)
    ensures
        ok == is_flow_packet(pkt@, flow_id@),
{
    let mut b = Octets::with_slice(pkt);
    assert(unread(b) =~= pkt@);
    let first = match b.get_u8() {
        Ok(v) => v,
        Err(_) => return false,
    };
    assert(unread(b) =~= pkt@.skip(1));
    let dcid = match b.get_bytes(flow_id.len()) {
        Ok(v) => v.to_vec(),
        Err(_) => return false,
    };
    assert(dcid@ =~= pkt@.subrange(1, 1 + flow_id@.len() as int));
    if first >= 0x80 {
        return false;
    }
    let mut i: usize = 0;
    while i < flow_id.len()
        invariant
            i <= flow_id@.len(),
            dcid@ == pkt@.subrange(1, 1 + flow_id@.len() as int),
            dcid@.len() == flow_id@.len(),
            forall|k: int| 0 <= k < i ==> dcid@[k] == flow_id@[k],
        decreases flow_id@.len() - i,
    {
        if dcid[i] != flow_id[i] {
            assert(dcid@ != flow_id@);
            return false;
        }
        i += 1;
    }
    assert(dcid@ =~= flow_id@);
    true
}

/// A packet without protection.
pub struct Packet {
    /// The full packet number.
    pub pn: u64,
    /// The length of the unprotected header.
    pub header_len: usize,
    /// The decrypted payload.
    pub payload: Vec<u8>,
}

/// Reads the truncated packet number that `bytes` hold.
pub fn read_pkt_num(bytes: &[u8]) -> (pn: u64)
    requires
        1 <= bytes@.len() <= 4,
    ensures
        pn == be(bytes@),
        pn < pn_window(bytes@.len()),
{
    let mut b = Octets::with_slice(bytes);
    let n = bytes.len();
    assert(unread(b) =~= bytes@);
    assert(bytes@.take(bytes@.len() as int) =~= bytes@);
    proof {
        lemma_be_bound(bytes@);
    }
    if n == 1 {
        assert(be(bytes@) == bytes@[0]) by {
            reveal_with_fuel(be, 2);
        }
        match b.get_u8() {
            Ok(v) => v as u64,
            Err(_) => 0,
        }
    } else if n == 2 {
        match b.get_u16() {
            Ok(v) => v as u64,
            Err(_) => 0,
        }
    } else if n == 3 {
        match b.get_u24() {
            Ok(v) => v as u64,
            Err(_) => 0,
        }
    } else {
        match b.get_u32() {
            Ok(v) => v as u64,
            Err(_) => 0,
        }
    }
}

/// At most four bytes spell a number within the window of their length.
proof fn lemma_be_bound(s: Seq<u8>)
    requires
        1 <= s.len() <= 4,
    ensures
        be(s) < pn_window(s.len()),
{
    reveal_with_fuel(be, 5);
}

/// Removes header protection in place, where the packet number begins at
/// `pn_off`. Returns the length of the packet number.
pub fn unmask(pkt: &mut [u8], pn_off: usize, mask: [u8; 5]) -> (n: usize)
    requires
        1 <= pn_off,
        pn_off + MAX_PKT_NUM_LEN <= old(pkt)@.len(),
    ensures
        final(pkt)@ == clear_header(old(pkt)@, pn_off as int, mask@),
        n == pn_len(final(pkt)@[0]),
        1 <= n <= MAX_PKT_NUM_LEN,
{
    let ghost before = pkt@;
    let len: usize = pkt.len();
    let first: u8 = pkt[0] ^ (mask[0] & 0x1f);
    let n: usize = (first & 0x03) as usize + 1;
    assert((first & 0x03) <= 3) by (bit_vector);
    pkt[0] = first;
    let mut i: usize = 0;
    while i < n
        invariant
            i <= n <= 4,
            1 <= pn_off,
            pkt@.len() == before.len(),
            pn_off + 4 <= before.len() == len,
            n == pn_len(first),
            forall|k: int|
                0 <= k < before.len() ==> #[trigger] pkt@[k] == (if k == 0 {
                    first
                } else if pn_off <= k < pn_off + i {
                    before[k] ^ mask@[k - pn_off + 1]
                } else {
                    before[k]
                }),
        decreases n - i,
    {
        pkt[pn_off + i] = pkt[pn_off + i] ^ mask[i + 1];
        i += 1;
    }
    assert(pkt@ =~= clear_header(before, pn_off as int, mask@));
    n
}

/// Removes the protection of a flow packet in place.
pub fn open_packet(pkt: &mut [u8], flow_id: &[u8], open: &Open, largest: u64) -> (r: Option<
    Packet,
>)
    requires
        open.wf(),
        largest <= MAX_PKT_NUM_BASIS,
    ensures
        match r {
            Some(p) => opened(old(pkt)@, flow_id@, open@, largest as int) == Some(
                Opened {
                    pn: p.pn,
                    header: final(pkt)@.take(p.header_len as int),
                    payload: p.payload@,
                },
            ) && p.header_len + p.payload@.len() + TAG_LEN == old(pkt)@.len() && p.pn < u64::MAX,
            None => opened(old(pkt)@, flow_id@, open@, largest as int) is None,
        },
        final(pkt)@ == buffer_after(old(pkt)@, flow_id@, open@, largest as int),
{
    if !check_header(pkt, flow_id) {
        return None;
    }
    let len: usize = pkt.len();
    let pn_off: usize = 1 + flow_id.len();
    if len - pn_off < MAX_PKT_NUM_LEN + SAMPLE_LEN {
        return None;
    }
    let ghost before = pkt@;
    let mask = match open.new_mask(
        slice_subrange(&*pkt, pn_off + MAX_PKT_NUM_LEN, pn_off + MAX_PKT_NUM_LEN + SAMPLE_LEN),
    ) {
        Ok(mask) => mask,
        Err(_) => return None,
    };
    let n: usize = unmask(pkt, pn_off, mask);
    let ghost clear = clear_packet(before, flow_id@, open@);
    assert(pkt@ =~= clear);
    let end: usize = pn_off + n;
    assert(pkt@.subrange(pn_off as int, end as int).len() == n);
    let truncated = read_pkt_num(slice_subrange(&*pkt, pn_off, end));
    let pn = decode_pkt_num(largest, truncated, n);
    assert(pkt@.subrange(0, end as int) =~= clear.take(end as int));
    assert(pkt@.subrange(end as int, pkt@.len() as int) =~= before.skip(end as int));
    let payload = match open.open_with_u64_counter(
        pn,
        slice_subrange(&*pkt, 0, end),
        slice_subrange(&*pkt, end, len),
    ) {
        Ok(payload) => payload,
        Err(_) => return None,
    };
    let mut i: usize = 0;
    while i < payload.len()
        invariant
            i <= payload@.len(),
            len == pkt@.len() == before.len(),
            end + payload@.len() + TAG_LEN == before.len(),
            forall|k: int|
                0 <= k < before.len() ==> #[trigger] pkt@[k] == (if end <= k < end + i {
                    payload@[k - end]
                } else {
                    clear[k]
                }),
        decreases payload@.len() - i,
    {
        pkt[end + i] = payload[i];
        i += 1;
    }
    proof {
        let o = Opened { pn, header: clear.take(end as int), payload: payload@ };
        assert(opened(before, flow_id@, open@, largest as int) == Some(o));
        assert(pkt@ =~= o.header + o.payload + before.skip(before.len() - TAG_LEN));
        assert(pkt@.take(end as int) =~= clear.take(end as int));
    }
    Some(Packet { pn, header_len: end, payload })
}

} // verus!
