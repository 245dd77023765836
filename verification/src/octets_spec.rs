//! What the library relies on of the byte buffers of the `octets` crate.
//!
//! A buffer is modelled by the bytes it wraps and by the offset up to which
//! they have been read.

use octets::{BufferTooShortError, Octets};
use vstd::prelude::*;

verus! {

/// A byte buffer of the `octets` crate.
#[verifier::external_type_specification]
#[verifier::external_body]
pub struct ExOctets<'a>(Octets<'a>);

/// The error of the `octets` crate: too few bytes are left.
#[verifier::external_type_specification]
#[verifier::external_body]
pub struct ExBufferTooShortError(BufferTooShortError);

/// The bytes that a buffer wraps.
pub uninterp spec fn octets_bytes(b: Octets) -> Seq<u8>;

/// The number of bytes that have been read from a buffer.
pub uninterp spec fn octets_read(b: Octets) -> nat;

/// The bytes that are left to read.
pub open spec fn unread(b: Octets) -> Seq<u8> {
    octets_bytes(b).skip(octets_read(b) as int)
}

/// `after` is `before` with `n` more bytes read.
pub open spec fn advanced(before: Octets, after: Octets, n: nat) -> bool {
    &&& octets_bytes(after) == octets_bytes(before)
    &&& octets_read(after) == octets_read(before) + n
    &&& octets_read(after) <= octets_bytes(after).len()
}

/// The number that bytes spell in network byte order.
pub open spec fn be(s: Seq<u8>) -> nat
    decreases s.len(),
{
    if s.len() == 0 {
        0
    } else {
        be(s.drop_last()) * 256 + s.last() as nat
    }
}

/// The length of the variable-length integer that begins with byte `first`.
pub open spec fn varint_len(first: u8) -> nat {
    if first < 0x40 {
        1
    } else if first < 0x80 {
        2
    } else if first < 0xc0 {
        4
    } else {
        8
    }
}

/// The variable-length integer that `s` begins with: the number in network
/// byte order without its two leading bits.
pub open spec fn varint_value(s: Seq<u8>) -> u64 {
    let n = varint_len(s[0]);
    let bound: nat = if n == 1 {
        0x40
    } else if n == 2 {
        0x4000
    } else if n == 4 {
        0x4000_0000
    } else {
        0x4000_0000_0000_0000
    };
    (be(s.take(n as int)) % bound) as u64
}

/// Whether `s` begins with a whole variable-length integer.
pub open spec fn has_varint(s: Seq<u8>) -> bool {
    s.len() > 0 && varint_len(s[0]) <= s.len()
}

/// `Octets::with_slice` wraps the bytes of `buf`; nothing has been read yet.
pub assume_specification<'a>[ Octets::<'a>::with_slice ](buf: &'a [u8]) -> (b: Octets<'a>)
    ensures
        octets_bytes(b) == buf@,
        octets_read(b) == 0,
;

/// `Octets::cap` returns the number of bytes that are left to read.
pub assume_specification<'a>[ Octets::<'a>::cap ](b: &Octets<'a>) -> (n: usize)
    ensures
        n + octets_read(*b) == octets_bytes(*b).len(),
;

/// `Octets::to_vec` copies the bytes that are left to read.
pub assume_specification<'a>[ Octets::<'a>::to_vec ](b: &Octets<'a>) -> (v: Vec<u8>)
    ensures
        v@ == unread(*b),
;

/// `Octets::get_u8` reads one byte; it fails, and reads nothing, when none is
/// left.
pub assume_specification<'a>[ Octets::<'a>::get_u8 ](b: &mut Octets<'a>) -> (r: Result<
    u8,
    BufferTooShortError,
>)
    ensures
        r is Ok <==> unread(*old(b)).len() >= 1,
        r matches Ok(v) ==> v == unread(*old(b))[0] && advanced(*old(b), *final(b), 1),
        r is Err ==> *final(b) == *old(b),
;

/// `Octets::get_u16` reads two bytes in network byte order; it fails, and reads
/// nothing, when fewer are left.
pub assume_specification<'a>[ Octets::<'a>::get_u16 ](b: &mut Octets<'a>) -> (r: Result<
    u16,
    BufferTooShortError,
>)
    ensures
        r is Ok <==> unread(*old(b)).len() >= 2,
        r matches Ok(v) ==> v == be(unread(*old(b)).take(2)) && advanced(*old(b), *final(b), 2),
        r is Err ==> *final(b) == *old(b),
;

/// `Octets::get_u24` reads three bytes in network byte order; it fails, and
/// reads nothing, when fewer are left.
pub assume_specification<'a>[ Octets::<'a>::get_u24 ](b: &mut Octets<'a>) -> (r: Result<
    u32,
    BufferTooShortError,
>)
    ensures
        r is Ok <==> unread(*old(b)).len() >= 3,
        r matches Ok(v) ==> v == be(unread(*old(b)).take(3)) && advanced(*old(b), *final(b), 3),
        r is Err ==> *final(b) == *old(b),
;

/// `Octets::get_u32` reads four bytes in network byte order; it fails, and
/// reads nothing, when fewer are left.
pub assume_specification<'a>[ Octets::<'a>::get_u32 ](b: &mut Octets<'a>) -> (r: Result<
    u32,
    BufferTooShortError,
>)
    ensures
        r is Ok <==> unread(*old(b)).len() >= 4,
        r matches Ok(v) ==> v == be(unread(*old(b)).take(4)) && advanced(*old(b), *final(b), 4),
        r is Err ==> *final(b) == *old(b),
;

/// `Octets::get_u64` reads eight bytes in network byte order; it fails, and
/// reads nothing, when fewer are left.
pub assume_specification<'a>[ Octets::<'a>::get_u64 ](b: &mut Octets<'a>) -> (r: Result<
    u64,
    BufferTooShortError,
>)
    ensures
        r is Ok <==> unread(*old(b)).len() >= 8,
        r matches Ok(v) ==> v == be(unread(*old(b)).take(8)) && advanced(*old(b), *final(b), 8),
        r is Err ==> *final(b) == *old(b),
;

/// `Octets::get_varint` reads a variable-length integer; it fails, and reads
/// nothing, when fewer bytes are left than its first byte announces.
pub assume_specification<'a>[ Octets::<'a>::get_varint ](b: &mut Octets<'a>) -> (r: Result<
    u64,
    BufferTooShortError,
>)
    ensures
        r is Ok <==> has_varint(unread(*old(b))),
        r matches Ok(v) ==> v == varint_value(unread(*old(b))) && advanced(
            *old(b),
            *final(b),
            varint_len(unread(*old(b))[0]),
        ),
        r is Err ==> *final(b) == *old(b),
;

/// `Octets::get_bytes` reads `len` bytes into a buffer of their own; it fails,
/// and reads nothing, when fewer are left.
pub assume_specification<'a>[ Octets::<'a>::get_bytes ](b: &mut Octets<'a>, len: usize) -> (r: Result<
    Octets<'a>,
    BufferTooShortError,
>)
    ensures
        r is Ok <==> unread(*old(b)).len() >= len,
        r matches Ok(v) ==> octets_bytes(v) == unread(*old(b)).take(len as int) && octets_read(v)
            == 0 && advanced(*old(b), *final(b), len as nat),
        r is Err ==> *final(b) == *old(b),
;

} // verus!
