//! Packet protection: key derivation, header protection and AEAD.
//!
//! The flow secret plays the role of a QUIC 1-RTT application traffic secret;
//! the keys are derived from it with the procedure of QUIC. The
//! cryptographic primitives are those of `ring`.

use crate::error::Error;
use crate::octets_spec::be;
use vstd::prelude::*;

verus! {

/// An AEAD algorithm.
#[allow(non_camel_case_types)]
#[derive(Clone, Copy, Debug, PartialEq, Eq, Structural)]
pub enum Algorithm {
    AES128_GCM,
    AES256_GCM,
    ChaCha20_Poly1305,
}

/// The hash function of a cipher suite.
#[derive(Clone, Copy, Debug, PartialEq, Eq, Structural)]
pub enum HashFn {
    Sha256,
    Sha384,
}

/// The length of the authentication tag that follows a sealed payload.
pub const TAG_LEN: usize = 16;

/// The length of the ciphertext sample that a header protection mask is
/// computed from.
pub const SAMPLE_LEN: usize = 16;

/// The length of an AEAD nonce.
pub const NONCE_LEN: usize = 12;

/// Secrets must be shorter than this many bytes: the hash functions cannot
/// take longer input.
pub const SECRET_LIMIT: u64 = 0x1000_0000_0000_0000;

impl HashFn {
    /// The output length of the hash function.
    pub open spec fn output_len(self) -> nat {
        match self {
            HashFn::Sha256 => 32,
            HashFn::Sha384 => 48,
        }
    }
}

impl Algorithm {
    /// The number that identifies the algorithm: the TLS code point of its
    /// cipher suite.
    pub open spec fn code(self) -> u16 {
        match self {
            Algorithm::AES128_GCM => 0x1301,
            Algorithm::AES256_GCM => 0x1302,
            Algorithm::ChaCha20_Poly1305 => 0x1303,
        }
    }

    /// The hash function that the cipher suite of the algorithm derives keys
    /// with.
    pub open spec fn spec_hash(self) -> HashFn {
        match self {
            Algorithm::AES128_GCM => HashFn::Sha256,
            Algorithm::AES256_GCM => HashFn::Sha384,
            Algorithm::ChaCha20_Poly1305 => HashFn::Sha256,
        }
    }

    /// The length of the packet key and of the header protection key.
    pub open spec fn spec_key_len(self) -> usize {
        match self {
            Algorithm::AES128_GCM => 16,
            Algorithm::AES256_GCM => 32,
            Algorithm::ChaCha20_Poly1305 => 32,
        }
    }

    /// Returns the hash function of the algorithm's cipher suite.
    #[verifier::when_used_as_spec(spec_hash)]
    pub fn hash(self) -> (h: HashFn)
        ensures
            h == self.spec_hash(),
    {
        match self {
            Algorithm::AES128_GCM => HashFn::Sha256,
            Algorithm::AES256_GCM => HashFn::Sha384,
            Algorithm::ChaCha20_Poly1305 => HashFn::Sha256,
        }
    }

    /// Returns the length of the packet key and of the header protection key.
    #[verifier::when_used_as_spec(spec_key_len)]
    pub fn key_len(self) -> (len: usize)
        ensures
            len == self.spec_key_len(),
    {
        match self {
            Algorithm::AES128_GCM => 16,
            Algorithm::AES256_GCM => 32,
            Algorithm::ChaCha20_Poly1305 => 32,
        }
    }
}

/// The first block of `HKDF-Expand(secret, info)`, with the hash function of
/// the given output length: what `ring::hkdf` computes.
pub uninterp spec fn hkdf_expand_block(hash_len: nat, secret: Seq<u8>, info: Seq<u8>) -> Seq<u8>;

/// The header protection mask of a ciphertext sample: what `ring::aead::quic`
/// computes. `None`, where it fails.
pub uninterp spec fn header_mask(suite: u16, key: Seq<u8>, sample: Seq<u8>) -> Option<Seq<u8>>;

/// The plaintext of a sealed payload: what `ring::aead` computes. `None`, where
/// the payload does not authenticate.
pub uninterp spec fn aead_opened(
    suite: u16,
    key: Seq<u8>,
    nonce: Seq<u8>,
    ad: Seq<u8>,
    sealed: Seq<u8>,
) -> Option<Seq<u8>>;

/// An error of `ring`, which says nothing about its cause.
#[verifier::external_type_specification]
#[verifier::external_body]
pub struct ExUnspecified(ring::error::Unspecified);

/// Calls `ring::hkdf::Prk::expand` on a PRK made of `secret`, for as many bytes
/// as the hash function puts out, and fills a buffer from it.
///
/// Claimed: the bytes depend on the hash function, the secret and the info
/// alone, and there are as many of them as the hash function puts out. The
/// call fails only for a longer output than is asked for here. The limit on
/// the secret keeps the hash function within the input length it takes.
#[verifier::external_body]
fn hkdf_expand(hash: HashFn, secret: &[u8], info: &[u8]) -> (okm: Result<
    Vec<u8>,
    ring::error::Unspecified,
>)
    requires
        secret@.len() < SECRET_LIMIT,
        info@.len() <= 0xffff,
    ensures
        okm matches Ok(okm) && okm@ == hkdf_expand_block(hash.output_len(), secret@, info@)
            && okm@.len() == hash.output_len(),
{
    let alg = match hash {
        HashFn::Sha256 => ring::hkdf::HKDF_SHA256,
        HashFn::Sha384 => ring::hkdf::HKDF_SHA384,
    };
    let mut okm = vec![0u8; ring::hkdf::KeyType::len(&alg)];
    ring::hkdf::Prk::new_less_safe(alg, secret).expand(&[info], alg)?.fill(&mut okm)?;
    Ok(okm)
}

/// Calls `ring::aead::quic::HeaderProtectionKey::new_mask` with a key made of
/// `key`.
///
/// Claimed: whether there is a mask, and which five bytes it has, depends on
/// the algorithm, the key and the sample alone.
#[verifier::external_body]
fn header_protection_mask(alg: Algorithm, key: &[u8], sample: &[u8]) -> (mask: Result<
    [u8; 5],
    ring::error::Unspecified,
>)
    ensures
        mask is Ok <==> header_mask(alg.code(), key@, sample@) is Some,
        mask matches Ok(mask) ==> header_mask(alg.code(), key@, sample@) == Some(mask@),
{
    let alg = match alg {
        Algorithm::AES128_GCM => &ring::aead::quic::AES_128,
        Algorithm::AES256_GCM => &ring::aead::quic::AES_256,
        Algorithm::ChaCha20_Poly1305 => &ring::aead::quic::CHACHA20,
    };
    ring::aead::quic::HeaderProtectionKey::new(alg, key)?.new_mask(sample)
}

/// Calls `ring::aead::LessSafeKey::open_in_place` with a key made of `key`, on a
/// copy of `sealed`.
///
/// Claimed: whether the payload authenticates, and what its plaintext is,
/// depends on the algorithm, the key, the nonce, the associated data and the
/// sealed payload alone; the plaintext is shorter than the sealed payload by
/// the tag.
#[verifier::external_body]
fn aead_open(alg: Algorithm, key: &[u8], nonce: &[u8], ad: &[u8], sealed: &[u8]) -> (plain: Result<
    Vec<u8>,
    ring::error::Unspecified,
>)
    ensures
        plain is Ok <==> aead_opened(alg.code(), key@, nonce@, ad@, sealed@) is Some,
        plain matches Ok(plain) ==> aead_opened(alg.code(), key@, nonce@, ad@, sealed@) == Some(
            plain@,
        ) && plain@.len() + TAG_LEN == sealed@.len(),
{
    let alg = match alg {
        Algorithm::AES128_GCM => &ring::aead::AES_128_GCM,
        Algorithm::AES256_GCM => &ring::aead::AES_256_GCM,
        Algorithm::ChaCha20_Poly1305 => &ring::aead::CHACHA20_POLY1305,
    };
    let key = ring::aead::LessSafeKey::new(ring::aead::UnboundKey::new(alg, key)?);
    let nonce = ring::aead::Nonce::try_assume_unique_for_key(nonce)?;
    let mut buf = sealed.to_vec();
    let plain = key.open_in_place(nonce, ring::aead::Aad::from(ad), &mut buf)?;
    Ok(plain.to_vec())
}

/// The info of `HKDF-Expand-Label(.., label, "", len)`: the output length in two
/// bytes, the prefixed label and the empty context, each behind its length.
pub open spec fn hkdf_label(label: Seq<u8>, len: nat) -> Seq<u8> {
    // "tls13 "
    seq![(len / 256) as u8, (len % 256) as u8, (6 + label.len()) as u8] + seq![
        0x74u8,
        0x6c,
        0x73,
        0x31,
        0x33,
        0x20,
    ] + label + seq![0u8]
}

/// `HKDF-Expand-Label(secret, label, "", len)` for an output of at most one
/// block.
pub open spec fn expand_label(hash: HashFn, secret: Seq<u8>, label: Seq<u8>, len: nat) -> Seq<u8> {
    hkdf_expand_block(hash.output_len(), secret, hkdf_label(label, len)).take(len as int)
}

/// "quic key"
pub open spec fn label_key() -> Seq<u8> {
    seq![0x71u8, 0x75, 0x69, 0x63, 0x20, 0x6b, 0x65, 0x79]
}

/// "quic iv"
pub open spec fn label_iv() -> Seq<u8> {
    seq![0x71u8, 0x75, 0x69, 0x63, 0x20, 0x69, 0x76]
}

/// "quic hp"
pub open spec fn label_hp() -> Seq<u8> {
    seq![0x71u8, 0x75, 0x69, 0x63, 0x20, 0x68, 0x70]
}

/// The keys that unprotect the packets of a flow.
#[verifier::ext_equal]
pub struct Keys {
    pub alg: Algorithm,
    pub key: Seq<u8>,
    pub iv: Seq<u8>,
    pub hp: Seq<u8>,
}

/// The keys that QUIC derives from a traffic secret.
pub open spec fn keys_from_secret(alg: Algorithm, secret: Seq<u8>) -> Keys {
    Keys {
        alg,
        key: expand_label(alg.hash(), secret, label_key(), alg.key_len() as nat),
        iv: expand_label(alg.hash(), secret, label_iv(), NONCE_LEN as nat),
        hp: expand_label(alg.hash(), secret, label_hp(), alg.key_len() as nat),
    }
}

/// Byte `i`, counted from the most significant, of a 64-bit number.
pub open spec fn be_byte(x: u64, i: int) -> u8 {
    (x >> ((56 - 8 * i) as u64)) as u8
}

/// The nonce of a packet: its number, padded on the left, XORed with the IV.
pub open spec fn nonce(iv: Seq<u8>, counter: u64) -> Seq<u8> {
    Seq::new(
        NONCE_LEN as nat,
        |i: int|
            if i < 4 {
                iv[i]
            } else {
                iv[i] ^ be_byte(counter, i - 4)
            },
    )
}

impl Keys {
    /// The header protection mask of a sample.
    pub open spec fn mask(self, sample: Seq<u8>) -> Option<Seq<u8>> {
        header_mask(self.alg.code(), self.hp, sample)
    }

    /// The plaintext of packet number `counter`.
    pub open spec fn opened(self, counter: u64, ad: Seq<u8>, sealed: Seq<u8>) -> Option<Seq<u8>> {
        aead_opened(self.alg.code(), self.key, nonce(self.iv, counter), ad, sealed)
    }
}

/// The keys that are derived from a secret, with the info of each derivation
/// written out: the output length, the length of the label, the label, and an
/// empty context. The key and the header protection key are as long as the
/// algorithm takes them, and the IV is as long as a nonce.
pub proof fn law_keys_derived(alg: Algorithm, secret: Seq<u8>)
    ensures
        ({
            let keys = keys_from_secret(alg, secret);
            let (hash_len, len): (nat, u8) = match alg {
                Algorithm::AES128_GCM => (32, 16),
                Algorithm::AES256_GCM => (48, 32),
                Algorithm::ChaCha20_Poly1305 => (32, 32),
            };
            // "tls13 quic key", "tls13 quic iv" and "tls13 quic hp"
            let tls13_quic = seq![0x74u8, 0x6c, 0x73, 0x31, 0x33, 0x20, 0x71, 0x75, 0x69, 0x63, 0x20];
            let key = seq![0u8, len, 14] + tls13_quic + seq![0x6bu8, 0x65, 0x79, 0];
            let iv = seq![0u8, 12, 13] + tls13_quic + seq![0x69u8, 0x76, 0];
            let hp = seq![0u8, len, 13] + tls13_quic + seq![0x68u8, 0x70, 0];
            &&& keys.alg == alg
            &&& keys.key == hkdf_expand_block(hash_len, secret, key).take(len as int)
            &&& keys.iv == hkdf_expand_block(hash_len, secret, iv).take(12)
            &&& keys.hp == hkdf_expand_block(hash_len, secret, hp).take(len as int)
        }),
{
    let len: u8 = match alg {
        Algorithm::AES128_GCM => 16,
        Algorithm::AES256_GCM => 32,
        Algorithm::ChaCha20_Poly1305 => 32,
    };
    let tls13_quic = seq![0x74u8, 0x6c, 0x73, 0x31, 0x33, 0x20, 0x71, 0x75, 0x69, 0x63, 0x20];
    assert(hkdf_label(label_key(), len as nat) =~= seq![0u8, len, 14] + tls13_quic + seq![
        0x6bu8,
        0x65,
        0x79,
        0,
    ]);
    assert(hkdf_label(label_iv(), 12) =~= seq![0u8, 12, 13] + tls13_quic + seq![0x69u8, 0x76, 0]);
    assert(hkdf_label(label_hp(), len as nat) =~= seq![0u8, len, 13] + tls13_quic + seq![
        0x68u8,
        0x70,
        0,
    ]);
}

/// The info of a derivation, field by field: the output length in two bytes, the
/// length of the prefixed label, the label behind its prefix, and an empty
/// context.
pub proof fn law_label_fields(label: Seq<u8>, len: nat)
    requires
        label.len() <= 249,
        len <= 0xffff,
    ensures
        ({
            let info = hkdf_label(label, len);
            &&& info.len() == 10 + label.len()
            &&& info[0] * 256 + info[1] == len
            &&& info[2] == 6 + label.len()
            // "tls13 "
            &&& info.subrange(3, 9) == seq![0x74u8, 0x6c, 0x73, 0x31, 0x33, 0x20]
            &&& info.subrange(9, 9 + label.len() as int) == label
            &&& info.last() == 0
        }),
{
    let info = hkdf_label(label, len);
    assert(info.subrange(3, 9) =~= seq![0x74u8, 0x6c, 0x73, 0x31, 0x33, 0x20]);
    assert(info.subrange(9, 9 + label.len() as int) =~= label);
}

/// A nonce differs from the IV by the packet number, in its last eight bytes.
pub proof fn law_nonce_spells_counter(iv: Seq<u8>, counter: u64)
    requires
        iv.len() == 12,
    ensures
        nonce(iv, counter).len() == 12,
        nonce(iv, counter).take(4) == iv.take(4),
        be(Seq::new(8, |i: int| nonce(iv, counter)[4 + i] ^ iv[4 + i])) == counter,
{
    let n = nonce(iv, counter);
    assert(n.take(4) =~= iv.take(4));
    let s = Seq::new(8, |i: int| n[4 + i] ^ iv[4 + i]);
    assert forall|i: int| 0 <= i < 8 implies #[trigger] s[i] == be_byte(counter, i) by {
        let a = iv[4 + i];
        let b = be_byte(counter, i);
        assert((a ^ b) ^ a == b) by (bit_vector);
    }
    let x = counter;
    assert(be_byte(x, 0) == (x >> 56) as u8 && be_byte(x, 1) == (x >> 48) as u8 && be_byte(x, 2)
        == (x >> 40) as u8 && be_byte(x, 3) == (x >> 32) as u8 && be_byte(x, 4) == (x >> 24) as u8
        && be_byte(x, 5) == (x >> 16) as u8 && be_byte(x, 6) == (x >> 8) as u8 && be_byte(x, 7) == (
    x >> 0) as u8);
    assert(x == (x >> 56) as u8 * 0x100_0000_0000_0000 + (x >> 48) as u8 * 0x1_0000_0000_0000 + (x
        >> 40) as u8 * 0x100_0000_0000 + (x >> 32) as u8 * 0x1_0000_0000 + (x >> 24) as u8
        * 0x100_0000 + (x >> 16) as u8 * 0x1_0000 + (x >> 8) as u8 * 0x100 + (x >> 0) as u8)
        by (bit_vector);
    let s7 = s.drop_last();
    let s6 = s7.drop_last();
    let s5 = s6.drop_last();
    let s4 = s5.drop_last();
    let s3 = s4.drop_last();
    let s2 = s3.drop_last();
    let s1 = s2.drop_last();
    assert(be(s1) == s[0]) by {
        reveal_with_fuel(be, 2);
        assert(s1.drop_last().len() == 0);
    }
    assert(be(s2) == be(s1) * 256 + s[1]);
    assert(be(s3) == be(s2) * 256 + s[2]);
    assert(be(s4) == be(s3) * 256 + s[3]);
    assert(be(s5) == be(s4) * 256 + s[4]);
    assert(be(s6) == be(s5) * 256 + s[5]);
    assert(be(s7) == be(s6) * 256 + s[6]);
    assert(be(s) == be(s7) * 256 + s[7]);
}

/// No two packets of a flow have the same nonce.
pub proof fn law_nonces_differ(iv: Seq<u8>, a: u64, b: u64)
    requires
        iv.len() == 12,
        a != b,
    ensures
        nonce(iv, a) != nonce(iv, b),
{
    law_nonce_spells_counter(iv, a);
    law_nonce_spells_counter(iv, b);
}

/// A key context that packets are decrypted with.
pub struct Open {
    alg: Algorithm,
    key: Vec<u8>,
    iv: Vec<u8>,
    hp: Vec<u8>,
}

impl View for Open {
    type V = Keys;

    closed spec fn view(&self) -> Keys {
        Keys { alg: self.alg, key: self.key@, iv: self.iv@, hp: self.hp@ }
    }
}

/// Builds the info of `HKDF-Expand-Label(.., label, "", len)`.
pub fn label_info(label: &[u8], len: usize) -> (info: Vec<u8>)
    requires
        label@.len() <= 32,
        len <= 32,
    ensures
        info@ == hkdf_label(label@, len as nat),
{
    let mut info: Vec<u8> = Vec::new();
    info.push((len / 256) as u8);
    info.push((len % 256) as u8);
    info.push((6 + label.len()) as u8);
    info.push(0x74);
    info.push(0x6c);
    info.push(0x73);
    info.push(0x31);
    info.push(0x33);
    info.push(0x20);
    info.extend_from_slice(label);
    info.push(0);
    assert(info@ =~= hkdf_label(label@, len as nat));
    info
}

/// Derives `len` bytes of key material from `secret`.
fn derive(alg: Algorithm, secret: &[u8], label: &[u8], len: usize) -> (out: Result<Vec<u8>, Error>)
    requires
        secret@.len() < SECRET_LIMIT,
        label@.len() <= 32,
        len <= 32,
    ensures
        out matches Ok(out) && out@ == expand_label(alg.hash(), secret@, label@, len as nat)
            && out@.len() == len,
{
    let info = label_info(label, len);
    match hkdf_expand(alg.hash(), secret, info.as_slice()) {
        Ok(mut okm) => {
            okm.truncate(len);
            Ok(okm)
        },
        Err(_) => Err(Error::CryptoFail),
    }
}

/// Computes the nonce of packet number `counter`.
pub fn packet_nonce(iv: &[u8], counter: u64) -> (n: Vec<u8>)
    requires
        iv@.len() == NONCE_LEN,
    ensures
        n@ == nonce(iv@, counter),
{
    let mut n: Vec<u8> = Vec::new();
    n.push(iv[0]);
    n.push(iv[1]);
    n.push(iv[2]);
    n.push(iv[3]);
    n.push(iv[4] ^ (counter >> 56) as u8);
    n.push(iv[5] ^ (counter >> 48) as u8);
    n.push(iv[6] ^ (counter >> 40) as u8);
    n.push(iv[7] ^ (counter >> 32) as u8);
    n.push(iv[8] ^ (counter >> 24) as u8);
    n.push(iv[9] ^ (counter >> 16) as u8);
    n.push(iv[10] ^ (counter >> 8) as u8);
    n.push(iv[11] ^ (counter >> 0) as u8);
    assert(n@ =~= nonce(iv@, counter));
    n
}

impl Open {
    /// The key context has an IV as long as a nonce.
    pub closed spec fn wf(&self) -> bool {
        self.iv@.len() == NONCE_LEN
    }

    /// Derives the key context from a traffic secret.
    pub fn from_secret(alg: Algorithm, secret: &[u8]) -> (open: Result<Open, Error>)
        requires
            secret@.len() < SECRET_LIMIT,
        ensures
            open matches Ok(open) && open.wf() && open@ == keys_from_secret(alg, secret@),
    {
        let label: Vec<u8> = vec![0x71, 0x75, 0x69, 0x63, 0x20, 0x6b, 0x65, 0x79];
        assert(label@ =~= label_key());
        let key = derive(alg, secret, label.as_slice(), alg.key_len())?;
        let label: Vec<u8> = vec![0x71, 0x75, 0x69, 0x63, 0x20, 0x69, 0x76];
        assert(label@ =~= label_iv());
        let iv = derive(alg, secret, label.as_slice(), NONCE_LEN)?;
        let label: Vec<u8> = vec![0x71, 0x75, 0x69, 0x63, 0x20, 0x68, 0x70];
        assert(label@ =~= label_hp());
        let hp = derive(alg, secret, label.as_slice(), alg.key_len())?;
        Ok(Open { alg, key, iv, hp })
    }

    /// Computes the header protection mask of a ciphertext sample.
    pub fn new_mask(&self, sample: &[u8]) -> (mask: Result<[u8; 5], Error>)
        ensures
            match mask {
                Ok(mask) => self@.mask(sample@) == Some(mask@),
                Err(e) => self@.mask(sample@) is None && e == Error::CryptoFail,
            },
    {
        match header_protection_mask(self.alg, self.hp.as_slice(), sample) {
            Ok(mask) => Ok(mask),
            Err(_) => Err(Error::CryptoFail),
        }
    }

    /// Decrypts the payload of packet number `counter`.
    pub fn open_with_u64_counter(&self, counter: u64, ad: &[u8], sealed: &[u8]) -> (plain: Result<
        Vec<u8>,
        Error,
    >)
        requires
            self.wf(),
        ensures
            match plain {
                Ok(plain) => self@.opened(counter, ad@, sealed@) == Some(plain@) && plain@.len()
                    + TAG_LEN == sealed@.len(),
                Err(e) => self@.opened(counter, ad@, sealed@) is None && e == Error::CryptoFail,
            },
    {
        let n = packet_nonce(self.iv.as_slice(), counter);
        match aead_open(self.alg, self.key.as_slice(), n.as_slice(), ad, sealed) {
            Ok(plain) => Ok(plain),
            Err(_) => Err(Error::CryptoFail),
        }
    }
}

} // verus!
