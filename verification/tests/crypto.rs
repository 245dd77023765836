//! Packet protection, on well-known values.

use mcquic::connection::Connection;
use mcquic::crypto::{label_info, packet_nonce, Algorithm, HashFn, Open};
use mcquic::error::Error;
use mcquic::frame::Frame;
use mcquic::net::{IpAddr, RecvInfo, SocketAddr};
use mcquic::packet::{
    check_header, decode_pkt_num, open_packet, read_pkt_num, unmask, MAX_PKT_NUM_BASIS,
};
use mcquic::streams::StreamLimits;

fn hex(s: &str) -> Vec<u8> {
    (0..s.len() / 2).map(|i| u8::from_str_radix(&s[2 * i..2 * i + 2], 16).unwrap()).collect()
}

const CLIENT_INITIAL: &str = "c00cf151ca5be075ed0ebfb5c80323c42d6b7db67881289af4008f1f6c357aea";
const CHACHA: &str = "9ac312a7f877468ebe69422748ad00a15443f18203a07d6060f688f30f21632b";
const CHACHA_PACKET: &str = "4cfe4189655e5cd55c41f69080575d7999c25a5bfb";

#[test]
fn algorithms_have_their_parameters() {
    assert_eq!(Algorithm::AES128_GCM.key_len(), 16);
    assert_eq!(Algorithm::AES256_GCM.key_len(), 32);
    assert_eq!(Algorithm::ChaCha20_Poly1305.key_len(), 32);
    assert_eq!(Algorithm::AES128_GCM.hash(), HashFn::Sha256);
    assert_eq!(Algorithm::AES256_GCM.hash(), HashFn::Sha384);
    assert_eq!(Algorithm::ChaCha20_Poly1305.hash(), HashFn::Sha256);
}

#[test]
fn labels_are_encoded() {
    assert_eq!(label_info(b"quic key", 16), hex("00100e746c7331332071756963206b657900"));
    assert_eq!(label_info(b"quic iv", 12), hex("000c0d746c733133207175696320697600"));
    assert_eq!(label_info(b"quic hp", 16), hex("00100d746c733133207175696320687000"));
}

#[test]
fn nonces_are_the_iv_with_the_packet_number() {
    let iv = hex("e0459b3474bdd0e44a41c144");
    assert_eq!(packet_nonce(&iv, 654360564), hex("e0459b3474bdd0e46d417eb0"));
    assert_eq!(packet_nonce(&iv, 0), iv);
    assert_eq!(packet_nonce(&[0; 12], u64::MAX), hex("00000000ffffffffffffffff"));
}

#[test]
fn aes_header_protection_mask() {
    let open = Open::from_secret(Algorithm::AES128_GCM, &hex(CLIENT_INITIAL)).unwrap();
    let mask = open.new_mask(&hex("d1b1c98dd7689fb8ec11d242b123dc9b")).unwrap();
    assert_eq!(mask.to_vec(), hex("437b9aec36"));
    // A sample has sixteen bytes.
    assert_eq!(open.new_mask(&[0; 15]), Err(Error::CryptoFail));
}

#[test]
fn chacha_header_protection_mask() {
    let open = Open::from_secret(Algorithm::ChaCha20_Poly1305, &hex(CHACHA)).unwrap();
    let mask = open.new_mask(&hex("5e5cd55c41f69080575d7999c25a5bfb")).unwrap();
    assert_eq!(mask.to_vec(), hex("aefefe7d03"));
}

#[test]
fn chacha_payload_is_opened() {
    let open = Open::from_secret(Algorithm::ChaCha20_Poly1305, &hex(CHACHA)).unwrap();
    let sealed = hex("655e5cd55c41f69080575d7999c25a5bfb");
    assert_eq!(open.open_with_u64_counter(654360564, &hex("4200bff4"), &sealed), Ok(vec![0x01]));
    // Another packet number, other associated data, too little data.
    assert_eq!(
        open.open_with_u64_counter(654360565, &hex("4200bff4"), &sealed),
        Err(Error::CryptoFail)
    );
    assert_eq!(
        open.open_with_u64_counter(654360564, &hex("4200bff5"), &sealed),
        Err(Error::CryptoFail)
    );
    assert_eq!(
        open.open_with_u64_counter(654360564, &hex("4200bff4"), &sealed[..15]),
        Err(Error::CryptoFail)
    );
}

#[test]
fn header_protection_is_removed() {
    let mut pkt = hex(CHACHA_PACKET);
    let n = unmask(&mut pkt, 1, [0xae, 0xfe, 0xfe, 0x7d, 0x03]);
    assert_eq!(n, 3);
    assert_eq!(pkt, hex("4200bff4655e5cd55c41f69080575d7999c25a5bfb"));
}

#[test]
fn headers_are_checked() {
    assert!(check_header(&[0x40, 1, 2, 3], &[1, 2]));
    assert!(check_header(&[0x00], &[]));
    assert!(check_header(&[0x7f, 1, 2], &[1, 2]));
    assert!(!check_header(&[], &[]));
    assert!(!check_header(&[0x80, 1, 2, 3], &[1, 2]));
    assert!(!check_header(&[0x40, 1, 3, 3], &[1, 2]));
    assert!(!check_header(&[0x40, 1], &[1, 2]));
}

#[test]
fn packet_numbers_are_reconstructed() {
    assert_eq!(decode_pkt_num(0xa82f30ea, 0x9b32, 2), 0xa82f9b32);
    assert_eq!(decode_pkt_num(0, 0, 4), 0);
    assert_eq!(decode_pkt_num(0xff, 0x00, 1), 0x100);
    assert_eq!(decode_pkt_num(0x100, 0xff, 1), 0xff);
    assert_eq!(decode_pkt_num(0, 0xff, 1), 0xff);
    assert_eq!(decode_pkt_num(0x1_0000_0000, 0xffff_ffff, 4), 0xffff_ffff);
    assert_eq!(decode_pkt_num(0x4000_0000_0000_0000 - 2, 0, 1), 0x4000_0000_0000_0000 - 0x100);

    assert_eq!(decode_pkt_num(MAX_PKT_NUM_BASIS, 0xffff_ffff, 4), MAX_PKT_NUM_BASIS + 1);

    assert_eq!(read_pkt_num(&[0xfe]), 0xfe);
    assert_eq!(read_pkt_num(&[1, 2]), 0x0102);
    assert_eq!(read_pkt_num(&[1, 2, 3]), 0x010203);
    assert_eq!(read_pkt_num(&[1, 2, 3, 4]), 0x01020304);
}

#[test]
fn short_packet_is_opened() {
    let open = Open::from_secret(Algorithm::ChaCha20_Poly1305, &hex(CHACHA)).unwrap();
    let mut pkt = hex(CHACHA_PACKET);
    let p = open_packet(&mut pkt, &[], &open, 654360563).unwrap();
    assert_eq!(p.pn, 654360564);
    assert_eq!(p.header_len, 4);
    assert_eq!(p.payload, vec![0x01]);
    assert_eq!(pkt, hex("4200bff4015e5cd55c41f69080575d7999c25a5bfb"));

    // A basis that is too far away gives another packet number.
    let mut pkt = hex(CHACHA_PACKET);
    assert!(open_packet(&mut pkt, &[], &open, 1).is_none());
    assert_eq!(pkt, hex("4200bff4655e5cd55c41f69080575d7999c25a5bfb"));
    // A packet that is too short is left alone.
    let mut pkt = hex(CHACHA_PACKET)[..20].to_vec();
    assert!(open_packet(&mut pkt, &[], &open, 654360563).is_none());
    assert_eq!(pkt, hex(CHACHA_PACKET)[..20].to_vec());
}

#[test]
fn short_packet_is_received() {
    let limits = StreamLimits {
        max_streams_bidi: 0,
        max_streams_uni: 0,
        max_stream_data_bidi: 0,
        max_stream_data_uni: 0,
    };
    let mut conn = Connection::new(false, false, 0, limits, 0);
    let any = IpAddr::V4(0);
    conn.mc_new_from_info(vec![], any, any, 0, 0x1303, 654360563, hex(CHACHA)).unwrap();
    let addr = SocketAddr { ip: any, port: 0 };
    let mut pkt = hex(CHACHA_PACKET);
    assert_eq!(conn.mc_recv(&mut pkt, RecvInfo { from: addr, to: addr }), Ok(5));
    assert_eq!(&pkt[..5], &hex("4200bff401")[..]);
    match conn.multicast().unwrap().pending_ack_frame() {
        Some(Frame::McAck { ranges, .. }) => {
            assert_eq!(ranges.iter(), vec![654360564..654360565])
        },
        _ => panic!("no report"),
    }
}
