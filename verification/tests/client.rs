//! The decisions of a receiver.

use mcquic::client::{
    drain_stream, is_from_source, multicast_bind_addr, new_receiver, next_turn, on_flow_packet,
    on_io, on_packet, read_streams, take_dgrams, unicast_bind_addr, unspecified, Drain, Flush, Io,
    Sdp, Turn,
};
use mcquic::error::Error;
use mcquic::multicast::error::McError;
use mcquic::multicast::McFlowInfo;
use mcquic::net::{IpAddr, RecvInfo, SocketAddr};
use mcquic::stream::RangeBuf;

#[test]
fn sockets_are_bound_in_the_right_family() {
    let v4 = IpAddr::V4(0x7f000001);
    let v6 = IpAddr::V6(1);
    assert_eq!(unspecified(v4), IpAddr::V4(0));
    assert_eq!(unspecified(v6), IpAddr::V6(0));
    assert_eq!(
        unicast_bind_addr(SocketAddr { ip: v4, port: 4434 }),
        SocketAddr { ip: IpAddr::V4(0), port: 0 }
    );
    assert_eq!(
        unicast_bind_addr(SocketAddr { ip: v6, port: 4434 }),
        SocketAddr { ip: IpAddr::V6(0), port: 0 }
    );
    assert_eq!(
        multicast_bind_addr(v4, 4433),
        SocketAddr { ip: IpAddr::V4(0), port: 4433 }
    );
    assert_eq!(
        multicast_bind_addr(v6, 4433),
        SocketAddr { ip: IpAddr::V6(0), port: 4433 }
    );
}

#[test]
fn packets_are_flushed_until_nothing_is_left() {
    assert_eq!(on_packet(Ok(1200)), Flush::Transmit(1200));
    assert_eq!(on_packet(Err(Error::Done)), Flush::Stop);
    assert_eq!(on_packet(Err(Error::CryptoFail)), Flush::Close(0x1));
    assert_eq!(on_io(Io::Done(7)), Drain::Next(7));
    assert_eq!(on_io(Io::WouldBlock), Drain::Wait);
    assert_eq!(on_io(Io::Failed), Drain::Abort);
}

#[test]
fn the_group_is_joined_once() {
    let info = McFlowInfo {
        flow_id: vec![1],
        source_ip: IpAddr::V4(1),
        group_ip: IpAddr::V4(2),
        udp_port: 3,
        cipher_suite: 0x1301,
        first_pn: 4,
        secret: vec![],
    };
    assert_eq!(next_turn(true, true, false, Some(&info)), Turn::Stop);
    assert_eq!(next_turn(false, false, false, Some(&info)), Turn::Handshake);
    assert_eq!(next_turn(false, true, false, None), Turn::Serve);
    assert_eq!(
        next_turn(false, true, false, Some(&info)),
        Turn::Join { source: IpAddr::V4(1), group: IpAddr::V4(2), port: 3 }
    );
    assert!(is_from_source(IpAddr::V4(1), SocketAddr { ip: IpAddr::V4(1), port: 9 }));
    assert!(!is_from_source(IpAddr::V4(1), SocketAddr { ip: IpAddr::V4(2), port: 9 }));
    assert!(!is_from_source(IpAddr::V4(1), SocketAddr { ip: IpAddr::V6(1), port: 9 }));
    assert_eq!(next_turn(false, true, true, Some(&info)), Turn::Serve);
}

#[test]
fn the_description_is_handed_out_once() {
    let mut sdp = Sdp::new();
    assert_eq!(sdp.on_stream(7, b"other", true), None);
    assert_eq!(sdp.on_stream(3, b"v=0", false), None);
    assert_eq!(sdp.on_stream(3, b"\r\n", true), Some(b"v=0\r\n".to_vec()));
    assert_eq!(sdp.on_stream(3, b"", true), None);
}

#[test]
fn streams_are_read_as_far_as_they_go() {
    let mut conn = new_receiver();
    let mut sdp = Sdp::new();
    let chunk = |off: u64, data: &[u8], fin: bool| RangeBuf { off, data: data.to_vec(), fin };
    assert_eq!(read_streams(&mut conn, &mut sdp), None);
    conn.mc_deliver_stream(3, chunk(0, b"v=0", false)).unwrap();
    conn.mc_deliver_stream(7, chunk(0, b"xyz", true)).unwrap();
    conn.mc_deliver_stream(3, chunk(5, b"s=-", true)).unwrap();
    assert_eq!(read_streams(&mut conn, &mut sdp), None);
    // Stream 7 was read, and is over.
    assert_eq!(drain_stream(&mut conn, 7), None);
    assert_eq!(drain_stream(&mut conn, 3), None);
    conn.mc_deliver_stream(3, chunk(3, b"\r\n", false)).unwrap();
    assert_eq!(read_streams(&mut conn, &mut sdp), Some(b"v=0\r\ns=-".to_vec()));
    assert_eq!(read_streams(&mut conn, &mut sdp), None);

    // More than fits in the buffer.
    let long = vec![5; 200_000];
    conn.mc_deliver_stream(11, chunk(0, &long, false)).unwrap();
    assert_eq!(drain_stream(&mut conn, 11), Some((long, false)));
    conn.mc_deliver_stream(11, chunk(200_000, b"", true)).unwrap();
    assert_eq!(drain_stream(&mut conn, 11), Some((vec![], true)));
    assert_eq!(drain_stream(&mut conn, 11), None);
}

#[test]
fn datagrams_are_taken_in_order() {
    let mut conn = new_receiver();
    assert!(take_dgrams(&mut conn).is_empty());
    conn.mc_deliver(&[0x31, 1, 9, 0x31, 2, 8, 7, 0x31, 0]).unwrap();
    assert_eq!(take_dgrams(&mut conn), vec![vec![9], vec![8, 7], vec![]]);
    assert!(take_dgrams(&mut conn).is_empty());

    // One that is longer than any packet is dropped; the next one waits.
    let mut payload = vec![0x31, 0x80, 0x01, 0x00, 0x00];
    payload.extend(vec![1; 65536]);
    payload.extend([0x31, 1, 6]);
    conn.mc_deliver(&payload).unwrap();
    assert!(take_dgrams(&mut conn).is_empty());
    assert_eq!(take_dgrams(&mut conn), vec![vec![6]]);
}

#[test]
fn packets_that_are_refused_are_dropped() {
    let mut conn = new_receiver();
    conn.mc_deliver(&[0x31, 1, 9]).unwrap();
    let addr = SocketAddr { ip: IpAddr::V4(0), port: 0 };
    let info = RecvInfo { from: addr, to: addr };
    assert_eq!(
        on_flow_packet(&mut conn, &mut [0x40; 40], info),
        Err(Error::Multicast(McError::McFlow))
    );
    assert_eq!(take_dgrams(&mut conn), vec![vec![9]]);

    // A packet that decrypts to a single PING hands out what is queued.
    let secret: Vec<u8> = vec![
        0x9a, 0xc3, 0x12, 0xa7, 0xf8, 0x77, 0x46, 0x8e, 0xbe, 0x69, 0x42, 0x27, 0x48, 0xad, 0x00,
        0xa1, 0x54, 0x43, 0xf1, 0x82, 0x03, 0xa0, 0x7d, 0x60, 0x60, 0xf6, 0x88, 0xf3, 0x0f, 0x21,
        0x63, 0x2b,
    ];
    let any = IpAddr::V4(0);
    conn.mc_new_from_info(vec![], any, any, 0, 0x1303, 654360563, secret).unwrap();
    conn.mc_deliver(&[0x31, 1, 4]).unwrap();
    let mut pkt = [
        0x4c, 0xfe, 0x41, 0x89, 0x65, 0x5e, 0x5c, 0xd5, 0x5c, 0x41, 0xf6, 0x90, 0x80, 0x57, 0x5d,
        0x79, 0x99, 0xc2, 0x5a, 0x5b, 0xfb,
    ];
    assert_eq!(on_flow_packet(&mut conn, &mut pkt, info), Ok(vec![vec![4]]));
}
