//! Parsing of frames, and the wire format of flow advertisements.

use mcquic::error::Error;
use mcquic::frame::{Frame, MC_FLOW_TYPE};
use mcquic::multicast::McFlowInfo;
use mcquic::net::IpAddr;
use mcquic::wire::encode_flow;
use octets::Octets;

/// Parses one frame; returns it with the number of bytes behind it.
fn parse(bytes: &[u8]) -> Result<(Frame, usize), Error> {
    let mut b = Octets::with_slice(bytes);
    let frame = Frame::from_bytes(&mut b)?;
    Ok((frame, b.cap()))
}

/// The number of bytes behind a frame that means nothing on a flow.
fn ignored(bytes: &[u8]) -> Option<usize> {
    match parse(bytes) {
        Ok((Frame::Ignored, left)) => Some(left),
        Ok(_) => panic!("not ignored"),
        Err(e) => {
            assert_eq!(e, Error::InvalidFrame);
            None
        },
    }
}

#[test]
fn frames_without_application_data_are_passed_over() {
    // PADDING, PING, HANDSHAKE_DONE.
    assert_eq!(ignored(&[0x00, 9]), Some(1));
    assert_eq!(ignored(&[0x01]), Some(0));
    assert_eq!(ignored(&[0x1e]), Some(0));
    // ACK of 10..=12 and 5..=6, with and without ECN counts.
    assert_eq!(ignored(&[0x02, 12, 0, 1, 2, 2, 1, 7]), Some(1));
    assert_eq!(ignored(&[0x03, 12, 0, 1, 2, 2, 1, 7, 8, 9]), Some(0));
    assert_eq!(ignored(&[0x03, 12, 0, 1, 2, 2, 1, 7, 8]), None);
    // An ACK below packet number zero.
    assert_eq!(ignored(&[0x02, 12, 0, 0, 13]), None);
    assert_eq!(ignored(&[0x02, 12, 0, 0, 12]), Some(0));
    assert_eq!(ignored(&[0x02, 12, 0, 1, 2, 8, 0]), Some(0));
    assert_eq!(ignored(&[0x02, 12, 0, 1, 2, 8, 1]), None);
    assert_eq!(ignored(&[0x02, 12, 0, 1, 2, 9, 0]), None);
    // RESET_STREAM, STOP_SENDING, CRYPTO, NEW_TOKEN.
    assert_eq!(ignored(&[0x04, 1, 2, 3]), Some(0));
    assert_eq!(ignored(&[0x04, 1, 2]), None);
    assert_eq!(ignored(&[0x05, 1, 2]), Some(0));
    assert_eq!(ignored(&[0x06, 0, 2, 8, 8, 8]), Some(1));
    assert_eq!(ignored(&[0x07, 1, 8]), Some(0));
    assert_eq!(ignored(&[0x07, 0]), None);
    // MAX_DATA, MAX_STREAM_DATA, MAX_STREAMS, DATA_BLOCKED,
    // STREAM_DATA_BLOCKED, STREAMS_BLOCKED.
    assert_eq!(ignored(&[0x10, 1]), Some(0));
    assert_eq!(ignored(&[0x11, 1, 2]), Some(0));
    for ty in [0x12, 0x13, 0x14, 0x16, 0x17, 0x19] {
        assert_eq!(ignored(&[ty, 0x40, 1]), Some(0));
        assert_eq!(ignored(&[ty, 0x40]), None);
    }
    assert_eq!(ignored(&[0x15, 1, 2]), Some(0));
    // NEW_CONNECTION_ID.
    let mut f = vec![0x18, 1, 0, 2, 7, 7];
    f.extend([5; 16]);
    assert_eq!(ignored(&f), Some(0));
    assert_eq!(ignored(&f[..21]), None);
    let mut f = vec![0x18, 1, 0, 0];
    f.extend([5; 40]);
    assert_eq!(ignored(&f), None);
    f[3] = 21;
    assert_eq!(ignored(&f), None);
    f[3] = 20;
    assert_eq!(ignored(&f), Some(4));
    // PATH_CHALLENGE, PATH_RESPONSE, CONNECTION_CLOSE.
    assert_eq!(ignored(&[0x1a, 1, 2, 3, 4, 5, 6, 7, 8]), Some(0));
    assert_eq!(ignored(&[0x1b, 1, 2, 3, 4, 5, 6, 7]), None);
    assert_eq!(ignored(&[0x1c, 1, 0, 1, 8]), Some(0));
    assert_eq!(ignored(&[0x1d, 1, 1, 8]), Some(0));
}

#[test]
fn truncated_frame_types_are_errors() {
    for bytes in [&[][..], &[0x40], &[0xff], &[0x80, 0xff, 0x4d]] {
        assert!(matches!(parse(bytes), Err(Error::InvalidFrame)));
    }
}

#[test]
fn unknown_frames_take_all_that_is_left() {
    for bytes in [&[0x1f][..], &[0x20, 1, 2], &[0x32, 0x31, 1, 1], &[0x7f, 0xff, 0xff]] {
        assert_eq!(ignored(bytes), Some(0));
    }
}

#[test]
fn datagrams_are_parsed() {
    match parse(&[0x30, 1, 2, 3]) {
        Ok((Frame::Datagram { data }, 0)) => assert_eq!(data, vec![1, 2, 3]),
        _ => panic!("no datagram"),
    }
    match parse(&[0x31, 2, 1, 2, 3]) {
        Ok((Frame::Datagram { data }, 1)) => assert_eq!(data, vec![1, 2]),
        _ => panic!("no datagram"),
    }
    assert!(matches!(parse(&[0x31, 4, 1, 2, 3]), Err(Error::InvalidFrame)));
}

#[test]
fn stream_frames_are_parsed() {
    // Type, bytes, offset, data, end of the stream, bytes behind the frame.
    let cases: [(u8, &[u8], u64, &[u8], bool, usize); 8] = [
        (0x08, &[3, 1, 2], 0, &[1, 2], false, 0),
        (0x09, &[3, 1, 2], 0, &[1, 2], true, 0),
        (0x0a, &[3, 1, 1, 2], 0, &[1], false, 1),
        (0x0b, &[3, 1, 1, 2], 0, &[1], true, 1),
        (0x0c, &[3, 0x41, 0x00, 1, 2], 256, &[1, 2], false, 0),
        (0x0d, &[3, 5, 1, 2], 5, &[1, 2], true, 0),
        (0x0e, &[3, 5, 0, 2], 5, &[], false, 1),
        (0x0f, &[3, 5, 1, 2], 5, &[2], true, 0),
    ];
    for (ty, rest, off, bytes, fin, left) in cases {
        let mut f = vec![ty];
        f.extend_from_slice(rest);
        match parse(&f) {
            Ok((Frame::Stream { stream_id, data }, n)) => {
                assert_eq!(stream_id, 3);
                assert_eq!(data.off, off);
                assert_eq!(data.data, bytes);
                assert_eq!(data.fin, fin);
                assert_eq!(data.max_off(), off + bytes.len() as u64);
                assert_eq!(n, left);
            },
            _ => panic!("no stream frame"),
        }
    }
    // The data would reach beyond the largest offset.
    let mut f = vec![0x0c, 3];
    f.extend([0xff; 8]);
    f.push(1);
    assert!(matches!(parse(&f), Err(Error::InvalidFrame)));
}

fn flow() -> McFlowInfo {
    McFlowInfo {
        flow_id: vec![0xaa, 0xbb],
        source_ip: IpAddr::V4(0xc0000201),
        group_ip: IpAddr::V4(0xe8010203),
        udp_port: 4433,
        cipher_suite: 0x1301,
        first_pn: 42,
        secret: vec![7; 3],
    }
}

fn same(a: &McFlowInfo, b: &McFlowInfo) -> bool {
    a.flow_id == b.flow_id
        && a.source_ip == b.source_ip
        && a.group_ip == b.group_ip
        && a.udp_port == b.udp_port
        && a.cipher_suite == b.cipher_suite
        && a.first_pn == b.first_pn
        && a.secret == b.secret
}

fn decoded(bytes: &[u8]) -> Option<McFlowInfo> {
    match parse(bytes) {
        Ok((
            Frame::McFlow {
                flow_id,
                source_ip,
                group_ip,
                udp_port,
                cipher_suite,
                first_pn,
                secret,
            },
            _,
        )) => Some(McFlowInfo {
            flow_id,
            source_ip,
            group_ip,
            udp_port,
            cipher_suite,
            first_pn,
            secret,
        }),
        Ok(_) => panic!("no advertisement"),
        Err(_) => None,
    }
}

#[test]
fn advertisements_have_the_documented_layout() {
    assert_eq!(MC_FLOW_TYPE, 0xff4d43);
    assert_eq!(
        encode_flow(&flow()).unwrap(),
        vec![
            0x80, 0xff, 0x4d, 0x43, // type
            2, 0xaa, 0xbb, // Flow ID
            4, 192, 0, 2, 1, 232, 1, 2, 3, // addresses
            0x11, 0x51, // port
            0x13, 0x01, // cipher suite
            42,   // first packet number
            3, 7, 7, 7, // secret
        ]
    );
}

#[test]
fn advertisements_are_read_as_they_were_written() {
    let mut f = flow();
    for first_pn in [0, 0x3f, 0x40, 0x3fff, 0x4000, 0x3fff_ffff, 0x4000_0000, (1 << 62) - 1] {
        f.first_pn = first_pn;
        let mut bytes = encode_flow(&f).unwrap();
        bytes.push(0x55);
        assert!(same(&decoded(&bytes).unwrap(), &f));
        for n in 0..bytes.len() - 1 {
            assert!(decoded(&bytes[..n]).is_none());
        }
    }
    f.source_ip = IpAddr::V6(0x2001_0db8_0000_0000_0000_0000_0000_0001);
    f.group_ip = IpAddr::V6(0xff3e_0000_0000_0000_0000_0000_1234_5678);
    f.flow_id = (0..20).collect();
    f.secret = vec![9; 100];
    let bytes = encode_flow(&f).unwrap();
    assert!(same(&decoded(&bytes).unwrap(), &f));
    assert!(same(&f.clone(), &f));
    match f.to_frame() {
        Frame::McFlow { flow_id, secret, .. } => {
            assert_eq!(flow_id, f.flow_id);
            assert_eq!(secret, f.secret);
        },
        _ => panic!("no advertisement"),
    }
}

#[test]
fn some_flows_cannot_be_described() {
    let mut f = flow();
    f.flow_id = vec![];
    assert!(encode_flow(&f).is_none());
    f.flow_id = vec![1; 21];
    assert!(encode_flow(&f).is_none());
    f = flow();
    f.group_ip = IpAddr::V6(1);
    assert!(encode_flow(&f).is_none());
    f = flow();
    f.first_pn = 1 << 62;
    assert!(encode_flow(&f).is_none());
}

#[test]
fn malformed_advertisements_are_errors() {
    let good = encode_flow(&flow()).unwrap();
    assert!(decoded(&good).is_some());
    // The length of the Flow ID, and the IP version.
    for (at, v) in [(4, 0), (4, 21), (7, 0), (7, 5), (7, 6)] {
        let mut bad = good.clone();
        bad[at] = v;
        assert!(decoded(&bad).is_none());
    }
}
