//! Tests holding the codec surface against the real wire format: frames
//! built by `etherparse` parse into the expected fields, and emitted
//! frames decode back to the segment the engine chose.
use thunder::codec::{parse_ipv4, parse_tcp, Ipv4Info, TcpInfo};
use thunder::connection::Connection;
use thunder::manager::ConnectionManager;

/// A raw IPv4+TCP frame for the given header fields and payload.
fn build_frame(
    src: [u8; 4],
    dst: [u8; 4],
    sport: u16,
    dport: u16,
    seq: u32,
    ack: Option<u32>,
    syn: bool,
    fin: bool,
    wnd: u16,
    payload: &[u8],
) -> Vec<u8> {
    let mut tcp = etherparse::TcpHeader::new(sport, dport, seq, wnd);
    if let Some(a) = ack {
        tcp.ack = true;
        tcp.acknowledgment_number = a;
    }
    tcp.syn = syn;
    tcp.fin = fin;
    let ip = etherparse::Ipv4Header::new(
        (tcp.header_len() + payload.len()) as u16,
        64,
        etherparse::IpNumber::TCP,
        src,
        dst,
    )
    .unwrap();
    tcp.checksum = tcp.calc_checksum_ipv4(&ip, payload).unwrap();
    let mut out = Vec::new();
    ip.write(&mut out).unwrap();
    tcp.write(&mut out).unwrap();
    out.extend_from_slice(payload);
    out
}

#[test]
fn parse_reads_real_headers() {
    let frame = build_frame(
        [10, 0, 0, 1],
        [10, 0, 0, 2],
        40000,
        9000,
        1000,
        None,
        true,
        false,
        4096,
        &[],
    );
    let iph = parse_ipv4(&frame).expect("a well-formed IPv4 header");
    assert_eq!(iph.src, u32::from_be_bytes([10, 0, 0, 1]));
    assert_eq!(iph.dst, u32::from_be_bytes([10, 0, 0, 2]));
    assert_eq!(iph.protocol, 6);
    assert_eq!(iph.header_len, 20);
    let tcph = parse_tcp(&frame[iph.header_len..]).expect("a well-formed TCP header");
    assert_eq!(tcph.src_port, 40000);
    assert_eq!(tcph.dst_port, 9000);
    assert_eq!(tcph.seqn, 1000);
    assert_eq!(tcph.wnd, 4096);
    assert!(tcph.syn && !tcph.ack && !tcph.fin);
    assert_eq!(tcph.header_len, 20);
}

#[test]
fn parse_rejects_garbage() {
    assert!(parse_ipv4(&[0u8; 4]).is_none());
    assert!(parse_ipv4(&[0xffu8; 40]).is_none());
    assert!(parse_tcp(&[1u8, 2, 3]).is_none());
}

#[test]
fn emitted_frame_decodes_to_the_chosen_segment() {
    let iph = Ipv4Info {
        src: u32::from_be_bytes([10, 0, 0, 1]),
        dst: u32::from_be_bytes([10, 0, 0, 2]),
        protocol: 6,
        header_len: 20,
    };
    let h = TcpInfo {
        src_port: 40000,
        dst_port: 9000,
        seqn: 1000,
        ackn: 0,
        wnd: 4096,
        syn: true,
        ack: false,
        fin: false,
        header_len: 20,
    };
    let (_c, t) = Connection::accept(&iph, &h, 0).unwrap();
    // The frame on the wire carries exactly the SYN+ACK the engine chose.
    let ip = etherparse::Ipv4HeaderSlice::from_slice(&t.frame).unwrap();
    assert_eq!(ip.source(), [10, 0, 0, 2]);
    assert_eq!(ip.destination(), [10, 0, 0, 1]);
    assert_eq!(ip.ttl(), 64);
    assert_eq!(ip.protocol(), etherparse::IpNumber::TCP);
    let tcp = etherparse::TcpHeaderSlice::from_slice(&t.frame[ip.slice().len()..]).unwrap();
    assert_eq!(tcp.source_port(), 9000);
    assert_eq!(tcp.destination_port(), 40000);
    assert_eq!(tcp.sequence_number(), 0);
    assert_eq!(tcp.acknowledgment_number(), 1001);
    assert!(tcp.syn() && tcp.ack() && !tcp.fin());
    assert_eq!(tcp.window_size(), 1024);
    // The checksum on the wire is the RFC 793 pseudo-header checksum.
    let expected = tcp.to_header().calc_checksum_ipv4(&ip.to_header(), &[]).unwrap();
    assert_eq!(tcp.checksum(), expected);
}

#[test]
fn handle_frame_runs_the_handshake_over_raw_frames() {
    let mut m = ConnectionManager::new();
    m.bind(9000).unwrap();
    let syn = build_frame(
        [10, 0, 0, 1],
        [10, 0, 0, 2],
        40000,
        9000,
        1000,
        None,
        true,
        false,
        4096,
        &[],
    );
    let out = m.handle_frame(&syn, 0);
    assert!(out.wake_pending);
    assert_eq!(out.transmits.len(), 1);
    assert!(out.transmits[0].syn && out.transmits[0].ack);
    let q = m.try_accept(9000).expect("handshake queued for accept");
    assert_eq!(q.dst_port, 9000);
    let ack = build_frame(
        [10, 0, 0, 1],
        [10, 0, 0, 2],
        40000,
        9000,
        1001,
        Some(1),
        false,
        false,
        4096,
        &[],
    );
    m.handle_frame(&ack, 1_000);
    let data = build_frame(
        [10, 0, 0, 1],
        [10, 0, 0, 2],
        40000,
        9000,
        1001,
        Some(1),
        false,
        false,
        4096,
        b"hello",
    );
    let out = m.handle_frame(&data, 2_000);
    assert!(out.wake_read);
    assert_eq!(out.transmits.len(), 1);
    assert_eq!(out.transmits[0].ackn, 1006);
}

#[test]
fn non_tcp_frames_are_dropped() {
    let mut m = ConnectionManager::new();
    m.bind(9000).unwrap();
    // A UDP datagram inside IPv4: parsed as IPv4 but not TCP.
    let udp = etherparse::PacketBuilder::ipv4([10, 0, 0, 1], [10, 0, 0, 2], 64).udp(1, 2);
    let mut frame = Vec::new();
    udp.write(&mut frame, &[1, 2, 3]).unwrap();
    let out = m.handle_frame(&frame, 0);
    assert!(out.transmits.is_empty() && !out.wake_read && !out.wake_pending);
    // Garbage is dropped silently as well.
    let out = m.handle_frame(&[0u8; 10], 0);
    assert!(out.transmits.is_empty() && !out.wake_read && !out.wake_pending);
}
