//! Tests for the connection manager: listener ports, the accept queue,
//! user reads and writes, and frame-level demultiplexing through the real
//! codec.
use thunder::codec::{Ipv4Info, TcpInfo};
use thunder::manager::{ConnectionManager, ReadOutcome};
use thunder::{Quad, TcpError};

fn syn_seg(seq: u32, wnd: u16) -> TcpInfo {
    TcpInfo {
        src_port: 40000,
        dst_port: 9000,
        seqn: seq,
        ackn: 0,
        wnd,
        syn: true,
        ack: false,
        fin: false,
        header_len: 20,
    }
}

fn ack_seg(seq: u32, ack: u32) -> TcpInfo {
    TcpInfo {
        src_port: 40000,
        dst_port: 9000,
        seqn: seq,
        ackn: ack,
        wnd: 4096,
        syn: false,
        ack: true,
        fin: false,
        header_len: 20,
    }
}

fn peer_ip() -> Ipv4Info {
    Ipv4Info { src: 0x0a00_0001, dst: 0x0a00_0002, protocol: 6, header_len: 20 }
}

fn the_quad() -> Quad {
    Quad { src_ip: 0x0a00_0001, src_port: 40000, dst_ip: 0x0a00_0002, dst_port: 9000 }
}

fn established_manager() -> ConnectionManager {
    let mut m = ConnectionManager::new();
    m.bind(9000).unwrap();
    let out = m.on_segment(&peer_ip(), &syn_seg(1000, 4096), &[], 0);
    assert!(out.wake_pending);
    assert_eq!(out.transmits.len(), 1);
    let out = m.on_segment(&peer_ip(), &ack_seg(1001, 1), &[], 1_000);
    assert!(!out.wake_pending);
    m
}

#[test]
fn bind_twice_is_addr_in_use() {
    let mut m = ConnectionManager::new();
    assert_eq!(m.bind(9000), Ok(()));
    assert_eq!(m.bind(9000), Err(TcpError::AddrInUse));
    assert_eq!(m.bind(9001), Ok(()));
    assert!(m.unbind(9000));
    assert!(!m.unbind(9000));
    assert_eq!(m.bind(9000), Ok(()));
}

#[test]
fn accept_sees_connections_in_arrival_order() {
    let mut m = ConnectionManager::new();
    m.bind(9000).unwrap();
    assert_eq!(m.try_accept(9000), None);
    m.on_segment(&peer_ip(), &syn_seg(1000, 4096), &[], 0);
    let mut second = syn_seg(5000, 4096);
    second.src_port = 40001;
    m.on_segment(&peer_ip(), &second, &[], 10);
    let q1 = m.try_accept(9000).expect("first handshake queued");
    assert_eq!(q1, the_quad());
    let q2 = m.try_accept(9000).expect("second handshake queued");
    assert_eq!(q2.src_port, 40001);
    assert_eq!(m.try_accept(9000), None);
}

#[test]
fn syn_to_unbound_port_is_dropped() {
    let mut m = ConnectionManager::new();
    let out = m.on_segment(&peer_ip(), &syn_seg(1000, 4096), &[], 0);
    assert!(!out.wake_pending && !out.wake_read);
    assert!(out.transmits.is_empty());
}

#[test]
fn read_write_flush_shutdown_roundtrip() {
    let mut m = established_manager();
    let q = the_quad();
    // Nothing readable yet.
    assert!(matches!(m.read_bytes(q, 512), Ok(ReadOutcome::WouldBlock)));
    // Peer data becomes readable in order.
    let out = m.on_segment(&peer_ip(), &ack_seg(1001, 1), b"hello", 2_000);
    assert!(out.wake_read);
    assert_eq!(out.transmits.len(), 1);
    match m.read_bytes(q, 3) {
        Ok(ReadOutcome::Data(v)) => assert_eq!(v, b"hel".to_vec()),
        other => panic!("expected data, got {:?}", other.is_ok()),
    }
    match m.read_bytes(q, 512) {
        Ok(ReadOutcome::Data(v)) => assert_eq!(v, b"lo".to_vec()),
        other => panic!("expected data, got {:?}", other.is_ok()),
    }
    // User bytes queue until a tick sends them, and the peer ack flushes.
    assert_eq!(m.write_bytes(q, b"HI"), Ok(2));
    assert_eq!(m.flush_done(q), Ok(false));
    let sends = m.on_tick_all(3_000);
    assert_eq!(sends.len(), 1);
    assert_eq!(sends[0].payload, b"HI".to_vec());
    assert_eq!(sends[0].seqn, 1);
    m.on_segment(&peer_ip(), &ack_seg(1006, 3), &[], 4_000);
    assert_eq!(m.flush_done(q), Ok(true));
    // Shutdown of the write side succeeds once.
    assert_eq!(m.shutdown_write(q), Ok(()));
}

#[test]
fn unknown_quad_is_connection_reset() {
    let mut m = ConnectionManager::new();
    let q = the_quad();
    assert_eq!(m.write_bytes(q, b"x"), Err(TcpError::ConnectionReset));
    assert!(matches!(m.read_bytes(q, 1), Err(TcpError::ConnectionReset)));
    assert_eq!(m.flush_done(q), Err(TcpError::ConnectionReset));
    assert_eq!(m.shutdown_write(q), Err(TcpError::ConnectionReset));
}

#[test]
fn write_respects_send_queue_cap() {
    let mut m = established_manager();
    let q = the_quad();
    let big = vec![7u8; 5000];
    assert_eq!(m.write_bytes(q, &big), Ok(thunder::SENDQUEUE_SIZE));
    assert_eq!(m.write_bytes(q, &big), Ok(0));
}

#[test]
fn eof_after_time_wait() {
    let mut m = established_manager();
    let q = the_quad();
    m.shutdown_write(q).unwrap();
    let sends = m.on_tick_all(2_000);
    assert_eq!(sends.len(), 1);
    assert!(sends[0].fin);
    m.on_segment(&peer_ip(), &ack_seg(1001, 2), &[], 3_000);
    let mut fin = ack_seg(1001, 2);
    fin.fin = true;
    let out = m.on_segment(&peer_ip(), &fin, &[], 4_000);
    assert!(out.wake_read);
    assert!(matches!(m.read_bytes(q, 512), Ok(ReadOutcome::Closed)));
}
