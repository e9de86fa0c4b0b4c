//! Scenario tests driving the per-connection engine directly: the
//! handshake, data in both directions, close, and retransmission.
use std::collections::VecDeque;

use thunder::codec::{Ipv4Info, TcpInfo};
use thunder::connection::Connection;
use thunder::tcp::State;

fn peer_ip() -> Ipv4Info {
    Ipv4Info { src: 0x0a00_0001, dst: 0x0a00_0002, protocol: 6, header_len: 20 }
}

fn seg(seqn: u32, ackn: u32, syn: bool, ack: bool, fin: bool, wnd: u16) -> TcpInfo {
    TcpInfo { src_port: 40000, dst_port: 9000, seqn, ackn, wnd, syn, ack, fin, header_len: 20 }
}

/// Peer SYN seq=1000 win=4096; we reply SYN+ACK seq=0 ack=1001 win=1024;
/// peer ACK completes the handshake.
fn establish() -> Connection {
    let iph = peer_ip();
    let (mut c, t) = Connection::accept(&iph, &seg(1000, 0, true, false, false, 4096), 0).unwrap();
    assert_eq!(t.seqn, 0);
    assert_eq!(t.ackn, 1001);
    assert!(t.syn && t.ack && !t.fin);
    assert_eq!(t.wnd, 1024);
    assert!(t.payload.is_empty());
    assert_eq!(c.state, State::SynRcvd);
    assert_eq!(c.recv.irs, 1000);
    assert_eq!(c.recv.nxt, 1001);
    assert_eq!(c.recv.wnd, 4096);
    assert_eq!(c.send.nxt, 1);
    let (_, outs) = c.on_packet(&seg(1001, 1, false, true, false, 4096), &[], 1_000);
    assert_eq!(c.state, State::Estab);
    assert!(outs.is_empty());
    assert_eq!(c.send.una, 1);
    c
}

#[test]
fn handshake_establishes() {
    establish();
}

#[test]
fn non_syn_is_not_a_new_connection() {
    let iph = peer_ip();
    assert!(Connection::accept(&iph, &seg(1000, 0, false, false, false, 4096), 0).is_none());
    // SYN with ACK set is not a passive open either.
    assert!(Connection::accept(&iph, &seg(1000, 7, true, true, false, 4096), 0).is_none());
}

/// After the handshake, peer data "hello" advances rcv.nxt and is answered
/// with ACK seq=1 ack=1006.
#[test]
fn data_delivery_and_ack() {
    let mut c = establish();
    let (avail, outs) = c.on_packet(&seg(1001, 1, false, true, false, 4096), b"hello", 2_000);
    assert_eq!(c.recv.nxt, 1006);
    assert_eq!(c.incoming.iter().copied().collect::<Vec<u8>>(), b"hello".to_vec());
    assert!(avail.read);
    assert_eq!(outs.len(), 1);
    assert_eq!(outs[0].seqn, 1);
    assert_eq!(outs[0].ackn, 1006);
    assert!(outs[0].ack && !outs[0].syn && !outs[0].fin);
    assert!(outs[0].payload.is_empty());
}

fn establish_with_hello() -> Connection {
    let mut c = establish();
    c.on_packet(&seg(1001, 1, false, true, false, 4096), b"hello", 2_000);
    c
}

/// The user writes "HI"; the tick emits it as one segment seq=1; the
/// peer's ack=3 drains `unacked` and sets snd.una=3.
#[test]
fn user_write_tick_and_ack() {
    let mut c = establish_with_hello();
    c.unacked = VecDeque::from(vec![b'H', b'I']);
    let t = c.on_tick(3_000).expect("tick should send the queued bytes");
    assert_eq!(t.seqn, 1);
    assert_eq!(t.ackn, 1006);
    assert_eq!(t.payload, b"HI".to_vec());
    assert!(t.ack && !t.syn && !t.fin);
    assert_eq!(c.send.nxt, 3);
    let (_, _) = c.on_packet(&seg(1006, 3, false, true, false, 4096), &[], 4_000);
    assert!(c.unacked.is_empty());
    assert_eq!(c.send.una, 3);
    assert_eq!(c.send.una, c.send.nxt);
}

fn establish_through_write() -> Connection {
    let mut c = establish_with_hello();
    c.unacked = VecDeque::from(vec![b'H', b'I']);
    c.on_tick(3_000);
    c.on_packet(&seg(1006, 3, false, true, false, 4096), &[], 4_000);
    c
}

/// shutdown(write): the next tick emits FIN+ACK seq=3 ack=1006 and records
/// where the FIN sits; the peer's ack=4 moves FIN-WAIT-1 to FIN-WAIT-2.
#[test]
fn shutdown_emits_fin_and_completes() {
    let mut c = establish_through_write();
    c.close().unwrap();
    assert_eq!(c.state, State::FinWait1);
    let t = c.on_tick(5_000).expect("tick should emit the FIN");
    assert!(t.fin && t.ack && !t.syn);
    assert_eq!(t.seqn, 3);
    assert_eq!(t.ackn, 1006);
    assert!(t.payload.is_empty());
    // The FIN occupies sequence number 3: the cursor moves past it.
    assert_eq!(c.closed_at, Some(3));
    assert_eq!(c.send.nxt, 4);
    let (_, _) = c.on_packet(&seg(1006, 4, false, true, false, 4096), &[], 6_000);
    assert_eq!(c.state, State::FinWait2);
    assert_eq!(c.send.una, 4);
}

/// Peer FIN seq=1006 ack=4: we answer ACK seq=4 ack=1007 and enter
/// TIME-WAIT; the read side reports end of stream.
#[test]
fn peer_fin_enters_time_wait() {
    let mut c = establish_through_write();
    c.close().unwrap();
    c.on_tick(5_000);
    c.on_packet(&seg(1006, 4, false, true, false, 4096), &[], 6_000);
    let (avail, outs) = c.on_packet(&seg(1006, 4, false, true, true, 4096), &[], 7_000);
    assert_eq!(c.state, State::TimeWait);
    assert_eq!(c.recv.nxt, 1007);
    assert_eq!(outs.len(), 1);
    assert_eq!(outs[0].seqn, 4);
    assert_eq!(outs[0].ackn, 1007);
    assert!(c.is_rcv_closed());
    assert!(avail.read);
}

/// Retransmission: with no acknowledgment for over a second (and over
/// 1.5 * SRTT), the tick re-emits the identical segment.
#[test]
fn retransmit_after_timeout() {
    let mut c = establish_through_write();
    // An earlier acknowledgment has brought the smoothed RTT down.
    c.timers.srtt = 100_000;
    c.unacked = VecDeque::from(vec![b'A']);
    let first = c.on_tick(0).expect("first tick sends the byte");
    assert_eq!(first.seqn, 3);
    assert_eq!(first.payload, b"A".to_vec());
    let again = c.on_tick(1_100_000).expect("retransmit after the timer fires");
    assert_eq!(again.seqn, 3);
    assert_eq!(again.payload, b"A".to_vec());
    assert_eq!(again.ackn, first.ackn);
}

/// Bytes queued after the FIN has gone out never reach the wire: the tick
/// still runs the send path, but the retransmit position just past the FIN
/// pins the segment to an empty payload and the send cursor stays put.
#[test]
fn tick_sends_nothing_past_the_fin() {
    let mut c = establish_through_write();
    c.close().unwrap();
    let fin = c.on_tick(5_000).expect("tick should emit the FIN");
    assert!(fin.fin);
    assert_eq!(c.closed_at, Some(3));
    assert_eq!(c.send.nxt, 4);
    // A write after shutdown leaves bytes queued behind the FIN.
    c.unacked.push_back(b'Z');
    let t = c.on_tick(5_500).expect("the send path still answers");
    assert!(t.payload.is_empty());
    assert_eq!(t.seqn, 4);
    assert!(!t.fin && !t.syn && t.ack);
    assert_eq!(c.send.nxt, 4);
    assert_eq!(c.closed_at, Some(3));
}

/// An unacceptable segment changes nothing and is answered with one empty
/// acknowledgment at the current send cursor.
#[test]
fn unacceptable_segment_gets_bare_ack() {
    let mut c = establish_with_hello();
    let nxt_before = c.recv.nxt;
    let una_before = c.send.una;
    // Way outside the 4096-wide window at rcv.nxt == 1006.
    let (_, outs) = c.on_packet(&seg(900_000, 1, false, true, false, 4096), b"x", 3_000);
    assert_eq!(c.recv.nxt, nxt_before);
    assert_eq!(c.send.una, una_before);
    assert!(c.incoming.iter().copied().eq(b"hello".iter().copied()));
    assert_eq!(outs.len(), 1);
    assert_eq!(outs[0].seqn, c.send.nxt);
    assert_eq!(outs[0].ackn, 1006);
    assert!(outs[0].payload.is_empty());
}

/// Overlapping retransmissions deliver each byte once: a segment that
/// overlaps the already-delivered prefix only appends its new suffix.
#[test]
fn overlapping_segments_deduplicate() {
    let mut c = establish_with_hello();
    assert_eq!(c.recv.nxt, 1006);
    let (_, _) = c.on_packet(&seg(1001, 1, false, true, false, 4096), b"helloworld", 3_000);
    assert_eq!(c.recv.nxt, 1011);
    assert_eq!(c.incoming.iter().copied().collect::<Vec<u8>>(), b"helloworld".to_vec());
    // An exact duplicate adds nothing.
    let (_, _) = c.on_packet(&seg(1001, 1, false, true, false, 4096), b"helloworld", 4_000);
    assert_eq!(c.recv.nxt, 1011);
    assert_eq!(c.incoming.iter().copied().collect::<Vec<u8>>(), b"helloworld".to_vec());
}

/// Closing twice is fine while the write side is still open, but closing a
/// connection already past ESTABLISHED's outbound half is an error.
#[test]
fn close_errors_after_time_wait() {
    let mut c = establish_through_write();
    c.close().unwrap();
    c.on_tick(5_000);
    c.on_packet(&seg(1006, 4, false, true, false, 4096), &[], 6_000);
    c.on_packet(&seg(1006, 4, false, true, true, 4096), &[], 7_000);
    assert_eq!(c.state, State::TimeWait);
    assert_eq!(c.close(), Err(thunder::TcpError::NotConnected));
}

/// The smoothed round-trip time is an exponentially weighted moving
/// average: the handshake acknowledgment funds the first update.
#[test]
fn srtt_updates_on_ack() {
    let c = establish();
    // 0.8 * 60s + 0.2 * 1ms, in microseconds.
    assert_eq!(c.timers.srtt, (4 * 60_000_000u64 + 1_000) / 5);
}

#[test]
fn is_synchronized_by_state() {
    assert!(!State::SynRcvd.is_synchronized());
    assert!(State::Estab.is_synchronized());
    assert!(State::FinWait1.is_synchronized());
    assert!(State::FinWait2.is_synchronized());
    assert!(State::TimeWait.is_synchronized());
}
