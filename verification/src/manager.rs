//! The process-wide connection manager: the map from four-tuple to
//! connection, the pending-accept queues per listening port, the
//! termination flag, and the demultiplexing of inbound frames.
//!
//! The surrounding application holds one manager behind a mutex; every
//! method here is a single state transition under that lock. Methods hand
//! back the segments to transmit and which waiters to wake; the caller
//! performs the I/O and the signalling.
use std::collections::VecDeque;
use vstd::prelude::*;

use vstd::slice::slice_subrange;

use crate::codec::{ipv4_parse_of, parse_ipv4, parse_tcp, tcp_parse_of, Ipv4Info, TcpInfo};
use crate::connection::{
    accept_init, availability_of, close_step, frame_matches, on_packet_step, on_tick_step,
    write_step, ConnView, Connection, SegView, Transmit,
};
use crate::tcp::State;
use crate::{Quad, TcpError, SENDQUEUE_SIZE};

verus! {

/// What the manager decided for one inbound segment: the replies to put on
/// the wire, and which condition variables the caller should signal.
pub struct SegOutcome {
    pub transmits: Vec<Transmit>,
    pub wake_read: bool,
    pub wake_pending: bool,
}

/// The result of a user read: bytes, end of stream, or nothing yet (the
/// caller blocks and retries).
pub enum ReadOutcome {
    Data(Vec<u8>),
    Closed,
    WouldBlock,
}

/// Process-wide state: every live connection keyed by its four-tuple, a
/// queue of completed handshakes per listening port, and the termination
/// flag that wakes every blocked caller on shutdown.
pub struct ConnectionManager {
    pub terminate: bool,
    pub connections: Vec<(Quad, Connection)>,
    pub pending: Vec<(u16, VecDeque<Quad>)>,
}

/// The index of the connection entry for `q` from position `i` on, or -1.
pub open spec fn find_quad_from(s: Seq<(Quad, Connection)>, q: Quad, i: int) -> int
    decreases s.len() - i,
{
    if i < 0 || i >= s.len() {
        -1
    } else if s[i].0 == q {
        i
    } else {
        find_quad_from(s, q, i + 1)
    }
}

/// The index of the connection entry for `q`, or -1.
pub open spec fn find_quad(s: Seq<(Quad, Connection)>, q: Quad) -> int {
    find_quad_from(s, q, 0)
}

/// The index of the pending queue for `port` from position `i` on, or -1.
pub open spec fn find_port_from(s: Seq<(u16, VecDeque<Quad>)>, port: u16, i: int) -> int
    decreases s.len() - i,
{
    if i < 0 || i >= s.len() {
        -1
    } else if s[i].0 == port {
        i
    } else {
        find_port_from(s, port, i + 1)
    }
}

/// The index of the pending queue for `port`, or -1.
pub open spec fn find_port(s: Seq<(u16, VecDeque<Quad>)>, port: u16) -> int {
    find_port_from(s, port, 0)
}

/// Two pending tables with the same ports and the same queued quads.
pub open spec fn pend_eq(a: Seq<(u16, VecDeque<Quad>)>, b: Seq<(u16, VecDeque<Quad>)>) -> bool {
    &&& a.len() == b.len()
    &&& forall|j: int|
        0 <= j < a.len() ==> (#[trigger] a[j]).0 == b[j].0 && (#[trigger] a[j]).1@ == b[j].1@
}

/// The four-tuple of an inbound segment: the peer first, us second.
pub open spec fn quad_of(iph: Ipv4Info, h: TcpInfo) -> Quad {
    Quad { src_ip: iph.src, src_port: h.src_port, dst_ip: iph.dst, dst_port: h.dst_port }
}

impl ConnectionManager {
    /// Every connection well formed, no four-tuple and no port listed
    /// twice.
    pub open spec fn wf(self) -> bool {
        &&& forall|i: int|
            0 <= i < self.connections@.len() ==> (#[trigger] self.connections@[i]).1@.wf()
        &&& forall|i: int, j: int|
            0 <= i < j < self.connections@.len() ==> (#[trigger] self.connections@[i]).0 != (
            #[trigger] self.connections@[j]).0
        &&& forall|i: int, j: int|
            0 <= i < j < self.pending@.len() ==> (#[trigger] self.pending@[i]).0 != (
            #[trigger] self.pending@[j]).0
    }

    /// An empty manager: no connections, no listeners, not terminating.
    pub fn new() -> (r: ConnectionManager)
        ensures
            r.wf(),
            !r.terminate,
            r.connections@.len() == 0,
            r.pending@.len() == 0,
    {
        ConnectionManager { terminate: false, connections: Vec::new(), pending: Vec::new() }
    }

    /// The position of the connection entry for `q`, if any.
    fn quad_index(&self, q: Quad) -> (r: Option<usize>)
        ensures
            r is Some ==> 0 <= r.unwrap() < self.connections@.len() && find_quad(
                self.connections@,
                q,
            ) == r.unwrap() as int && self.connections@[r.unwrap() as int].0 == q,
            r is None ==> find_quad(self.connections@, q) == -1,
    {
        let n = self.connections.len();
        let mut i: usize = 0;
        while i < n
            invariant
                i <= n,
                n == self.connections@.len(),
                find_quad(self.connections@, q) == find_quad_from(self.connections@, q, i as int),
            decreases n - i,
        {
            if self.connections[i].0 == q {
                return Some(i);
            }
            i = i + 1;
        }
        None
    }

    /// The position of the pending queue for `port`, if any.
    fn port_index(&self, port: u16) -> (r: Option<usize>)
        ensures
            r is Some ==> 0 <= r.unwrap() < self.pending@.len() && find_port(self.pending@, port)
                == r.unwrap() as int && self.pending@[r.unwrap() as int].0 == port,
            r is None ==> find_port(self.pending@, port) == -1,
    {
        let n = self.pending.len();
        let mut i: usize = 0;
        while i < n
            invariant
                i <= n,
                n == self.pending@.len(),
                find_port(self.pending@, port) == find_port_from(self.pending@, port, i as int),
            decreases n - i,
        {
            if self.pending[i].0 == port {
                return Some(i);
            }
            i = i + 1;
        }
        None
    }

    /// Whether `port` has a pending-accept queue (a listener).
    pub fn is_bound(&self, port: u16) -> (r: bool)
        ensures
            r == (find_port(self.pending@, port) >= 0),
    {
        self.port_index(port).is_some()
    }

    /// Open `port` for listening: give it an empty pending-accept queue.
    /// Binding a port that already has one fails with `AddrInUse`.
    pub fn bind(&mut self, port: u16) -> (r: Result<(), TcpError>)
        requires
            old(self).wf(),
        ensures
            final(self).wf(),
            final(self).terminate == old(self).terminate,
            final(self).connections@ == old(self).connections@,
            find_port(old(self).pending@, port) >= 0 ==> {
                &&& r == Result::<(), TcpError>::Err(TcpError::AddrInUse)
                &&& final(self).pending@ == old(self).pending@
            },
            find_port(old(self).pending@, port) < 0 ==> {
                &&& r == Result::<(), TcpError>::Ok(())
                &&& final(self).pending@.len() == old(self).pending@.len() + 1
                &&& final(self).pending@.last().0 == port
                &&& final(self).pending@.last().1@.len() == 0
                &&& forall|i: int|
                    0 <= i < old(self).pending@.len() ==> final(self).pending@[i] == old(
                        self,
                    ).pending@[i]
            },
    {
        if self.port_index(port).is_some() {
            return Err(TcpError::AddrInUse);
        }
        proof {
            lemma_find_port_absent(self.pending@, port);
        }
        self.pending.push((port, VecDeque::new()));
        Ok(())
    }

    /// Close a listening port, dropping its pending queue. Reports whether
    /// the port was bound.
    pub fn unbind(&mut self, port: u16) -> (r: bool)
        requires
            old(self).wf(),
        ensures
            final(self).wf(),
            final(self).terminate == old(self).terminate,
            final(self).connections@ == old(self).connections@,
            ({
                let i = find_port(old(self).pending@, port);
                if i >= 0 {
                    r && final(self).pending@ == old(self).pending@.remove(i)
                } else {
                    !r && final(self).pending@ == old(self).pending@
                }
            }),
    {
        match self.port_index(port) {
            Some(i) => {
                self.pending.remove(i);
                proof {
                    assert forall|a: int, b: int|
                        0 <= a < b < self.pending@.len() implies (#[trigger] self.pending@[a]).0
                        != (#[trigger] self.pending@[b]).0 by {
                        let p0 = old(self).pending@;
                        if a < i {
                            if b < i {
                                assert(self.pending@[a] == p0[a] && self.pending@[b] == p0[b]);
                            } else {
                                assert(self.pending@[a] == p0[a] && self.pending@[b] == p0[b + 1]);
                            }
                        } else {
                            assert(self.pending@[a] == p0[a + 1] && self.pending@[b] == p0[b + 1]);
                        }
                    }
                }
                true
            },
            None => false,
        }
    }

    /// Pop the next completed handshake for `port`, in arrival order.
    pub fn try_accept(&mut self, port: u16) -> (r: Option<Quad>)
        requires
            old(self).wf(),
        ensures
            final(self).wf(),
            final(self).terminate == old(self).terminate,
            final(self).connections@ == old(self).connections@,
            ({
                let i = find_port(old(self).pending@, port);
                if i >= 0 && old(self).pending@[i].1@.len() > 0 {
                    &&& r == Some(old(self).pending@[i].1@[0])
                    &&& final(self).pending@.len() == old(self).pending@.len()
                    &&& (final(self).pending@[i]).0 == port
                    &&& (final(self).pending@[i]).1@ == old(self).pending@[i].1@.drop_first()
                    &&& ({
                        let p1 = final(self).pending@;
                        let p0 = old(self).pending@;
                        forall|j: int|
                            0 <= j < p0.len() && j != i ==> ((#[trigger] p1[j]).0 == p0[j].0 && p1[
                                j
                            ].1@ == p0[j].1@)
                    })
                } else {
                    r is None && pend_eq(final(self).pending@, old(self).pending@)
                }
            }),
    {
        match self.port_index(port) {
            Some(i) => {
                let ghost p0 = self.pending@;
                let mut entry = self.pending.remove(i);
                let q = entry.1.pop_front();
                self.pending.insert(i, entry);
                proof {
                    assert(self.pending@.len() == p0.len());
                    assert(forall|j: int|
                        0 <= j < p0.len() && j != i ==> (#[trigger] self.pending@[j]) == p0[j]);
                    assert(self.pending@[i as int].0 == port);
                    assert forall|a: int, b: int|
                        0 <= a < b < self.pending@.len() implies (#[trigger] self.pending@[a]).0
                        != (#[trigger] self.pending@[b]).0 by {
                        assert(self.pending@[a].0 == p0[a].0);
                        assert(self.pending@[b].0 == p0[b].0);
                    }
                }
                q
            },
            None => None,
        }
    }
}

/// The manager's transition for one inbound, already parsed segment. A hit
/// on a known four-tuple steps that connection through the packet handler.
/// A miss creates a connection only for a SYN addressed to a listening
/// port, queueing the quad for `accept`. Anything else is dropped.
pub open spec fn on_segment_rel(
    m0: ConnectionManager,
    m1: ConnectionManager,
    out: SegOutcome,
    iph: Ipv4Info,
    h: TcpInfo,
    data: Seq<u8>,
    now: u64,
) -> bool {
    let q = quad_of(iph, h);
    let i = find_quad(m0.connections@, q);
    let p = find_port(m0.pending@, h.dst_port);
    if i >= 0 {
        let st = on_packet_step(m0.connections@[i].1@, h, data, now);
        &&& m1.connections@.len() == m0.connections@.len()
        &&& (m1.connections@[i]).0 == q
        &&& (m1.connections@[i]).1@ == st.0
        &&& forall|j: int|
            0 <= j < m0.connections@.len() && j != i ==> m1.connections@[j] == m0.connections@[j]
        &&& pend_eq(m1.pending@, m0.pending@)
        &&& out.transmits@.len() == st.1.len()
        &&& forall|k: int| 0 <= k < st.1.len() ==> (#[trigger] out.transmits@[k])@ == st.1[k]
        &&& forall|k: int|
            0 <= k < st.1.len() ==> frame_matches(
                m0.connections@[i].1@.ip,
                m0.connections@[i].1@.tcp,
                #[trigger] out.transmits@[k],
            )
        &&& out.wake_read == availability_of(st.0).read
        &&& !out.wake_pending
    } else if p >= 0 && h.syn && !h.ack {
        let wr = write_step(accept_init(iph, h), 0, 0, now);
        &&& m1.connections@.len() == m0.connections@.len() + 1
        &&& m1.connections@.last().0 == q
        &&& m1.connections@.last().1@ == wr.0
        &&& forall|j: int|
            0 <= j < m0.connections@.len() ==> m1.connections@[j] == m0.connections@[j]
        &&& m1.pending@.len() == m0.pending@.len()
        &&& (m1.pending@[p]).0 == h.dst_port
        &&& (m1.pending@[p]).1@ == m0.pending@[p].1@.push(q)
        &&& forall|j: int|
            0 <= j < m0.pending@.len() && j != p ==> ((#[trigger] m1.pending@[j]).0
                == m0.pending@[j].0 && m1.pending@[j].1@ == m0.pending@[j].1@)
        &&& out.transmits@.len() == 1
        &&& out.transmits@[0]@ == wr.1
        &&& frame_matches(accept_init(iph, h).ip, accept_init(iph, h).tcp, out.transmits@[0])
        &&& !out.wake_read
        &&& out.wake_pending
    } else {
        &&& m1.connections@ == m0.connections@
        &&& pend_eq(m1.pending@, m0.pending@)
        &&& out.transmits@.len() == 0
        &&& !out.wake_read
        &&& !out.wake_pending
    }
}

impl ConnectionManager {
    /// Dispatch one parsed segment: step the owning connection, or accept a
    /// new one on a listening port.
    pub fn on_segment(&mut self, iph: &Ipv4Info, tcph: &TcpInfo, data: &[u8], now: u64) -> (r:
        SegOutcome)
        requires
            old(self).wf(),
            data@.len() <= 0xFFFF,
        ensures
            final(self).wf(),
            final(self).terminate == old(self).terminate,
            on_segment_rel(*old(self), *final(self), r, *iph, *tcph, data@, now),
    {
        let quad = Quad {
            src_ip: iph.src,
            src_port: tcph.src_port,
            dst_ip: iph.dst,
            dst_port: tcph.dst_port,
        };
        let ghost m0 = *self;
        match self.quad_index(quad) {
            Some(i) => {
                let pair = self.connections.remove(i);
                let mut c = pair.1;
                let (avail, transmits) = c.on_packet(tcph, data, now);
                self.connections.insert(i, (pair.0, c));
                proof {
                    assert(self.connections@.len() == m0.connections@.len());
                    assert(forall|j: int|
                        0 <= j < m0.connections@.len() && j != i ==> (
                        #[trigger] self.connections@[j]) == m0.connections@[j]);
                    assert forall|a: int, b: int|
                        0 <= a < b < self.connections@.len() implies (
                        #[trigger] self.connections@[a]).0 != (#[trigger] self.connections@[b]).0 by {
                        assert(self.connections@[a].0 == m0.connections@[a].0);
                        assert(self.connections@[b].0 == m0.connections@[b].0);
                    }
                }
                SegOutcome { transmits, wake_read: avail.read, wake_pending: false }
            },
            None => {
                match self.port_index(tcph.dst_port) {
                    Some(p) => {
                        match Connection::accept(iph, tcph, now) {
                            Some((c, t)) => {
                                self.connections.push((quad, c));
                                let mut entry = self.pending.remove(p);
                                entry.1.push_back(quad);
                                self.pending.insert(p, entry);
                                let mut transmits: Vec<Transmit> = Vec::new();
                                transmits.push(t);
                                proof {
                                    assert(self.pending@.len() == m0.pending@.len());
                                    assert(forall|j: int|
                                        0 <= j < m0.pending@.len() && j != p ==> (
                                        #[trigger] self.pending@[j]) == m0.pending@[j]);
                                    assert(self.pending@[p as int].0 == tcph.dst_port);
                                    assert forall|a: int, b: int|
                                        0 <= a < b < self.pending@.len() implies (
                                        #[trigger] self.pending@[a]).0 != (
                                        #[trigger] self.pending@[b]).0 by {
                                        assert(self.pending@[a].0 == m0.pending@[a].0);
                                        assert(self.pending@[b].0 == m0.pending@[b].0);
                                    }
                                    lemma_find_quad_absent(m0.connections@, quad);
                                    assert forall|a: int, b: int|
                                        0 <= a < b < self.connections@.len() implies (
                                        #[trigger] self.connections@[a]).0 != (
                                        #[trigger] self.connections@[b]).0 by {
                                        if b == m0.connections@.len() {
                                            assert(self.connections@[a] == m0.connections@[a]);
                                        }
                                    }
                                }
                                SegOutcome { transmits, wake_read: false, wake_pending: true }
                            },
                            None => {
                                SegOutcome {
                                    transmits: Vec::new(),
                                    wake_read: false,
                                    wake_pending: false,
                                }
                            },
                        }
                    },
                    None => {
                        SegOutcome { transmits: Vec::new(), wake_read: false, wake_pending: false }
                    },
                }
            },
        }
    }
}

/// A manager and outcome untouched by a frame that was dropped (not IPv4,
/// not TCP, or unparseable).
pub open spec fn dropped_frame(m0: ConnectionManager, m1: ConnectionManager, out: SegOutcome) -> bool {
    &&& m1.connections@ == m0.connections@
    &&& pend_eq(m1.pending@, m0.pending@)
    &&& out.transmits@.len() == 0
    &&& !out.wake_read
    &&& !out.wake_pending
}

/// What one raw frame does to the manager: parsed as IPv4 carrying TCP, it
/// is dispatched as a segment whose payload is everything after the two
/// headers; anything else is dropped silently.
pub open spec fn frame_effect(
    m0: ConnectionManager,
    m1: ConnectionManager,
    out: SegOutcome,
    buf: Seq<u8>,
    now: u64,
) -> bool {
    let ipo = ipv4_parse_of(buf);
    if ipo is Some && ipo.unwrap().protocol == 6 && ipo.unwrap().header_len <= buf.len() {
        let ih = ipo.unwrap().header_len as int;
        let tpo = tcp_parse_of(buf.subrange(ih, buf.len() as int));
        if tpo is Some && ih + tpo.unwrap().header_len <= buf.len() {
            let data = buf.subrange(ih + tpo.unwrap().header_len, buf.len() as int);
            on_segment_rel(m0, m1, out, ipo.unwrap(), tpo.unwrap(), data, now)
        } else {
            dropped_frame(m0, m1, out)
        }
    } else {
        dropped_frame(m0, m1, out)
    }
}

/// The segments emitted when every connection from index `i` on takes one
/// tick, in table order.
pub open spec fn tick_outs_from(s: Seq<(Quad, Connection)>, now: u64, i: int) -> Seq<SegView>
    decreases s.len() - i,
{
    if i < 0 || i >= s.len() {
        Seq::empty()
    } else {
        (match on_tick_step(s[i].1@, now).1 {
            Option::Some(sv) => seq![sv],
            Option::None => Seq::<SegView>::empty(),
        }) + tick_outs_from(s, now, i + 1)
    }
}

impl ConnectionManager {
    /// Read one raw frame from the wire into the manager: parse, dispatch,
    /// and hand back the replies.
    pub fn handle_frame(&mut self, buf: &[u8], now: u64) -> (r: SegOutcome)
        requires
            old(self).wf(),
            buf@.len() <= 0xFFFF,
        ensures
            final(self).wf(),
            final(self).terminate == old(self).terminate,
            frame_effect(*old(self), *final(self), r, buf@, now),
    {
        match parse_ipv4(buf) {
            Some(iph) => {
                if iph.protocol != 6 {
                    // Not TCP: drop the frame silently.
                    return SegOutcome { transmits: Vec::new(), wake_read: false, wake_pending: false };
                }
                let rest = slice_subrange(buf, iph.header_len, buf.len());
                match parse_tcp(rest) {
                    Some(tcph) => {
                        let data = slice_subrange(buf, iph.header_len + tcph.header_len, buf.len());
                        self.on_segment(&iph, &tcph, data, now)
                    },
                    None => SegOutcome {
                        transmits: Vec::new(),
                        wake_read: false,
                        wake_pending: false,
                    },
                }
            },
            None => SegOutcome { transmits: Vec::new(), wake_read: false, wake_pending: false },
        }
    }

    /// One periodic tick across every connection: retransmissions and new
    /// sends, in table order.
    pub fn on_tick_all(&mut self, now: u64) -> (r: Vec<Transmit>)
        requires
            old(self).wf(),
        ensures
            final(self).wf(),
            final(self).terminate == old(self).terminate,
            final(self).pending@ == old(self).pending@,
            final(self).connections@.len() == old(self).connections@.len(),
            ({
                let c1 = final(self).connections@;
                let c0 = old(self).connections@;
                forall|i: int|
                    0 <= i < c0.len() ==> ((#[trigger] c1[i]).0 == c0[i].0 && c1[i].1@
                        == on_tick_step(c0[i].1@, now).0)
            }),
            r@.len() == tick_outs_from(old(self).connections@, now, 0).len(),
            forall|k: int|
                0 <= k < r@.len() ==> (#[trigger] r@[k])@ == tick_outs_from(
                    old(self).connections@,
                    now,
                    0,
                )[k],
            forall|k: int|
                0 <= k < r@.len() ==> exists|j: int|
                    0 <= j < old(self).connections@.len() && frame_matches(
                        old(self).connections@[j].1@.ip,
                        old(self).connections@[j].1@.tcp,
                        #[trigger] r@[k],
                    ),
    {
        let ghost cs0 = self.connections@;
        let ghost full = tick_outs_from(cs0, now, 0);
        let n = self.connections.len();
        let mut outs: Vec<Transmit> = Vec::new();
        let mut i: usize = 0;
        while i < n
            invariant
                i <= n,
                n == self.connections@.len(),
                n == cs0.len(),
                cs0 == old(self).connections@,
                full == tick_outs_from(cs0, now, 0),
                self.pending == old(self).pending,
                self.terminate == old(self).terminate,
                old(self).wf(),
                forall|j: int| i <= j < n ==> (#[trigger] self.connections@[j]) == cs0[j],
                forall|j: int|
                    0 <= j < i ==> ((#[trigger] self.connections@[j]).0 == cs0[j].0 && (
                    self.connections@[j]).1@ == on_tick_step(cs0[j].1@, now).0 && (
                    self.connections@[j]).1@.wf()),
                full == outs@.map_values(|t: Transmit| t@) + tick_outs_from(cs0, now, i as int),
                forall|k: int|
                    0 <= k < outs@.len() ==> exists|j: int|
                        0 <= j < cs0.len() && frame_matches(
                            cs0[j].1@.ip,
                            cs0[j].1@.tcp,
                            #[trigger] outs@[k],
                        ),
            decreases n - i,
        {
            let pair = self.connections.remove(i);
            let mut c = pair.1;
            let t = c.on_tick(now);
            self.connections.insert(i, (pair.0, c));
            match t {
                Some(tr) => {
                    proof {
                        assert(frame_matches(cs0[i as int].1@.ip, cs0[
                            i as int
                        ].1@.tcp, tr));
                    }
                    outs.push(tr);
                    proof {
                        assert(outs@.map_values(|t2: Transmit| t2@) =~= outs@.drop_last()
                            .map_values(|t2: Transmit| t2@).push(tr@));
                        assert(outs@.drop_last().map_values(|t2: Transmit| t2@) + (seq![tr@]
                            + tick_outs_from(cs0, now, i + 1)) =~= outs@.map_values(
                            |t2: Transmit| t2@,
                        ) + tick_outs_from(cs0, now, i + 1));
                    }
                },
                None => {},
            }
            i = i + 1;
        }
        proof {
            assert(full =~= outs@.map_values(|t: Transmit| t@));
            assert forall|k: int| 0 <= k < outs@.len() implies (#[trigger] outs@[k])@ == full[k] by {
                assert(outs@.map_values(|t: Transmit| t@)[k] == outs@[k]@);
            }
            assert forall|a: int, b: int|
                0 <= a < b < self.connections@.len() implies (#[trigger] self.connections@[a]).0
                != (#[trigger] self.connections@[b]).0 by {
                assert(self.connections@[a].0 == cs0[a].0);
                assert(self.connections@[b].0 == cs0[b].0);
            }
        }
        outs
    }
}

/// Append `data[..n]` to a queue.
fn append_prefix(q: &mut VecDeque<u8>, data: &[u8], n: usize)
    requires
        n <= data@.len(),
    ensures
        final(q)@ == old(q)@ + data@.subrange(0, n as int),
{
    let mut i: usize = 0;
    while i < n
        invariant
            i <= n,
            n <= data@.len(),
            q@ == old(q)@ + data@.subrange(0, i as int),
        decreases n - i,
    {
        q.push_back(data[i]);
        proof {
            assert(q@ =~= old(q)@ + data@.subrange(0, i + 1));
        }
        i = i + 1;
    }
}

/// Take the first `n` bytes off a queue.
fn take_front(q: &mut VecDeque<u8>, n: usize) -> (r: Vec<u8>)
    requires
        n <= old(q)@.len(),
    ensures
        r@ == old(q)@.subrange(0, n as int),
        final(q)@ == old(q)@.subrange(n as int, old(q)@.len() as int),
{
    let mut r: Vec<u8> = Vec::new();
    let mut i: usize = 0;
    while i < n
        invariant
            i <= n,
            n <= old(q)@.len(),
            r@ == old(q)@.subrange(0, i as int),
            q@ == old(q)@.subrange(i as int, old(q)@.len() as int),
        decreases n - i,
    {
        match q.pop_front() {
            Some(b) => {
                r.push(b);
            },
            None => {},
        }
        proof {
            assert(r@ =~= old(q)@.subrange(0, i + 1));
            assert(q@ =~= old(q)@.subrange(i + 1, old(q)@.len() as int));
        }
        i = i + 1;
    }
    r
}

impl ConnectionManager {
    /// Queue bytes for sending on a connection: up to the send-queue cap,
    /// returning how many were taken. An unknown quad is reported as
    /// `ConnectionReset`.
    pub fn write_bytes(&mut self, quad: Quad, data: &[u8]) -> (r: Result<usize, TcpError>)
        requires
            old(self).wf(),
        ensures
            final(self).wf(),
            final(self).terminate == old(self).terminate,
            pend_eq(final(self).pending@, old(self).pending@),
            ({
                let i = find_quad(old(self).connections@, quad);
                if i < 0 {
                    &&& r == Result::<usize, TcpError>::Err(TcpError::ConnectionReset)
                    &&& final(self).connections@ == old(self).connections@
                } else {
                    let c = old(self).connections@[i].1@;
                    let room = SENDQUEUE_SIZE - c.unacked.len();
                    let n = if data@.len() < room {
                        data@.len() as int
                    } else {
                        room as int
                    };
                    &&& r is Ok && r.unwrap() == n
                    &&& final(self).connections@.len() == old(self).connections@.len()
                    &&& (final(self).connections@[i]).0 == quad
                    &&& (final(self).connections@[i]).1@ == (ConnView {
                        unacked: c.unacked + data@.subrange(0, n),
                        ..c
                    })
                    &&& forall|j: int|
                        0 <= j < old(self).connections@.len() && j != i ==> (#[trigger] final(self).connections@[j]) == old(self).connections@[j]
                }
            }),
    {
        match self.quad_index(quad) {
            None => Err(TcpError::ConnectionReset),
            Some(i) => {
                let ghost cs0 = self.connections@;
                let pair = self.connections.remove(i);
                let mut c = pair.1;
                let room = SENDQUEUE_SIZE - c.unacked.len();
                let n = if data.len() < room {
                    data.len()
                } else {
                    room
                };
                append_prefix(&mut c.unacked, data, n);
                self.connections.insert(i, (pair.0, c));
                proof {
                    assert forall|a: int, b: int|
                        0 <= a < b < self.connections@.len() implies (
                        #[trigger] self.connections@[a]).0 != (#[trigger] self.connections@[b]).0 by {
                        assert(self.connections@[a].0 == cs0[a].0);
                        assert(self.connections@[b].0 == cs0[b].0);
                    }
                }
                Ok(n)
            },
        }
    }

    /// Read up to `max` bytes from a connection, in order: bytes if any are
    /// queued, end of stream once the read side has closed, otherwise
    /// "nothing yet" (the caller blocks and retries). An unknown quad is
    /// reported as `ConnectionReset`.
    pub fn read_bytes(&mut self, quad: Quad, max: usize) -> (r: Result<ReadOutcome, TcpError>)
        requires
            old(self).wf(),
        ensures
            final(self).wf(),
            final(self).terminate == old(self).terminate,
            pend_eq(final(self).pending@, old(self).pending@),
            ({
                let i = find_quad(old(self).connections@, quad);
                if i < 0 {
                    &&& r == Result::<ReadOutcome, TcpError>::Err(TcpError::ConnectionReset)
                    &&& final(self).connections@ == old(self).connections@
                } else {
                    let c = old(self).connections@[i].1@;
                    if c.incoming.len() == 0 {
                        &&& (c.state == State::TimeWait ==> r matches Result::Ok(
                            ReadOutcome::Closed,
                        ))
                        &&& (c.state != State::TimeWait ==> r matches Result::Ok(
                            ReadOutcome::WouldBlock,
                        ))
                        &&& final(self).connections@ == old(self).connections@
                    } else {
                        let n = if max < c.incoming.len() {
                            max as int
                        } else {
                            c.incoming.len() as int
                        };
                        &&& r matches Result::Ok(ReadOutcome::Data(v)) && v@ == c.incoming.subrange(
                            0,
                            n,
                        )
                        &&& final(self).connections@.len() == old(self).connections@.len()
                        &&& (final(self).connections@[i]).0 == quad
                        &&& (final(self).connections@[i]).1@ == (ConnView {
                            incoming: c.incoming.subrange(n, c.incoming.len() as int),
                            ..c
                        })
                        &&& forall|j: int|
                            0 <= j < old(self).connections@.len() && j != i ==> (#[trigger] final(self).connections@[j]) == old(self).connections@[j]
                    }
                }
            }),
    {
        match self.quad_index(quad) {
            None => Err(TcpError::ConnectionReset),
            Some(i) => {
                let ghost cs0 = self.connections@;
                let pair = self.connections.remove(i);
                let mut c = pair.1;
                let r = if c.incoming.len() == 0 {
                    if c.is_rcv_closed() {
                        Ok(ReadOutcome::Closed)
                    } else {
                        Ok(ReadOutcome::WouldBlock)
                    }
                } else {
                    let n = if max < c.incoming.len() {
                        max
                    } else {
                        c.incoming.len()
                    };
                    let v = take_front(&mut c.incoming, n);
                    Ok(ReadOutcome::Data(v))
                };
                self.connections.insert(i, (pair.0, c));
                proof {
                    assert forall|a: int, b: int|
                        0 <= a < b < self.connections@.len() implies (
                        #[trigger] self.connections@[a]).0 != (#[trigger] self.connections@[b]).0 by {
                        assert(self.connections@[a].0 == cs0[a].0);
                        assert(self.connections@[b].0 == cs0[b].0);
                    }
                }
                r
            },
        }
    }

    /// Whether everything the user wrote has been acknowledged.
    pub fn flush_done(&self, quad: Quad) -> (r: Result<bool, TcpError>)
        requires
            self.wf(),
        ensures
            ({
                let i = find_quad(self.connections@, quad);
                if i < 0 {
                    r == Result::<bool, TcpError>::Err(TcpError::ConnectionReset)
                } else {
                    r is Ok && r.unwrap() == (self.connections@[i].1@.unacked.len() == 0)
                }
            }),
    {
        match self.quad_index(quad) {
            None => Err(TcpError::ConnectionReset),
            Some(i) => Ok(self.connections[i].1.unacked.len() == 0),
        }
    }

    /// The user shuts down the write side of a connection; the FIN goes
    /// out with a later tick. An unknown quad is reported as
    /// `ConnectionReset`.
    pub fn shutdown_write(&mut self, quad: Quad) -> (r: Result<(), TcpError>)
        requires
            old(self).wf(),
        ensures
            final(self).wf(),
            final(self).terminate == old(self).terminate,
            pend_eq(final(self).pending@, old(self).pending@),
            ({
                let i = find_quad(old(self).connections@, quad);
                if i < 0 {
                    &&& r == Result::<(), TcpError>::Err(TcpError::ConnectionReset)
                    &&& final(self).connections@ == old(self).connections@
                } else {
                    let c = old(self).connections@[i].1@;
                    &&& r == close_step(c).1
                    &&& final(self).connections@.len() == old(self).connections@.len()
                    &&& (final(self).connections@[i]).0 == quad
                    &&& (final(self).connections@[i]).1@ == close_step(c).0
                    &&& forall|j: int|
                        0 <= j < old(self).connections@.len() && j != i ==> (#[trigger] final(self).connections@[j]) == old(self).connections@[j]
                }
            }),
    {
        match self.quad_index(quad) {
            None => Err(TcpError::ConnectionReset),
            Some(i) => {
                let ghost cs0 = self.connections@;
                let pair = self.connections.remove(i);
                let mut c = pair.1;
                let r = c.close();
                self.connections.insert(i, (pair.0, c));
                proof {
                    assert forall|a: int, b: int|
                        0 <= a < b < self.connections@.len() implies (
                        #[trigger] self.connections@[a]).0 != (#[trigger] self.connections@[b]).0 by {
                        assert(self.connections@[a].0 == cs0[a].0);
                        assert(self.connections@[b].0 == cs0[b].0);
                    }
                }
                r
            },
        }
    }
}

/// If a scan found no entry for the quad, the new entry appended by an
/// accept keeps the four-tuples distinct.
proof fn lemma_find_quad_absent(s: Seq<(Quad, Connection)>, q: Quad)
    requires
        find_quad(s, q) < 0,
    ensures
        forall|i: int| 0 <= i < s.len() ==> (#[trigger] s[i]).0 != q,
{
    lemma_find_quad_from_absent(s, q, 0);
}

proof fn lemma_find_quad_from_absent(s: Seq<(Quad, Connection)>, q: Quad, i: int)
    requires
        0 <= i <= s.len(),
        find_quad_from(s, q, i) < 0,
    ensures
        forall|j: int| i <= j < s.len() ==> (#[trigger] s[j]).0 != q,
    decreases s.len() - i,
{
    if i < s.len() {
        lemma_find_quad_from_absent(s, q, i + 1);
    }
}

/// If a scan found no entry for the port, pushing a new entry keeps the
/// ports distinct.
proof fn lemma_find_port_absent(s: Seq<(u16, VecDeque<Quad>)>, port: u16)
    requires
        find_port(s, port) < 0,
    ensures
        forall|i: int| 0 <= i < s.len() ==> (#[trigger] s[i]).0 != port,
{
    lemma_find_port_from_absent(s, port, 0);
}

proof fn lemma_find_port_from_absent(s: Seq<(u16, VecDeque<Quad>)>, port: u16, i: int)
    requires
        0 <= i <= s.len(),
        find_port_from(s, port, i) < 0,
    ensures
        forall|j: int| i <= j < s.len() ==> (#[trigger] s[j]).0 != port,
    decreases s.len() - i,
{
    if i < s.len() {
        lemma_find_port_from_absent(s, port, i + 1);
    }
}

} // verus!
