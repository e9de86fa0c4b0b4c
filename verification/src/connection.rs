//! The per-connection TCP engine: segment acceptability, the state machine,
//! the transmission routine, retransmission bookkeeping and the periodic
//! tick.
//!
//! Every step of the engine is described by a spec-level transition function
//! over [`ConnView`], the mathematical model of a connection; the executable
//! methods are proved to follow those transitions exactly. Frame bytes for
//! each emitted segment come from the codec; the engine itself never touches
//! the wire format.
use std::collections::VecDeque;
use vstd::prelude::*;

use crate::codec::{datagram_of, encode_frame, Ipv4Info, TcpInfo};
use crate::tcp::{Available, RecvSequenceSpace, SendSequenceSpace, State, Timers};
use crate::wrap_arith::{
    between, is_between_wrapped, lemma_between_dist, lemma_dist_between, lemma_w_sub_chain,
    lemma_w_sub_of_add, lemma_w_sub_pred, lemma_wlt_iff, w_add, w_sub, wlt, wrapping_lt,
};
use crate::{TcpError, SENDQUEUE_SIZE};

verus! {

/// Pre-built IPv4 header fields reused for every segment of a connection.
#[derive(Debug, Clone, Copy, PartialEq, Eq, Structural)]
pub struct Ipv4Meta {
    pub src: u32,
    pub dst: u32,
    pub ttl: u8,
}

/// Pre-built TCP header fields reused for every segment of a connection.
/// `syn` and `fin` are one-shot: the transmission routine clears them after
/// emitting a segment that carries them.
#[derive(Debug, Clone, Copy, PartialEq, Eq, Structural)]
pub struct TcpMeta {
    pub src_port: u16,
    pub dst_port: u16,
    pub wnd: u16,
    pub syn: bool,
    pub fin: bool,
    pub ack: bool,
}

/// One segment handed to the caller for transmission on the TUN device:
/// the header fields and payload the engine chose, plus the encoded frame.
pub struct Transmit {
    pub seqn: u32,
    pub ackn: u32,
    pub ack: bool,
    pub syn: bool,
    pub fin: bool,
    pub wnd: u16,
    pub payload: Vec<u8>,
    pub frame: Vec<u8>,
}

/// The model of an emitted segment: [`Transmit`] without the frame bytes.
#[verifier::ext_equal]
pub ghost struct SegView {
    pub seqn: u32,
    pub ackn: u32,
    pub ack: bool,
    pub syn: bool,
    pub fin: bool,
    pub wnd: u16,
    pub payload: Seq<u8>,
}

impl View for Transmit {
    type V = SegView;

    open spec fn view(&self) -> SegView {
        SegView {
            seqn: self.seqn,
            ackn: self.ackn,
            ack: self.ack,
            syn: self.syn,
            fin: self.fin,
            wnd: self.wnd,
            payload: self.payload@,
        }
    }
}

/// A per-connection TCP endpoint created by a passive open.
pub struct Connection {
    pub state: State,
    pub send: SendSequenceSpace,
    pub recv: RecvSequenceSpace,
    pub ip: Ipv4Meta,
    pub tcp: TcpMeta,
    pub timers: Timers,
    /// Bytes delivered by the peer, in order, not yet read by the user.
    pub incoming: VecDeque<u8>,
    /// Bytes accepted from the user but not yet acknowledged by the peer.
    pub unacked: VecDeque<u8>,
    /// The user has requested shutdown of the write side.
    pub closed: bool,
    /// The sequence number our FIN occupies, once one has been emitted.
    pub closed_at: Option<u32>,
}

/// The mathematical model of a connection.
#[verifier::ext_equal]
pub ghost struct ConnView {
    pub state: State,
    pub send: SendSequenceSpace,
    pub recv: RecvSequenceSpace,
    pub ip: Ipv4Meta,
    pub tcp: TcpMeta,
    pub incoming: Seq<u8>,
    pub unacked: Seq<u8>,
    pub send_times: Seq<(u32, u64)>,
    pub srtt: u64,
    pub closed: bool,
    pub closed_at: Option<u32>,
}

impl View for Connection {
    type V = ConnView;

    open spec fn view(&self) -> ConnView {
        ConnView {
            state: self.state,
            send: self.send,
            recv: self.recv,
            ip: self.ip,
            tcp: self.tcp,
            incoming: self.incoming@,
            unacked: self.unacked@,
            send_times: self.timers.send_times@,
            srtt: self.timers.srtt,
            closed: self.closed,
            closed_at: self.closed_at,
        }
    }
}

/// Where user data starts in sequence space: while the SYN (which occupies
/// one sequence number) is still unacknowledged, one past `snd.una`.
pub open spec fn data_start(send: SendSequenceSpace) -> u32 {
    if send.una == send.iss {
        w_add(send.una, 1)
    } else {
        send.una
    }
}

impl ConnView {
    /// The part of well-formedness that holds between engine steps and also
    /// at the instant the transmission routine is entered (when a one-shot
    /// SYN or FIN flag may still be set on the template).
    pub open spec fn wf_core(self) -> bool {
        &&& self.unacked.len() <= SENDQUEUE_SIZE
        &&& w_sub(self.send.nxt, self.send.una) <= self.unacked.len() + 2
        &&& self.closed_at is None ==> w_sub(self.send.nxt, self.send.una) <= self.unacked.len()
            + 1
        &&& st_bounded(self.send_times, self.send.una, self.send.nxt)
        &&& st_distinct(self.send_times)
        &&& self.tcp.ack
    }

    /// Well-formedness of a connection at rest. The retransmission table
    /// holds no sequence number below `snd.una` and no duplicates; the
    /// bytes in `unacked` cover every sequence number still in flight.
    pub open spec fn wf(self) -> bool {
        &&& self.wf_core()
        &&& !self.tcp.syn
        &&& !self.tcp.fin
    }
}

/// Smallest of three lengths.
pub open spec fn min3(a: int, b: int, c: int) -> int {
    if a <= b && a <= c {
        a
    } else if b <= c {
        b
    } else {
        c
    }
}

/// The sequence-space span a transmission adds past `snd.una` regardless
/// of its payload: the segment's start offset plus one per one-shot flag
/// still set. The payload itself never reaches past the queued bytes (the
/// routine clamps it), so keeping this span within the queue plus the
/// FIN's slot keeps `snd.nxt` tied to `unacked`.
pub open spec fn write_budget(c: ConnView, seq: u32) -> int {
    w_sub(seq, c.send.una) + (if c.tcp.syn {
        1int
    } else {
        0
    }) + (if c.tcp.fin {
        1int
    } else {
        0
    })
}

/// The payload offset and byte budget the transmission routine uses for a
/// segment starting at `seq`: normally `seq - snd.una` into `unacked`, but
/// pinned to an empty payload when retransmitting from just past our FIN.
pub open spec fn write_offset(c: ConnView, seq: u32, limit: nat) -> (nat, nat) {
    if c.closed_at is Some && seq == w_add(c.closed_at.unwrap(), 1) {
        (0nat, 0nat)
    } else {
        (w_sub(seq, c.send.una) as nat, limit)
    }
}

/// The payload carried by a segment starting at `seq` with budget `limit`:
/// up to 1460 bytes (the TUN MTU minus both headers) out of `unacked`,
/// starting at the segment's offset. An offset beyond the queue yields an
/// empty payload.
pub open spec fn write_payload(c: ConnView, seq: u32, limit: nat) -> Seq<u8> {
    let off = write_offset(c, seq, limit).0;
    let lim = write_offset(c, seq, limit).1;
    if off > c.unacked.len() {
        Seq::empty()
    } else {
        c.unacked.subrange(off as int, off + min3(lim as int, c.unacked.len() - off, 1460))
    }
}

/// Whether the retransmission table holds `k`.
pub open spec fn st_has_key(s: Seq<(u32, u64)>, k: u32) -> bool {
    exists|i: int| 0 <= i < s.len() && s[i].0 == k
}

/// No sequence number appears twice in the retransmission table.
pub open spec fn st_distinct(s: Seq<(u32, u64)>) -> bool {
    forall|i: int, j: int| 0 <= i < j < s.len() ==> (#[trigger] s[i]).0 != (#[trigger] s[j]).0
}

/// Every recorded sequence number lies between `una` and `nxt` in wrap
/// order: nothing already acknowledged stays in the table.
pub open spec fn st_bounded(s: Seq<(u32, u64)>, una: u32, nxt: u32) -> bool {
    forall|i: int| 0 <= i < s.len() ==> w_sub((#[trigger] s[i]).0, una) <= w_sub(nxt, una)
}

/// The retransmission table after recording an instant for `k`: the newest
/// instant wins, and a fresh key is appended.
pub open spec fn st_upsert(s: Seq<(u32, u64)>, k: u32, v: u64) -> Seq<(u32, u64)> {
    if st_has_key(s, k) {
        s.map(|i: int, e: (u32, u64)| if e.0 == k { (k, v) } else { e })
    } else {
        s.push((k, v))
    }
}

/// Recording a send instant keeps the retransmission table well formed:
/// keys stay distinct, and stay within the given span around `una` as long
/// as the recorded key does.
pub proof fn lemma_st_upsert_wf(s: Seq<(u32, u64)>, k: u32, v: u64, una: u32, span: int)
    requires
        st_distinct(s),
        forall|i: int| 0 <= i < s.len() ==> w_sub((#[trigger] s[i]).0, una) <= span,
        w_sub(k, una) <= span,
    ensures
        st_distinct(st_upsert(s, k, v)),
        forall|i: int|
            0 <= i < st_upsert(s, k, v).len() ==> w_sub((#[trigger] st_upsert(s, k, v)[i]).0, una)
                <= span,
{
    let up = st_upsert(s, k, v);
    if st_has_key(s, k) {
        assert(forall|i: int|
            0 <= i < s.len() ==> (#[trigger] up[i]) == (if s[i].0 == k {
                (k, v)
            } else {
                s[i]
            }));
        assert forall|a: int, b: int| 0 <= a < b < up.len() implies (#[trigger] up[a]).0 != (
        #[trigger] up[b]).0 by {
            assert(s[a].0 != s[b].0);
        }
    } else {
        assert(forall|i: int| 0 <= i < s.len() ==> (#[trigger] up[i]) == s[i]);
        assert(up[s.len() as int] == (k, v));
        assert forall|a: int, b: int| 0 <= a < b < up.len() implies (#[trigger] up[a]).0 != (
        #[trigger] up[b]).0 by {
            if b == s.len() {
                assert(up[a] == s[a]);
                assert(!st_has_key(s, k));
                assert(!(s[a].0 == k));
            } else {
                assert(s[a].0 != s[b].0);
            }
        }
    }
}

/// The effect of the transmission routine: the segment it emits, the
/// one-shot flags cleared, `snd.nxt` advanced past the segment if it went
/// beyond, and the segment's send instant recorded.
pub open spec fn write_step(c: ConnView, seq: u32, limit: nat, now: u64) -> (ConnView, SegView) {
    let payload = write_payload(c, seq, limit);
    let next_seq = w_add(
        seq,
        (payload.len() + (if c.tcp.syn { 1int } else { 0 }) + (if c.tcp.fin { 1int } else { 0 }))
            as u32,
    );
    let seg = SegView {
        seqn: seq,
        ackn: c.recv.nxt,
        ack: c.tcp.ack,
        syn: c.tcp.syn,
        fin: c.tcp.fin,
        wnd: c.tcp.wnd,
        payload: payload,
    };
    let c2 = ConnView {
        tcp: TcpMeta { syn: false, fin: false, ..c.tcp },
        send: SendSequenceSpace {
            nxt: if wlt(c.send.nxt, next_seq) {
                next_seq
            } else {
                c.send.nxt
            },
            ..c.send
        },
        send_times: st_upsert(c.send_times, seq, now),
        ..c
    };
    (c2, seg)
}

/// The frame bytes of a transmit are exactly the encoded datagram for its
/// header fields under the connection's templates.
pub open spec fn frame_matches(ip: Ipv4Meta, tcp: TcpMeta, t: Transmit) -> bool {
    t.frame@ == datagram_of(
        ip.src,
        ip.dst,
        ip.ttl,
        tcp.src_port,
        tcp.dst_port,
        t.seqn,
        t.ackn,
        t.ack,
        t.syn,
        t.fin,
        t.wnd,
        t.payload@,
    )
}

/// Copy `q[off .. off + n]` into a fresh vector.
fn copy_range(q: &VecDeque<u8>, off: usize, n: usize) -> (r: Vec<u8>)
    requires
        off + n <= q@.len(),
    ensures
        r@ == q@.subrange(off as int, off + n),
{
    let qlen = q.len();
    let mut r: Vec<u8> = Vec::new();
    let mut i: usize = 0;
    while i < n
        invariant
            i <= n,
            off + n <= q@.len(),
            qlen == q@.len(),
            r@ == q@.subrange(off as int, off + i),
        decreases n - i,
    {
        proof {
            assert(off + i < q@.len());
        }
        r.push(q[off + i]);
        proof {
            assert(r@ =~= q@.subrange(off as int, off + i + 1));
        }
        i = i + 1;
    }
    r
}

/// Record the instant `now` for sequence number `k`, overwriting any
/// earlier instant recorded for the same `k`.
fn upsert_time(st: &mut Vec<(u32, u64)>, k: u32, now: u64)
    requires
        st_distinct(old(st)@),
    ensures
        final(st)@ == st_upsert(old(st)@, k, now),
{
    let ghost orig = st@;
    let n = st.len();
    let mut i: usize = 0;
    while i < n
        invariant
            i <= n,
            n == st@.len(),
            st@ == orig,
            orig == old(st)@,
            st_distinct(orig),
            forall|j: int| 0 <= j < i ==> (#[trigger] orig[j]).0 != k,
        decreases n - i,
    {
        if st[i].0 == k {
            st.remove(i);
            st.insert(i, (k, now));
            proof {
                assert(st_has_key(orig, k));
                let up = st_upsert(orig, k, now);
                assert(up.len() == orig.len());
                assert forall|j: int| 0 <= j < orig.len() implies st@[j] == up[j] by {
                    assert(up[j] == (if orig[j].0 == k {
                        (k, now)
                    } else {
                        orig[j]
                    }));
                    if j != i {
                        assert(orig[j].0 != k);
                    }
                }
                assert(st@ =~= up);
            }
            return ;
        }
        i = i + 1;
    }
    proof {
        assert(!st_has_key(orig, k));
    }
    st.push((k, now));
}

impl Connection {
    /// Accept a passive open. Only a segment with SYN set and ACK clear
    /// creates a connection; anything else is not a new connection and has
    /// no effect. On success the new connection is in SYN-RCVD and the
    /// returned transmit is its SYN+ACK.
    pub fn accept(iph: &Ipv4Info, tcph: &TcpInfo, now: u64) -> (r: Option<(Connection, Transmit)>)
        ensures
            r is Some <==> (tcph.syn && !tcph.ack),
            r is Some ==> {
                let c0 = accept_init(*iph, *tcph);
                &&& r.unwrap().0@ == write_step(c0, 0, 0, now).0
                &&& r.unwrap().1@ == write_step(c0, 0, 0, now).1
                &&& r.unwrap().0@.wf()
                &&& frame_matches(c0.ip, c0.tcp, r.unwrap().1)
            },
    {
        if !(tcph.syn && !tcph.ack) {
            return None;
        }
        let iss: u32 = 0;
        let wnd: u16 = 1024;
        let mut c = Connection {
            state: State::SynRcvd,
            send: SendSequenceSpace {
                iss,
                una: iss,
                nxt: iss,
                wnd,
                up: false,
                wl1: 0,
                wl2: 0,
            },
            recv: RecvSequenceSpace {
                irs: tcph.seqn,
                nxt: tcph.seqn.wrapping_add(1),
                wnd: tcph.wnd,
                up: false,
            },
            ip: Ipv4Meta { src: iph.dst, dst: iph.src, ttl: 64 },
            tcp: TcpMeta {
                src_port: tcph.dst_port,
                dst_port: tcph.src_port,
                wnd,
                syn: true,
                fin: false,
                ack: true,
            },
            timers: Timers { send_times: Vec::new(), srtt: 60_000_000 },
            incoming: VecDeque::new(),
            unacked: VecDeque::new(),
            closed: false,
            closed_at: None,
        };
        let t = c.write(iss, 0, now);
        Some((c, t))
    }

    /// The payload for a segment starting at `seq` with byte budget
    /// `limit`: up to 1460 bytes of `unacked` at the segment's offset.
    fn payload_for(&self, seq: u32, limit: usize) -> (r: Vec<u8>)
        ensures
            r@ == write_payload(self@, seq, limit as nat),
            r@.len() <= limit,
            r@.len() <= 1460,
    {
        let mut off: usize = seq.wrapping_sub(self.send.una) as usize;
        let mut lim: usize = limit;
        if let Some(ca) = self.closed_at {
            if seq == ca.wrapping_add(1) {
                off = 0;
                lim = 0;
            }
        }
        let avail: usize = if off <= self.unacked.len() {
            self.unacked.len() - off
        } else {
            0
        };
        let mut n: usize = if lim < avail {
            lim
        } else {
            avail
        };
        if n > 1460 {
            n = 1460;
        }
        if off <= self.unacked.len() {
            copy_range(&self.unacked, off, n)
        } else {
            Vec::new()
        }
    }

    /// Produce one segment starting at `seq` carrying up to `limit` payload
    /// bytes out of `unacked`, stamp it with the current acknowledgment and
    /// window, clear the one-shot SYN/FIN flags, advance `snd.nxt` past the
    /// segment and record its send instant.
    #[verifier::rlimit(60)]
    pub fn write(&mut self, seq: u32, limit: usize, now: u64) -> (r: Transmit)
        requires
            old(self)@.wf_core(),
            !(old(self)@.tcp.syn && old(self)@.tcp.fin),
            write_budget(old(self)@, seq) <= old(self)@.unacked.len() + 2,
            old(self)@.closed_at is None ==> write_budget(old(self)@, seq) <= old(
                self,
            )@.unacked.len() + 1,
        ensures
            final(self)@.wf(),
            final(self)@ == write_step(old(self)@, seq, limit as nat, now).0,
            r@ == write_step(old(self)@, seq, limit as nat, now).1,
            frame_matches(old(self)@.ip, old(self)@.tcp, r),
            r@.payload.len() <= 1460,
            r.frame@.len() == 40 + r@.payload.len(),
    {
        let ghost c0 = self@;
        let payload: Vec<u8> = self.payload_for(seq, limit);
        let n: usize = payload.len();
        proof {
            // The payload clamp: nothing past the queue is ever read, so a
            // segment cannot push `snd.nxt` beyond the queued bytes plus
            // its one-shot flag.
            let offlim = write_offset(c0, seq, limit as nat);
            if offlim.0 <= c0.unacked.len() {
                assert(n <= c0.unacked.len() - offlim.0);
            } else {
                assert(n == 0);
            }
            if c0.closed_at is Some && seq == w_add(c0.closed_at.unwrap(), 1) {
                assert(n == 0);
            } else {
                assert(offlim.0 == w_sub(seq, c0.send.una));
            }
            let fcount = (if c0.tcp.syn {
                1int
            } else {
                0
            }) + (if c0.tcp.fin {
                1int
            } else {
                0
            });
            assert(w_sub(seq, c0.send.una) + n + fcount <= c0.unacked.len() + 2);
            assert(c0.closed_at is None ==> w_sub(seq, c0.send.una) + n + fcount
                <= c0.unacked.len() + 1);
        }
        let syn0 = self.tcp.syn;
        let fin0 = self.tcp.fin;
        let mut next_seq: u32 = seq.wrapping_add(n as u32);
        if syn0 {
            next_seq = next_seq.wrapping_add(1);
            self.tcp.syn = false;
        }
        if fin0 {
            next_seq = next_seq.wrapping_add(1);
            self.tcp.fin = false;
        }
        proof {
            lemma_w_sub_of_add(seq, (n + (if syn0 { 1int } else { 0 }) + (if fin0 {
                1int
            } else {
                0
            })) as u32, c0.send.una);
        }
        proof {
            lemma_wlt_iff(c0.send.una, c0.send.nxt, next_seq);
            assert(w_sub(seq, c0.send.una) <= w_sub(next_seq, c0.send.una));
        }
        if wrapping_lt(self.send.nxt, next_seq) {
            self.send.nxt = next_seq;
        }
        proof {
            // The new `snd.nxt` is at least as far from `snd.una` as both the
            // old one and the segment's own start.
            assert(w_sub(c0.send.nxt, c0.send.una) <= w_sub(self.send.nxt, c0.send.una));
            assert(w_sub(seq, c0.send.una) <= w_sub(self.send.nxt, c0.send.una));
            lemma_st_upsert_wf(
                c0.send_times,
                seq,
                now,
                c0.send.una,
                w_sub(self.send.nxt, c0.send.una) as int,
            );
        }
        upsert_time(&mut self.timers.send_times, seq, now);
        let frame = encode_frame(
            self.ip.src,
            self.ip.dst,
            self.ip.ttl,
            self.tcp.src_port,
            self.tcp.dst_port,
            seq,
            self.recv.nxt,
            self.tcp.ack,
            syn0,
            fin0,
            self.tcp.wnd,
            20 + (n as u16),
            payload.as_slice(),
        );
        Transmit {
            seqn: seq,
            ackn: self.recv.nxt,
            ack: self.tcp.ack,
            syn: syn0,
            fin: fin0,
            wnd: self.tcp.wnd,
            payload,
            frame,
        }
    }
}

/// A segment's length in sequence space: its payload plus one for SYN and
/// one for FIN.
pub open spec fn seg_ctl_len(h: TcpInfo, data_len: nat) -> nat {
    data_len + (if h.syn {
        1nat
    } else {
        0
    }) + (if h.fin {
        1nat
    } else {
        0
    })
}

/// The RFC 793 S3.3 acceptability table for a segment with sequence number
/// `seqn` and sequence-space length `slen` against a receive window `wnd`
/// at `nxt`.
pub open spec fn acceptable(nxt: u32, wnd: u16, seqn: u32, slen: u32) -> bool {
    let wend = w_add(nxt, wnd as u32);
    if slen == 0 {
        if wnd == 0 {
            seqn == nxt
        } else {
            between(w_sub(nxt, 1), seqn, wend)
        }
    } else {
        if wnd == 0 {
            false
        } else {
            between(w_sub(nxt, 1), seqn, wend) || between(
                w_sub(nxt, 1),
                w_add(seqn, (slen - 1) as u32),
                wend,
            )
        }
    }
}

/// States in which user data flows: ESTABLISHED and the two FIN-WAIT
/// states.
pub open spec fn sync_sendable(s: State) -> bool {
    s == State::Estab || s == State::FinWait1 || s == State::FinWait2
}

/// Whether an ACK carrying `ackn` has advanced past a recorded sequence
/// number `k`, i.e. `una <= k < ackn` in wrap order: such entries fund one
/// SRTT update and leave the table.
pub open spec fn ack_removes(una: u32, ackn: u32, k: u32) -> bool {
    between(w_sub(una, 1), k, ackn)
}

/// The retransmission table entries from index `i` on that an ACK carrying
/// `ackn` leaves in place, in their original order.
pub open spec fn st_keep_from(s: Seq<(u32, u64)>, una: u32, ackn: u32, i: int) -> Seq<(u32, u64)>
    decreases s.len() - i,
{
    if i < 0 || i >= s.len() {
        Seq::empty()
    } else if ack_removes(una, ackn, s[i].0) {
        st_keep_from(s, una, ackn, i + 1)
    } else {
        seq![s[i]] + st_keep_from(s, una, ackn, i + 1)
    }
}

/// Microseconds elapsed between a recorded send instant and now; zero if
/// the clock appears to have gone backwards.
pub open spec fn elapsed_since(now: u64, sent: u64) -> u64 {
    if now >= sent {
        (now - sent) as u64
    } else {
        0u64
    }
}

/// One SRTT update funded by an acknowledged segment: the exponentially
/// weighted moving average `0.8 * srtt + 0.2 * elapsed`, in integer
/// microseconds. The quotient always fits in 64 bits.
pub open spec fn srtt_step(srtt: u64, sent: u64, now: u64) -> u64 {
    ((4 * srtt + elapsed_since(now, sent)) / 5) as u64
}

/// The SRTT after folding, from index `i` on, one update per table entry
/// that the ACK carrying `ackn` removes.
pub open spec fn srtt_from(
    s: Seq<(u32, u64)>,
    una: u32,
    ackn: u32,
    now: u64,
    i: int,
    acc: u64,
) -> u64
    decreases s.len() - i,
{
    if i < 0 || i >= s.len() {
        acc
    } else if ack_removes(una, ackn, s[i].0) {
        srtt_from(s, una, ackn, now, i + 1, srtt_step(acc, s[i].1, now))
    } else {
        srtt_from(s, una, ackn, now, i + 1, acc)
    }
}

/// The effect of a valid ACK carrying `ackn` on the send side: `unacked`
/// drained by the newly acknowledged bytes (the SYN occupying one sequence
/// number before user data while unacknowledged), `snd.una` advanced to
/// `ackn`, and every retransmission entry the ACK passed removed, each
/// funding one SRTT update.
pub open spec fn apply_ack(c: ConnView, ackn: u32, now: u64) -> ConnView {
    let full = w_sub(ackn, data_start(c.send)) as int;
    let drained = if full <= c.unacked.len() {
        full
    } else {
        c.unacked.len() as int
    };
    ConnView {
        send: SendSequenceSpace { una: ackn, ..c.send },
        unacked: c.unacked.subrange(drained, c.unacked.len() as int),
        send_times: st_keep_from(c.send_times, c.send.una, ackn, 0),
        srtt: srtt_from(c.send_times, c.send.una, ackn, now, 0, c.srtt),
        ..c
    }
}

/// FIN-WAIT-1 completes once the peer has acknowledged one past our FIN.
pub open spec fn apply_fin_check(c: ConnView) -> ConnView {
    if c.state == State::FinWait1 && c.closed_at is Some && c.send.una == w_add(
        c.closed_at.unwrap(),
        1,
    ) {
        ConnView { state: State::FinWait2, ..c }
    } else {
        c
    }
}

/// How many leading payload bytes of a data segment were already delivered:
/// `rcv.nxt - seqn`, reset to zero when it exceeds the payload (a
/// retransmitted FIN we already consumed, or a segment past the edge).
pub open spec fn delivery_skip(nxt: u32, seqn: u32, data_len: nat) -> nat {
    let skip = w_sub(nxt, seqn) as nat;
    if skip > data_len {
        0
    } else {
        skip
    }
}

/// The effect of delivering a data segment: the not-yet-seen suffix joins
/// `incoming` and `rcv.nxt` moves past the segment's payload.
pub open spec fn apply_data(c: ConnView, seqn: u32, data: Seq<u8>) -> ConnView {
    let skip = delivery_skip(c.recv.nxt, seqn, data.len());
    ConnView {
        incoming: c.incoming + data.subrange(skip as int, data.len() as int),
        recv: RecvSequenceSpace { nxt: w_add(seqn, data.len() as u32), ..c.recv },
        ..c
    }
}

/// Which user operations a connection state has ready: readable when bytes
/// are queued or the read side has closed.
pub open spec fn availability_of(c: ConnView) -> Available {
    Available { read: c.state == State::TimeWait || c.incoming.len() > 0, write: false }
}

/// The pipeline for a segment carrying an acknowledgment: the SYN-RCVD to
/// ESTABLISHED transition, ACK processing, FIN-WAIT-1 completion, data
/// delivery with its ACK, and FIN handling in FIN-WAIT-2, entering
/// TIME-WAIT. This first stage covers everything before data delivery.
pub open spec fn ack_stage(c: ConnView, h: TcpInfo, now: u64) -> ConnView {
    let c1 = if c.state == State::SynRcvd && between(
        w_sub(c.send.una, 1),
        h.ackn,
        w_add(c.send.nxt, 1),
    ) {
        ConnView { state: State::Estab, ..c }
    } else {
        c
    };
    let c2 = if sync_sendable(c1.state) && between(c1.send.una, h.ackn, w_add(c1.send.nxt, 1)) {
        apply_ack(c1, h.ackn, now)
    } else {
        c1
    };
    apply_fin_check(c2)
}

pub open spec fn acked_step(c: ConnView, h: TcpInfo, data: Seq<u8>, now: u64) -> (
    ConnView,
    Seq<SegView>,
) {
    let c3 = ack_stage(c, h, now);
    let dstep = if data.len() > 0 && sync_sendable(c3.state) {
        let cd = apply_data(c3, h.seqn, data);
        let wr = write_step(cd, cd.send.nxt, 0, now);
        (wr.0, seq![wr.1])
    } else {
        (c3, Seq::<SegView>::empty())
    };
    let fstep = if h.fin && dstep.0.state == State::FinWait2 {
        let cf = ConnView {
            recv: RecvSequenceSpace { nxt: w_add(dstep.0.recv.nxt, 1), ..dstep.0.recv },
            ..dstep.0
        };
        let wr = write_step(cf, cf.send.nxt, 0, now);
        (ConnView { state: State::TimeWait, ..wr.0 }, seq![wr.1])
    } else {
        (dstep.0, Seq::<SegView>::empty())
    };
    (fstep.0, dstep.1 + fstep.1)
}

/// The full packet-handler pipeline for one inbound segment: the
/// acceptability gate answering unacceptable segments with a bare ACK, SYN
/// handling for the handshake, and [`acked_step`] for segments carrying an
/// acknowledgment.
pub open spec fn on_packet_step(c: ConnView, h: TcpInfo, data: Seq<u8>, now: u64) -> (
    ConnView,
    Seq<SegView>,
) {
    if !acceptable(c.recv.nxt, c.recv.wnd, h.seqn, seg_ctl_len(h, data.len()) as u32) {
        let wr = write_step(c, c.send.nxt, 0, now);
        (wr.0, seq![wr.1])
    } else if !h.ack {
        if h.syn {
            (
                ConnView { recv: RecvSequenceSpace { nxt: w_add(h.seqn, 1), ..c.recv }, ..c },
                Seq::empty(),
            )
        } else {
            (c, Seq::empty())
        }
    } else {
        acked_step(c, h, data, now)
    }
}

/// The freshly constructed connection state for an accepted SYN, before its
/// SYN+ACK is emitted: our initial send sequence is zero, our advertised
/// window 1024, and the peer's SYN has been consumed into `rcv.nxt`.
pub open spec fn accept_init(iph: Ipv4Info, h: TcpInfo) -> ConnView {
    ConnView {
        state: State::SynRcvd,
        send: SendSequenceSpace { iss: 0, una: 0, nxt: 0, wnd: 1024, up: false, wl1: 0, wl2: 0 },
        recv: RecvSequenceSpace { irs: h.seqn, nxt: w_add(h.seqn, 1), wnd: h.wnd, up: false },
        ip: Ipv4Meta { src: iph.dst, dst: iph.src, ttl: 64 },
        tcp: TcpMeta {
            src_port: h.dst_port,
            dst_port: h.src_port,
            wnd: 1024,
            syn: true,
            fin: false,
            ack: true,
        },
        incoming: Seq::empty(),
        unacked: Seq::empty(),
        send_times: Seq::empty(),
        srtt: 60_000_000,
        closed: false,
        closed_at: None,
    }
}

impl Connection {
    /// Whether the read side has reached end of stream.
    pub fn is_rcv_closed(&self) -> (r: bool)
        ensures
            r == (self@.state == State::TimeWait),
    {
        match self.state {
            State::TimeWait => true,
            _ => false,
        }
    }

    /// Which user operations this connection has ready.
    pub fn availability(&self) -> (r: Available)
        ensures
            r == availability_of(self@),
    {
        let read = self.is_rcv_closed() || self.incoming.len() > 0;
        Available { read, write: false }
    }

    /// Handle one inbound segment: the acceptability gate, the handshake
    /// and state transitions, ACK processing, data delivery and FIN
    /// handling, exactly as [`on_packet_step`] describes. Returns the
    /// availability afterwards and the segments to transmit in reply.
    #[verifier::rlimit(60)]
    pub fn on_packet(&mut self, tcph: &TcpInfo, data: &[u8], now: u64) -> (r: (
        Available,
        Vec<Transmit>,
    ))
        requires
            old(self)@.wf(),
            data@.len() <= 0xFFFF,
        ensures
            final(self)@.wf(),
            ({
                let st = on_packet_step(old(self)@, *tcph, data@, now);
                &&& final(self)@ == st.0
                &&& r.1@.len() == st.1.len()
                &&& forall|i: int|
                    0 <= i < r.1@.len() ==> (#[trigger] r.1@[i])@ == st.1[i] && frame_matches(
                        old(self)@.ip,
                        old(self)@.tcp,
                        r.1@[i],
                    )
            }),
            r.0 == availability_of(final(self)@),
    {
        let ghost c0 = self@;
        let ghost stepr = on_packet_step(c0, *tcph, data@, now);
        let mut outs: Vec<Transmit> = Vec::new();
        let seqn = tcph.seqn;
        let mut slen: u32 = data.len() as u32;
        if tcph.fin {
            slen = slen + 1;
        }
        if tcph.syn {
            slen = slen + 1;
        }
        proof {
            assert(slen == seg_ctl_len(*tcph, data@.len()) as u32);
        }
        let okay = check_acceptable(self.recv.nxt, self.recv.wnd, seqn, slen);
        if !okay {
            let t = self.write(self.send.nxt, 0, now);
            outs.push(t);
            proof {
                assert(self@ =~= stepr.0);
                assert(outs@[0]@ =~= stepr.1[0]);
            }
            let a = self.availability();
            return (a, outs);
        }
        if !tcph.ack {
            if tcph.syn {
                // The SYN part of the handshake: consume its sequence number.
                self.recv.nxt = seqn.wrapping_add(1);
            }
            proof {
                assert(self@ =~= stepr.0);
            }
            let a = self.availability();
            return (a, outs);
        }
        let outs = self.handle_acked(tcph, data, now);
        let a = self.availability();
        (a, outs)
    }

    /// Everything an acknowledgment does before data delivery: the
    /// SYN-RCVD to ESTABLISHED transition, draining `unacked`, advancing
    /// `snd.una`, the SRTT updates, and FIN-WAIT-1 completion, exactly as
    /// [`ack_stage`] describes.
    #[verifier::rlimit(60)]
    fn process_ack_stage(&mut self, tcph: &TcpInfo, now: u64)
        requires
            old(self)@.wf(),
            tcph.ack,
        ensures
            final(self)@.wf(),
            final(self)@ == ack_stage(old(self)@, *tcph, now),
    {
        let ghost c0 = self@;
        let ackn = tcph.ackn;
        if let State::SynRcvd = self.state {
            if is_between_wrapped(
                self.send.una.wrapping_sub(1),
                ackn,
                self.send.nxt.wrapping_add(1),
            ) {
                self.state = State::Estab;
            }
        }
        let ghost sc1 = if c0.state == State::SynRcvd && between(
            w_sub(c0.send.una, 1),
            ackn,
            w_add(c0.send.nxt, 1),
        ) {
            ConnView { state: State::Estab, ..c0 }
        } else {
            c0
        };
        proof {
            assert(self@ =~= sc1);
        }
        let in_sync = match self.state {
            State::Estab | State::FinWait1 | State::FinWait2 => true,
            _ => false,
        };
        if in_sync && is_between_wrapped(self.send.una, ackn, self.send.nxt.wrapping_add(1)) {
            proof {
                lemma_apply_ack_wf(sc1, ackn, now);
            }
            let ds = if self.send.una == self.send.iss {
                self.send.una.wrapping_add(1)
            } else {
                self.send.una
            };
            let full = ackn.wrapping_sub(ds);
            let ulen = self.unacked.len();
            let drained: usize = if (full as usize) <= ulen {
                full as usize
            } else {
                ulen
            };
            drain_front(&mut self.unacked, drained);
            apply_ack_times(&mut self.timers, self.send.una, ackn, now);
            self.send.una = ackn;
            proof {
                assert(self@ =~= apply_ack(sc1, ackn, now));
            }
        }
        let ghost sc2 = if sync_sendable(sc1.state) && between(
            sc1.send.una,
            ackn,
            w_add(sc1.send.nxt, 1),
        ) {
            apply_ack(sc1, ackn, now)
        } else {
            sc1
        };
        proof {
            assert(self@ =~= sc2);
        }
        if let State::FinWait1 = self.state {
            if let Some(ca) = self.closed_at {
                if self.send.una == ca.wrapping_add(1) {
                    // Our FIN has been acknowledged.
                    self.state = State::FinWait2;
                }
            }
        }
    }

    /// The pipeline for an acceptable segment that carries an
    /// acknowledgment, exactly as [`acked_step`] describes.
    #[verifier::rlimit(60)]
    fn handle_acked(&mut self, tcph: &TcpInfo, data: &[u8], now: u64) -> (outs: Vec<Transmit>)
        requires
            old(self)@.wf(),
            data@.len() <= 0xFFFF,
            tcph.ack,
        ensures
            final(self)@.wf(),
            ({
                let st = acked_step(old(self)@, *tcph, data@, now);
                &&& final(self)@ == st.0
                &&& outs@.len() == st.1.len()
                &&& forall|i: int|
                    0 <= i < outs@.len() ==> (#[trigger] outs@[i])@ == st.1[i] && frame_matches(
                        old(self)@.ip,
                        old(self)@.tcp,
                        outs@[i],
                    )
            }),
    {
        let ghost c0 = self@;
        let mut outs: Vec<Transmit> = Vec::new();
        let seqn = tcph.seqn;
        self.process_ack_stage(tcph, now);
        let ghost sc3 = ack_stage(c0, *tcph, now);
        if data.len() > 0 {
            let in_data = match self.state {
                State::Estab | State::FinWait1 | State::FinWait2 => true,
                _ => false,
            };
            if in_data {
                let sk = self.recv.nxt.wrapping_sub(seqn);
                let skip: usize = if (sk as usize) > data.len() {
                    0
                } else {
                    sk as usize
                };
                extend_from(&mut self.incoming, data, skip);
                self.recv.nxt = seqn.wrapping_add(data.len() as u32);
                proof {
                    assert(self@ =~= apply_data(sc3, seqn, data@));
                }
                let t = self.write(self.send.nxt, 0, now);
                outs.push(t);
            }
        }
        let ghost dstep = if data@.len() > 0 && sync_sendable(sc3.state) {
            let cd = apply_data(sc3, seqn, data@);
            let wr = write_step(cd, cd.send.nxt, 0, now);
            (wr.0, seq![wr.1])
        } else {
            (sc3, Seq::<SegView>::empty())
        };
        proof {
            assert(self@ =~= dstep.0);
        }
        if tcph.fin {
            if let State::FinWait2 = self.state {
                // The peer is closing: consume the FIN, acknowledge it and
                // enter TIME-WAIT.
                self.recv.nxt = self.recv.nxt.wrapping_add(1);
                let t = self.write(self.send.nxt, 0, now);
                outs.push(t);
                self.state = State::TimeWait;
            }
        }
        let ghost fstep = if tcph.fin && dstep.0.state == State::FinWait2 {
            let cf = ConnView {
                recv: RecvSequenceSpace { nxt: w_add(dstep.0.recv.nxt, 1), ..dstep.0.recv },
                ..dstep.0
            };
            let wr = write_step(cf, cf.send.nxt, 0, now);
            (ConnView { state: State::TimeWait, ..wr.0 }, seq![wr.1])
        } else {
            (dstep.0, Seq::<SegView>::empty())
        };
        proof {
            assert(self@ =~= fstep.0);
            assert(acked_step(c0, *tcph, data@, now).0 == fstep.0);
            assert(acked_step(c0, *tcph, data@, now).1 == dstep.1 + fstep.1);
            assert(outs@.len() == (dstep.1 + fstep.1).len());
            assert(forall|i: int|
                0 <= i < outs@.len() ==> (#[trigger] outs@[i])@ == (dstep.1 + fstep.1)[i]
                    && frame_matches(c0.ip, c0.tcp, outs@[i]));
        }
        outs
    }
}

/// The entry for the lowest outstanding sequence number (in wrap order
/// from `una`) among the table entries from index `i` on, starting from a
/// best-so-far.
pub open spec fn st_first_from(
    s: Seq<(u32, u64)>,
    una: u32,
    i: int,
    acc: Option<(u32, u64)>,
) -> Option<(u32, u64)>
    decreases s.len() - i,
{
    if i < 0 || i >= s.len() {
        acc
    } else {
        let acc2 = if acc is None || w_sub(s[i].0, una) < w_sub(acc.unwrap().0, una) {
            Some(s[i])
        } else {
            acc
        };
        st_first_from(s, una, i + 1, acc2)
    }
}

/// The retransmission timer: the oldest outstanding segment is resent once
/// it has waited both over one second and over one and a half times the
/// smoothed round-trip time.
pub open spec fn should_retransmit(c: ConnView, now: u64) -> bool {
    let first = st_first_from(c.send_times, c.send.una, 0, None);
    &&& first is Some
    &&& elapsed_since(now, first.unwrap().1) > 1_000_000
    &&& 2 * elapsed_since(now, first.unwrap().1) > 3 * c.srtt
}

/// The periodic tick. Nothing happens in FIN-WAIT-2 or TIME-WAIT. A due
/// retransmission resends everything unacknowledged (capped by the peer
/// window), piggybacking our FIN when it fits and the user has closed.
/// Otherwise new data is sent within the window, again piggybacking a
/// first FIN when it fits.
pub open spec fn on_tick_step(c: ConnView, now: u64) -> (ConnView, Option<SegView>) {
    if c.state == State::FinWait2 || c.state == State::TimeWait {
        (c, None)
    } else {
        let nunacked = w_sub(
            if c.closed_at is Some {
                c.closed_at.unwrap()
            } else {
                c.send.nxt
            },
            c.send.una,
        ) as int;
        let ulen = c.unacked.len() as int;
        let unsent = if ulen >= nunacked {
            ulen - nunacked
        } else {
            0
        };
        if should_retransmit(c, now) {
            let resend = if ulen < c.send.wnd {
                ulen
            } else {
                c.send.wnd as int
            };
            let c1 = if resend < c.send.wnd && c.closed {
                ConnView {
                    tcp: TcpMeta { fin: true, ..c.tcp },
                    closed_at: Some(w_add(c.send.una, c.unacked.len() as u32)),
                    ..c
                }
            } else {
                c
            };
            let wr = write_step(c1, c.send.una, resend as nat, now);
            (wr.0, Some(wr.1))
        } else if unsent == 0 && c.closed_at is Some {
            // Everything queued is already covered by the FIN we emitted.
            (c, None)
        } else {
            let allowed = if c.send.wnd >= nunacked {
                c.send.wnd - nunacked
            } else {
                0
            };
            if allowed == 0 {
                (c, None)
            } else {
                let send_n = if unsent < allowed {
                    unsent
                } else {
                    allowed
                };
                let c1 = if send_n < allowed && c.closed && c.closed_at is None {
                    ConnView {
                        tcp: TcpMeta { fin: true, ..c.tcp },
                        closed_at: Some(w_add(c.send.una, c.unacked.len() as u32)),
                        ..c
                    }
                } else {
                    c
                };
                let wr = write_step(c1, c.send.nxt, send_n as nat, now);
                (wr.0, Some(wr.1))
            }
        }
    }
}

/// The user's close: remember the request, and move out of the
/// established half if we still were in it. Closing a connection already
/// past ESTABLISHED's outbound half is an error.
pub open spec fn close_step(c: ConnView) -> (ConnView, Result<(), TcpError>) {
    let c1 = ConnView { closed: true, ..c };
    match c.state {
        State::SynRcvd | State::Estab => (ConnView { state: State::FinWait1, ..c1 }, Ok(())),
        State::FinWait1 | State::FinWait2 => (c1, Ok(())),
        _ => (c1, Err(TcpError::NotConnected)),
    }
}

impl Connection {
    /// The retransmission-table entry for the oldest outstanding segment.
    fn first_send_time(&self) -> (r: Option<(u32, u64)>)
        ensures
            r == st_first_from(self@.send_times, self@.send.una, 0, None),
    {
        let una = self.send.una;
        let n = self.timers.send_times.len();
        let mut acc: Option<(u32, u64)> = None;
        let mut i: usize = 0;
        while i < n
            invariant
                i <= n,
                n == self@.send_times.len(),
                st_first_from(self@.send_times, una, 0, None) == st_first_from(
                    self@.send_times,
                    una,
                    i as int,
                    acc,
                ),
                una == self@.send.una,
            decreases n - i,
        {
            let e = self.timers.send_times[i];
            let take = match acc {
                None => true,
                Some(b) => e.0.wrapping_sub(una) < b.0.wrapping_sub(una),
            };
            if take {
                acc = Some(e);
            }
            i = i + 1;
        }
        acc
    }

    /// The periodic tick: drive the retransmission timer and drain the
    /// writer's queue into the window, exactly as [`on_tick_step`]
    /// describes. Returns the segment to transmit, if any.
    #[verifier::rlimit(60)]
    pub fn on_tick(&mut self, now: u64) -> (r: Option<Transmit>)
        requires
            old(self)@.wf(),
        ensures
            final(self)@.wf(),
            final(self)@ == on_tick_step(old(self)@, now).0,
            r is Some <==> on_tick_step(old(self)@, now).1 is Some,
            r is Some ==> r.unwrap()@ == on_tick_step(old(self)@, now).1.unwrap()
                && frame_matches(old(self)@.ip, old(self)@.tcp, r.unwrap()),
    {
        let ghost c0 = self@;
        match self.state {
            State::FinWait2 | State::TimeWait => {
                return None;
            },
            _ => {},
        }
        let nunacked_from = match self.closed_at {
            Some(ca) => ca,
            None => self.send.nxt,
        };
        let nunacked: u32 = nunacked_from.wrapping_sub(self.send.una);
        let ulen32: u32 = self.unacked.len() as u32;
        let unsent: u32 = if ulen32 >= nunacked {
            ulen32 - nunacked
        } else {
            0
        };
        let first = self.first_send_time();
        let retransmit = match first {
            Some(ft) => {
                let waited: u64 = if now >= ft.1 {
                    now - ft.1
                } else {
                    0
                };
                waited > 1_000_000 && (waited as u128) * 2 > (self.timers.srtt as u128) * 3
            },
            None => false,
        };
        proof {
            assert(retransmit == should_retransmit(c0, now));
        }
        if retransmit {
            let resend: u32 = if ulen32 < self.send.wnd as u32 {
                ulen32
            } else {
                self.send.wnd as u32
            };
            if resend < self.send.wnd as u32 && self.closed {
                // The whole queue fits under the window: piggyback our FIN.
                self.tcp.fin = true;
                self.closed_at = Some(self.send.una.wrapping_add(ulen32));
            }
            let t = self.write(self.send.una, resend as usize, now);
            Some(t)
        } else {
            if unsent == 0 && self.closed_at.is_some() {
                return None;
            }
            let allowed: u32 = if self.send.wnd as u32 >= nunacked {
                self.send.wnd as u32 - nunacked
            } else {
                0
            };
            if allowed == 0 {
                return None;
            }
            let send_n: u32 = if unsent < allowed {
                unsent
            } else {
                allowed
            };
            if send_n < allowed && self.closed && self.closed_at.is_none() {
                // A first FIN fits right after the queued data.
                self.tcp.fin = true;
                self.closed_at = Some(self.send.una.wrapping_add(ulen32));
            }
            let t = self.write(self.send.nxt, send_n as usize, now);
            Some(t)
        }
    }

    /// The user requests shutdown of the write side. The FIN itself is
    /// emitted by a later tick.
    pub fn close(&mut self) -> (r: Result<(), TcpError>)
        requires
            old(self)@.wf(),
        ensures
            final(self)@.wf(),
            final(self)@ == close_step(old(self)@).0,
            r == close_step(old(self)@).1,
    {
        self.closed = true;
        match self.state {
            State::SynRcvd | State::Estab => {
                self.state = State::FinWait1;
            },
            State::FinWait1 | State::FinWait2 => {},
            _ => {
                return Err(TcpError::NotConnected);
            },
        }
        Ok(())
    }
}

/// Remove the first `n` bytes of a queue.
fn drain_front(q: &mut VecDeque<u8>, n: usize)
    requires
        n <= old(q)@.len(),
    ensures
        final(q)@ == old(q)@.subrange(n as int, old(q)@.len() as int),
{
    let mut i: usize = 0;
    while i < n
        invariant
            i <= n,
            n <= old(q)@.len(),
            q@ == old(q)@.subrange(i as int, old(q)@.len() as int),
        decreases n - i,
    {
        q.pop_front();
        proof {
            assert(q@ =~= old(q)@.subrange(i + 1, old(q)@.len() as int));
        }
        i = i + 1;
    }
}

/// Append `data[skip..]` to a queue.
fn extend_from(q: &mut VecDeque<u8>, data: &[u8], skip: usize)
    requires
        skip <= data@.len(),
    ensures
        final(q)@ == old(q)@ + data@.subrange(skip as int, data@.len() as int),
{
    let n = data.len();
    let mut i: usize = skip;
    while i < n
        invariant
            skip <= i <= n,
            n == data@.len(),
            q@ == old(q)@ + data@.subrange(skip as int, i as int),
        decreases n - i,
    {
        q.push_back(data[i]);
        proof {
            assert(q@ =~= old(q)@ + data@.subrange(skip as int, i + 1));
        }
        i = i + 1;
    }
    proof {
        assert(q@ =~= old(q)@ + data@.subrange(skip as int, data@.len() as int));
    }
}

/// One integer-microsecond SRTT update funded by an acknowledged segment.
fn srtt_update(srtt: u64, sent: u64, now: u64) -> (r: u64)
    ensures
        r == srtt_step(srtt, sent, now),
{
    let e: u64 = if now >= sent {
        now - sent
    } else {
        0
    };
    let q: u128 = (4u128 * (srtt as u128) + (e as u128)) / 5;
    proof {
        assert(4 * (srtt as int) + e < 0x1_0000_0000_0000_0000_0000_0000_0000_0000);
        assert(q <= u64::MAX) by {
            assert(4 * (srtt as int) + e <= 5 * 0xFFFF_FFFF_FFFF_FFFFint);
        }
    }
    q as u64
}

/// Walk the retransmission table once: drop every entry the ACK advanced
/// past, fund one SRTT update per dropped entry, keep the rest in order.
fn apply_ack_times(t: &mut Timers, una: u32, ackn: u32, now: u64)
    ensures
        final(t).send_times@ == st_keep_from(old(t).send_times@, una, ackn, 0),
        final(t).srtt == srtt_from(old(t).send_times@, una, ackn, now, 0, old(t).srtt),
{
    let ghost orig = t.send_times@;
    let ghost srtt0 = t.srtt;
    let n = t.send_times.len();
    let mut kept: Vec<(u32, u64)> = Vec::new();
    let mut srtt: u64 = t.srtt;
    let mut i: usize = 0;
    while i < n
        invariant
            i <= n,
            n == orig.len(),
            t.send_times@ == orig,
            orig == old(t).send_times@,
            srtt0 == old(t).srtt,
            st_keep_from(orig, una, ackn, 0) == kept@ + st_keep_from(orig, una, ackn, i as int),
            srtt_from(orig, una, ackn, now, 0, srtt0) == srtt_from(
                orig,
                una,
                ackn,
                now,
                i as int,
                srtt,
            ),
        decreases n - i,
    {
        let e = t.send_times[i];
        if is_between_wrapped(una.wrapping_sub(1), e.0, ackn) {
            srtt = srtt_update(srtt, e.1, now);
        } else {
            kept.push(e);
            proof {
                assert(kept@ + st_keep_from(orig, una, ackn, i + 1) =~= (kept@.drop_last() + seq![
                    e,
                ]) + st_keep_from(orig, una, ackn, i + 1));
                assert(kept@.drop_last() + (seq![e] + st_keep_from(orig, una, ackn, i + 1))
                    =~= (kept@.drop_last() + seq![e]) + st_keep_from(orig, una, ackn, i + 1));
            }
        }
        i = i + 1;
    }
    t.send_times = kept;
    t.srtt = srtt;
    proof {
        assert(final(t).send_times@ =~= st_keep_from(orig, una, ackn, 0));
    }
}

/// The acceptability test, exactly as the RFC 793 S3.3 table states it.
pub fn check_acceptable(nxt: u32, wnd: u16, seqn: u32, slen: u32) -> (r: bool)
    ensures
        r == acceptable(nxt, wnd, seqn, slen),
{
    let wend = nxt.wrapping_add(wnd as u32);
    if slen == 0 {
        if wnd == 0 {
            seqn == nxt
        } else {
            is_between_wrapped(nxt.wrapping_sub(1), seqn, wend)
        }
    } else {
        if wnd == 0 {
            false
        } else {
            is_between_wrapped(nxt.wrapping_sub(1), seqn, wend) || is_between_wrapped(
                nxt.wrapping_sub(1),
                seqn.wrapping_add(slen - 1),
                wend,
            )
        }
    }
}

/// Entries kept by an ACK walk are a subset of the original table, each one
/// not passed by the ACK; distinctness carries over.
pub proof fn lemma_st_keep_props(s: Seq<(u32, u64)>, una: u32, ackn: u32, i: int)
    requires
        st_distinct(s),
        0 <= i <= s.len(),
    ensures
        st_distinct(st_keep_from(s, una, ackn, i)),
        forall|x: int|
            0 <= x < st_keep_from(s, una, ackn, i).len() ==> !ack_removes(
                una,
                ackn,
                (#[trigger] st_keep_from(s, una, ackn, i)[x]).0,
            ) && exists|j: int| i <= j < s.len() && s[j] == st_keep_from(s, una, ackn, i)[x],
    decreases s.len() - i,
{
    if i < s.len() {
        lemma_st_keep_props(s, una, ackn, i + 1);
        let r1 = st_keep_from(s, una, ackn, i + 1);
        let r = st_keep_from(s, una, ackn, i);
        assert forall|x: int|
            0 <= x < r.len() implies !ack_removes(una, ackn, (#[trigger] r[x]).0) && exists|j: int|
            i <= j < s.len() && s[j] == r[x] by {
            if ack_removes(una, ackn, s[i].0) {
                assert(r[x] == r1[x]);
                let j = choose|j: int| i + 1 <= j < s.len() && s[j] == r1[x];
                assert(i <= j < s.len() && s[j] == r[x]);
            } else {
                if x == 0 {
                    assert(r[x] == s[i]);
                } else {
                    assert(r[x] == r1[x - 1]);
                    let j = choose|j: int| i + 1 <= j < s.len() && s[j] == r1[x - 1];
                    assert(i <= j < s.len() && s[j] == r[x]);
                }
            }
        }
        if !ack_removes(una, ackn, s[i].0) {
            assert forall|a: int, b: int| 0 <= a < b < r.len() implies (#[trigger] r[a]).0 != (
            #[trigger] r[b]).0 by {
                if a == 0 {
                    assert(r[a] == s[i]);
                    assert(r[b] == r1[b - 1]);
                    let j = choose|j: int| i + 1 <= j < s.len() && s[j] == r1[b - 1];
                    assert(s[i].0 != s[j].0);
                } else {
                    assert(r[a] == r1[a - 1] && r[b] == r1[b - 1]);
                }
            }
        }
    }
}

/// A valid ACK leaves the connection well formed: the drained queue still
/// covers every sequence number in flight and the retransmission table
/// keeps only distinct entries at or beyond the new `snd.una`.
pub proof fn lemma_apply_ack_wf(c: ConnView, ackn: u32, now: u64)
    requires
        c.wf_core(),
        between(c.send.una, ackn, w_add(c.send.nxt, 1)),
    ensures
        apply_ack(c, ackn, now).wf_core(),
        apply_ack(c, ackn, now).tcp == c.tcp,
        1 <= w_sub(ackn, c.send.una) <= w_sub(c.send.nxt, c.send.una),
{
    let una = c.send.una;
    let nxt = c.send.nxt;
    let dn = w_sub(nxt, una);
    lemma_w_sub_of_add(nxt, 1, una);
    lemma_between_dist(una, ackn, w_add(nxt, 1));
    let dack = w_sub(ackn, una);
    let ds = data_start(c.send);
    if una == c.send.iss {
        lemma_w_sub_of_add(una, 1, una);
        lemma_w_sub_chain(una, ackn, ds);
    } else {
        assert(w_sub(ackn, ds) == dack);
    }
    lemma_w_sub_chain(una, nxt, ackn);
    let cc = apply_ack(c, ackn, now);
    lemma_st_keep_props(c.send_times, una, ackn, 0);
    assert forall|x: int| 0 <= x < cc.send_times.len() implies w_sub(
        (#[trigger] cc.send_times[x]).0,
        ackn,
    ) <= w_sub(nxt, ackn) by {
        let j = choose|j: int| 0 <= j < c.send_times.len() && c.send_times[j] == cc.send_times[x];
        let k = cc.send_times[x].0;
        let dk = w_sub(k, una);
        assert(dk <= dn);
        assert(!ack_removes(una, ackn, k));
        lemma_w_sub_pred(k, una);
        lemma_w_sub_pred(ackn, una);
        if dk < dack {
            lemma_dist_between(w_sub(una, 1), k, ackn);
            assert(false);
        }
        lemma_w_sub_chain(una, k, ackn);
    }
}

} // verus!
