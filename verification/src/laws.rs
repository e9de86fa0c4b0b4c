//! The engine's cross-cutting guarantees, stated and proved over the
//! spec-level transition functions of the connection engine: monotonicity
//! of the send and receive cursors, the acceptability gate, what a full
//! acknowledgment leaves behind, and that reassembly delivers exactly the
//! peer's byte stream.
use vstd::prelude::*;

use crate::codec::{Ipv4Info, TcpInfo};
use crate::connection::{
    accept_init, acceptable, ack_stage, apply_ack, on_packet_step, seg_ctl_len, st_distinct,
    sync_sendable, ConnView,
};
use crate::tcp::State;
use crate::wrap_arith::{
    between, lemma_between_dist, lemma_dist_between, lemma_w_add_sub_inverse, lemma_w_sub_antisym,
    lemma_w_sub_chain, lemma_w_sub_of_add, lemma_w_sub_pred, lemma_wlt_iff, w_add, w_sub, wlt,
};

verus! {

/// `snd.una` advances monotonically in wrap order across any segment the
/// packet handler processes: it either stays, or moves strictly forward.
pub proof fn lemma_una_monotone(c: ConnView, h: TcpInfo, data: Seq<u8>, now: u64)
    requires
        c.wf(),
    ensures
        ({
            let c1 = on_packet_step(c, h, data, now).0;
            c1.send.una == c.send.una || wlt(c.send.una, c1.send.una)
        }),
{
}

/// A new connection starts with `rcv.nxt` exactly one past the peer's
/// initial sequence number (the SYN occupies one sequence number).
pub proof fn lemma_accept_recv_init(iph: Ipv4Info, h: TcpInfo)
    ensures
        w_sub(accept_init(iph, h).recv.nxt, accept_init(iph, h).recv.irs) == 1,
{
    lemma_w_sub_of_add(h.seqn, 1, h.seqn);
}

/// An acceptable data segment whose start lies further behind the cursor
/// than its own payload is in truth strictly ahead of it: the RFC 793
/// table only admits such a start inside the receive window beyond
/// `rcv.nxt`.
proof fn lemma_seg_start_ahead(nxt: u32, wnd: u16, seqn: u32, slen: u32)
    requires
        acceptable(nxt, wnd, seqn, slen),
        1 <= slen <= 0x1_0000,
        w_sub(nxt, seqn) >= slen,
    ensures
        1 <= w_sub(seqn, nxt) < wnd,
{
    let wend = w_add(nxt, wnd as u32);
    let d = w_sub(nxt, seqn);
    let a = w_sub(seqn, nxt);
    lemma_w_sub_of_add(nxt, wnd as u32, nxt);
    lemma_w_sub_pred(wend, nxt);
    lemma_w_sub_antisym(nxt, seqn);
    if between(w_sub(nxt, 1), seqn, wend) {
        lemma_between_dist(w_sub(nxt, 1), seqn, wend);
        if a == 0xFFFF_FFFF {
            // The start would be exactly one before the cursor, leaving no
            // room for the payload.
            assert(d == 1);
            assert(false);
        }
        lemma_w_sub_pred(seqn, nxt);
        if a == 0 {
            assert(seqn == nxt);
            assert(false);
        }
    } else {
        let e = w_add(seqn, (slen - 1) as u32);
        assert(between(w_sub(nxt, 1), e, wend));
        lemma_between_dist(w_sub(nxt, 1), e, wend);
        let ae = w_sub(e, nxt);
        if ae == 0xFFFF_FFFF {
            assert(e == w_sub(nxt, 1));
            assert(false);
        }
        lemma_w_sub_pred(e, nxt);
        lemma_w_sub_of_add(seqn, (slen - 1) as u32, seqn);
        lemma_w_sub_chain(seqn, nxt, e);
        lemma_w_sub_antisym(nxt, e);
        assert(a == ae - slen + 1);
        if a == 0 {
            assert(seqn == nxt);
            assert(false);
        }
    }
}

/// `rcv.nxt` never moves backwards across a segment without SYN: it either
/// stays, or advances strictly in wrap order. In-order and overlapping
/// data move it to the segment's end; a segment strictly past the cursor
/// moves it forward over the gap (the duplicate-skip resets); a FIN
/// consumed in FIN-WAIT-2 moves it by one more.
pub proof fn lemma_recv_nxt_monotone(c: ConnView, h: TcpInfo, data: Seq<u8>, now: u64)
    requires
        c.wf(),
        !h.syn,
        data.len() <= 0xFFFF,
    ensures
        ({
            let c1 = on_packet_step(c, h, data, now).0;
            c1.recv.nxt == c.recv.nxt || wlt(c.recv.nxt, c1.recv.nxt)
        }),
{
    let st = on_packet_step(c, h, data, now);
    let nxt = c.recv.nxt;
    if acceptable(nxt, c.recv.wnd, h.seqn, seg_ctl_len(h, data.len()) as u32) && h.ack {
        let c3 = ack_stage(c, h, now);
        assert(c3.recv == c.recv);
        if data.len() > 0 && sync_sendable(c3.state) {
            let skip = w_sub(nxt, h.seqn);
            let nxt2 = w_add(h.seqn, data.len() as u32);
            lemma_w_sub_of_add(h.seqn, data.len() as u32, h.seqn);
            assert(w_sub(nxt2, h.seqn) == data.len());
            if skip <= data.len() {
                lemma_wlt_iff(h.seqn, nxt, nxt2);
                lemma_w_add_sub_inverse(nxt, h.seqn);
                lemma_w_sub_chain(h.seqn, nxt2, nxt);
            } else {
                lemma_seg_start_ahead(
                    nxt,
                    c.recv.wnd,
                    h.seqn,
                    seg_ctl_len(h, data.len()) as u32,
                );
                lemma_w_sub_of_add(h.seqn, data.len() as u32, nxt);
                lemma_wlt_iff(nxt, nxt, nxt2);
            }
            if h.fin && st.0.state == State::TimeWait {
                let nxt3 = w_add(nxt2, 1);
                lemma_w_sub_of_add(nxt2, 1, nxt);
                lemma_wlt_iff(nxt, nxt, nxt3);
                lemma_wlt_iff(nxt, nxt2, nxt3);
            }
        } else {
            if h.fin && st.0.state == State::TimeWait {
                lemma_w_sub_of_add(nxt, 1, nxt);
                lemma_wlt_iff(nxt, nxt, w_add(nxt, 1));
            }
        }
    }
}

/// The acceptability gate: a segment that fails the RFC 793 table changes
/// nothing - the engine only answers it with one empty acknowledgment at
/// the current send cursor.
pub proof fn lemma_unacceptable_answered(c: ConnView, h: TcpInfo, data: Seq<u8>, now: u64)
    requires
        c.wf(),
        !acceptable(c.recv.nxt, c.recv.wnd, h.seqn, seg_ctl_len(h, data.len()) as u32),
    ensures
        ({
            let st = on_packet_step(c, h, data, now);
            &&& st.0.state == c.state
            &&& st.0.recv == c.recv
            &&& st.0.incoming == c.incoming
            &&& st.0.unacked == c.unacked
            &&& st.0.send.una == c.send.una
            &&& st.0.closed == c.closed
            &&& st.0.closed_at == c.closed_at
            &&& st.1.len() == 1
            &&& st.1[0].seqn == c.send.nxt
            &&& st.1[0].ackn == c.recv.nxt
            &&& st.1[0].payload.len() == 0
            &&& !st.1[0].syn
            &&& !st.1[0].fin
        }),
{
}

/// A peer acknowledgment covering everything sent leaves nothing queued:
/// after one ACK carrying `snd.nxt`, `unacked` is empty and
/// `snd.una == snd.nxt`. (With the handshake's SYN long acknowledged,
/// every queued byte is in flight exactly when `snd.nxt` sits
/// `unacked.len()` past `snd.una`.)
pub proof fn lemma_full_ack_drains(c: ConnView, h: TcpInfo, now: u64)
    requires
        c.wf(),
        c.state == State::Estab,
        c.send.una != c.send.iss,
        c.send.nxt == w_add(c.send.una, c.unacked.len() as u32),
        h.ack,
        !h.syn,
        !h.fin,
        h.ackn == c.send.nxt,
        h.seqn == c.recv.nxt,
        c.recv.wnd > 0,
    ensures
        ({
            let st = on_packet_step(c, h, Seq::<u8>::empty(), now);
            &&& st.0.unacked.len() == 0
            &&& st.0.send.una == st.0.send.nxt
        }),
{
    let una = c.send.una;
    let nxt = c.send.nxt;
    let ulen = c.unacked.len() as u32;
    lemma_w_sub_of_add(una, ulen, una);
    assert(w_sub(nxt, una) == ulen);
    // The empty acknowledgment segment is acceptable: its sequence number
    // sits exactly on the receive cursor inside a nonzero window.
    lemma_w_sub_pred(c.recv.nxt, c.recv.nxt);
    lemma_w_sub_of_add(c.recv.nxt, c.recv.wnd as u32, c.recv.nxt);
    lemma_w_sub_pred(w_add(c.recv.nxt, c.recv.wnd as u32), c.recv.nxt);
    lemma_dist_between(
        w_sub(c.recv.nxt, 1),
        c.recv.nxt,
        w_add(c.recv.nxt, c.recv.wnd as u32),
    );
    assert(acceptable(c.recv.nxt, c.recv.wnd, h.seqn, 0));
    if c.unacked.len() > 0 {
        // The acknowledgment is valid, and drains the whole queue.
        lemma_w_sub_of_add(nxt, 1, una);
        lemma_dist_between(una, h.ackn, w_add(nxt, 1));
        assert(between(una, h.ackn, w_add(nxt, 1)));
        let cc = apply_ack(c, h.ackn, now);
        assert(cc.unacked.len() == 0);
        assert(cc.send.una == nxt);
    } else {
        // Nothing was in flight, and `snd.una` already sits on `snd.nxt`.
        assert(nxt == una);
        lemma_w_sub_of_add(una, 1, una);
        lemma_wlt_iff(una, una, h.ackn);
        assert(!between(una, h.ackn, w_add(nxt, 1)));
    }
}

/// The retransmission table of a well-formed connection never holds a
/// sequence number below `snd.una` in wrap order (acknowledged entries
/// leave the table as `snd.una` advances), and no key twice (a retransmit
/// overwrites its entry's instant instead of adding one).
pub proof fn lemma_send_times_in_flight(c: ConnView)
    requires
        c.wf(),
    ensures
        forall|i: int|
            0 <= i < c.send_times.len() ==> !wlt((#[trigger] c.send_times[i]).0, c.send.una),
        st_distinct(c.send_times),
{
}

/// The reassembly relation: everything the user has read (`nread` bytes)
/// followed by `incoming` is exactly the peer's byte stream from one past
/// the initial sequence number up to `rcv.nxt - 1`.
pub open spec fn recv_prefix_ok(c: ConnView, stream: Seq<u8>, nread: nat) -> bool {
    &&& nread + c.incoming.len() + 1 == w_sub(c.recv.nxt, c.recv.irs)
    &&& nread + c.incoming.len() <= stream.len()
    &&& c.incoming == stream.subrange(nread as int, nread + c.incoming.len() as int)
}

/// Receive-side reassembly: delivering any acceptable data segment that
/// carries the peer's stream bytes at its own position, in order or
/// overlapping the already-delivered prefix, keeps `incoming` equal to the
/// stream's contiguous prefix - duplicated bytes are skipped, new bytes
/// appended. Applied inductively over any such segment sequence, the bytes
/// the user reads are exactly the peer's stream.
pub proof fn lemma_recv_prefix_preserved(
    c: ConnView,
    h: TcpInfo,
    data: Seq<u8>,
    now: u64,
    stream: Seq<u8>,
    nread: nat,
)
    requires
        c.wf(),
        recv_prefix_ok(c, stream, nread),
        stream.len() < 0x7FFF_0000,
        sync_sendable(c.state),
        h.ack,
        !h.syn,
        !h.fin,
        data.len() > 0,
        data.len() <= 0xFFFF,
        ({
            // The segment sits at position `p` of the stream and carries
            // the stream's bytes there.
            let p = w_sub(h.seqn, w_add(c.recv.irs, 1)) as int;
            &&& p + data.len() <= stream.len()
            &&& data == stream.subrange(p, p + data.len())
            // No gap: the segment starts at or before the receive cursor,
            // and reaches it.
            &&& w_sub(c.recv.nxt, h.seqn) <= data.len()
            &&& p <= nread + c.incoming.len()
        }),
    ensures
        ({
            let st = on_packet_step(c, h, data, now).0;
            recv_prefix_ok(st, stream, nread)
        }),
{
    let st = on_packet_step(c, h, data, now);
    if acceptable(c.recv.nxt, c.recv.wnd, h.seqn, seg_ctl_len(h, data.len()) as u32) {
        let base = w_add(c.recv.irs, 1);
        let p = w_sub(h.seqn, base) as int;
        let inlen = c.incoming.len() as int;
        let c3 = ack_stage(c, h, now);
        assert(c3.recv == c.recv && c3.incoming == c.incoming);
        assert(sync_sendable(c3.state));
        let skip = w_sub(c.recv.nxt, h.seqn) as int;
        // Distances measured from the start of the stream line up:
        // `rcv.nxt` sits `nread + incoming.len()` past it, the segment `p`.
        lemma_w_sub_of_add(c.recv.irs, 1, c.recv.irs);
        lemma_w_sub_pred(c.recv.nxt, c.recv.irs);
        assert(w_sub(c.recv.nxt, c.recv.irs) == nread + inlen + 1);
        lemma_w_sub_chain(c.recv.irs, c.recv.nxt, base);
        assert(w_sub(c.recv.nxt, base) == nread + inlen);
        lemma_w_sub_chain(base, c.recv.nxt, h.seqn);
        assert(skip == nread + inlen - p);
        let nxt2 = w_add(h.seqn, data.len() as u32);
        lemma_w_sub_of_add(h.seqn, data.len() as u32, base);
        assert(w_sub(nxt2, base) == p + data.len());
        lemma_w_sub_pred(nxt2, base);
        lemma_w_sub_of_add(base, 1, c.recv.irs);
        lemma_w_sub_chain(c.recv.irs, nxt2, base);
        assert(w_sub(nxt2, c.recv.irs) == p + data.len() + 1);
        assert(st.0.incoming == c.incoming + data.subrange(skip, data.len() as int));
        assert(st.0.recv.nxt == nxt2);
        assert(st.0.incoming =~= stream.subrange(
            nread as int,
            nread + inlen + (data.len() - skip),
        )) by {
            assert(c.incoming == stream.subrange(nread as int, nread + inlen));
            assert(data.subrange(skip, data.len() as int) =~= stream.subrange(
                p + skip,
                p + data.len(),
            ));
            assert(p + skip == nread + inlen);
        }
    }
}

} // verus!
