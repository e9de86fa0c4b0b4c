//! Connection-level state: the state enum, the RFC 793 send and receive
//! sequence spaces, retransmission timers, and the availability flags the
//! manager uses to wake blocked readers.
use vstd::prelude::*;

verus! {

/// Which user operations a connection currently has ready.
#[derive(Debug, Clone, Copy, PartialEq, Eq, Structural)]
pub struct Available {
    /// Bytes are readable, or the read side has reached end of stream.
    pub read: bool,
    /// Reserved: write-side readiness is not signalled yet.
    pub write: bool,
}

impl Available {
    pub fn empty() -> (r: Available)
        ensures
            !r.read,
            !r.write,
    {
        Available { read: false, write: false }
    }
}

/// The connection states this endpoint implements. A passive open moves
/// SYN-RCVD -> ESTABLISHED; an active local close walks FIN-WAIT-1 ->
/// FIN-WAIT-2 -> TIME-WAIT.
#[derive(Debug, Clone, Copy, PartialEq, Eq, Structural)]
pub enum State {
    SynRcvd,
    Estab,
    FinWait1,
    FinWait2,
    TimeWait,
}

impl State {
    /// A connection is synchronized in every state except SYN-RCVD.
    pub fn is_synchronized(&self) -> (r: bool)
        ensures
            r == (*self != State::SynRcvd),
    {
        match *self {
            State::SynRcvd => false,
            State::Estab | State::FinWait1 | State::FinWait2 | State::TimeWait => true,
        }
    }
}

/// State of the send sequence space (RFC 793 S3.2 F4).
///
/// ```text
///      1         2          3          4
/// ----------|----------|----------|----------
///        SND.UNA    SND.NXT    SND.UNA
///                             +SND.WND
/// ```
#[derive(Debug, Clone, Copy, PartialEq, Eq, Structural)]
pub struct SendSequenceSpace {
    /// send unacknowledged
    pub una: u32,
    /// send next
    pub nxt: u32,
    /// send window
    pub wnd: u16,
    /// send urgent pointer
    pub up: bool,
    /// segment sequence number used for last window update
    pub wl1: usize,
    /// segment acknowledgment number used for last window update
    pub wl2: usize,
    /// initial send sequence number
    pub iss: u32,
}

/// State of the receive sequence space (RFC 793 S3.2 F5).
///
/// ```text
///    1          2          3
/// ----------|----------|----------
///       RCV.NXT    RCV.NXT
///                 +RCV.WND
/// ```
#[derive(Debug, Clone, Copy, PartialEq, Eq, Structural)]
pub struct RecvSequenceSpace {
    /// receive next
    pub nxt: u32,
    /// receive window
    pub wnd: u16,
    /// receive urgent pointer
    pub up: bool,
    /// initial receive sequence number
    pub irs: u32,
}

/// Retransmission bookkeeping: for each transmitted segment, the sequence
/// number it started at and the instant (microseconds on the caller's
/// monotonic clock) it was last sent, newest transmission winning; plus the
/// smoothed round-trip time in microseconds.
#[derive(Debug, PartialEq, Eq)]
pub struct Timers {
    pub send_times: Vec<(u32, u64)>,
    pub srtt: u64,
}

} // verus!
