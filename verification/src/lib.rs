//! A user-space TCP endpoint: wrap-aware sequence arithmetic, the RFC 793
//! connection state machine, retransmission bookkeeping, and the shared
//! connection manager that demultiplexes inbound segments.
//!
//! Frame I/O against the TUN device, threads and condition variables live in
//! the surrounding application; this crate holds the verified engine.
use vstd::prelude::*;

pub mod codec;
pub mod connection;
pub mod laws;
pub mod manager;
pub mod tcp;
pub mod wrap_arith;

verus! {

/// The four-tuple identifying a connection: source and destination address
/// (IPv4, big-endian packed) with their ports. Immutable after construction.
#[derive(Debug, Clone, Copy, PartialEq, Eq, Structural)]
pub struct Quad {
    pub src_ip: u32,
    pub src_port: u16,
    pub dst_ip: u32,
    pub dst_port: u16,
}

/// Error kinds surfaced to the user of the endpoint.
#[derive(Debug, Clone, Copy, PartialEq, Eq, Structural)]
pub enum TcpError {
    /// Binding a port that already has a pending-accept queue.
    AddrInUse,
    /// Closing a connection already past the outbound half of ESTABLISHED.
    NotConnected,
    /// Reserved for non-blocking modes.
    WouldBlock,
    /// Operating on a quad the manager does not know.
    ConnectionReset,
}

/// Soft cap on bytes queued for sending on one connection.
pub const SENDQUEUE_SIZE: usize = 1024;

} // verus!
