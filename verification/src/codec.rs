//! The frame codec surface: parsing inbound IPv4 and TCP headers and
//! encoding outbound IPv4+TCP datagrams.
//!
//! The byte-level work is done by the `etherparse` crate behind the three
//! trusted wrappers below; the engine only ever sees the plain header fields
//! collected in [`Ipv4Info`] and [`TcpInfo`]. Each parse or encode result is
//! a function of the input bytes alone, so it is given an uninterpreted name
//! that the wrappers' contracts share.
use vstd::prelude::*;

verus! {

/// The fields of a parsed IPv4 header that the engine reads. Addresses are
/// packed big-endian into `u32`.
#[derive(Debug, Clone, Copy, PartialEq, Eq, Structural)]
pub struct Ipv4Info {
    pub src: u32,
    pub dst: u32,
    pub protocol: u8,
    pub header_len: usize,
}

/// The fields of a parsed TCP header that the engine reads.
#[derive(Debug, Clone, Copy, PartialEq, Eq, Structural)]
pub struct TcpInfo {
    pub src_port: u16,
    pub dst_port: u16,
    pub seqn: u32,
    pub ackn: u32,
    pub wnd: u16,
    pub syn: bool,
    pub ack: bool,
    pub fin: bool,
    pub header_len: usize,
}

/// What parsing a byte sequence as an IPv4 header yields; determined by the
/// bytes alone.
pub uninterp spec fn ipv4_parse_of(b: Seq<u8>) -> Option<Ipv4Info>;

/// What parsing a byte sequence as a TCP header yields; determined by the
/// bytes alone.
pub uninterp spec fn tcp_parse_of(b: Seq<u8>) -> Option<TcpInfo>;

/// The serialized IPv4+TCP datagram (20-byte option-less headers, checksums
/// filled in) for the given header fields and payload; determined by its
/// arguments alone.
pub uninterp spec fn datagram_of(
    src_ip: u32,
    dst_ip: u32,
    ttl: u8,
    src_port: u16,
    dst_port: u16,
    seqn: u32,
    ackn: u32,
    ack: bool,
    syn: bool,
    fin: bool,
    wnd: u16,
    payload: Seq<u8>,
) -> Seq<u8>;

/// Relies on `etherparse::Ipv4HeaderSlice::from_slice`: it validates version,
/// header length and slice length, and on success exposes a header slice of
/// `ihl * 4` bytes, at least 20 and no longer than the input.
#[verifier::external_body]
pub fn parse_ipv4(buf: &[u8]) -> (r: Option<Ipv4Info>)
    ensures
        r == ipv4_parse_of(buf@),
        r is Some ==> 20 <= r.unwrap().header_len <= buf@.len(),
{
    match etherparse::Ipv4HeaderSlice::from_slice(buf) {
        Ok(h) => Some(Ipv4Info {
            src: u32::from_be_bytes(h.source()),
            dst: u32::from_be_bytes(h.destination()),
            protocol: h.protocol().0,
            header_len: h.slice().len(),
        }),
        Err(_) => None,
    }
}

/// Relies on `etherparse::TcpHeaderSlice::from_slice`: it validates the data
/// offset and slice length, and on success exposes a header slice of
/// `data_offset * 4` bytes, at least 20 and no longer than the input.
#[verifier::external_body]
pub fn parse_tcp(buf: &[u8]) -> (r: Option<TcpInfo>)
    ensures
        r == tcp_parse_of(buf@),
        r is Some ==> 20 <= r.unwrap().header_len <= buf@.len(),
{
    match etherparse::TcpHeaderSlice::from_slice(buf) {
        Ok(h) => Some(TcpInfo {
            src_port: h.source_port(),
            dst_port: h.destination_port(),
            seqn: h.sequence_number(),
            ackn: h.acknowledgment_number(),
            wnd: h.window_size(),
            syn: h.syn(),
            ack: h.ack(),
            fin: h.fin(),
            header_len: h.slice().len(),
        }),
        Err(_) => None,
    }
}

/// Relies on `etherparse::Ipv4Header::new` and `write` (option-less 20-byte
/// header, checksum computed on write), `etherparse::TcpHeader::new` and
/// `write` (option-less 20-byte header) and `TcpHeader::calc_checksum_ipv4`
/// (pseudo-header checksum over the payload). Both constructors accept any
/// payload below the 1460-byte cap, so no call here fails.
#[verifier::external_body]
pub fn encode_frame(
    src_ip: u32,
    dst_ip: u32,
    ttl: u8,
    src_port: u16,
    dst_port: u16,
    seqn: u32,
    ackn: u32,
    ack: bool,
    syn: bool,
    fin: bool,
    wnd: u16,
    ip_payload_len: u16,
    payload: &[u8],
) -> (r: Vec<u8>)
    requires
        payload@.len() <= 1460,
        ip_payload_len == 20 + payload@.len(),
    ensures
        r@ == datagram_of(src_ip, dst_ip, ttl, src_port, dst_port, seqn, ackn, ack, syn, fin, wnd, payload@),
        r@.len() == 40 + payload@.len(),
{
    let mut tcp = etherparse::TcpHeader::new(src_port, dst_port, seqn, wnd);
    tcp.acknowledgment_number = ackn;
    tcp.ack = ack;
    tcp.syn = syn;
    tcp.fin = fin;
    let ip = etherparse::Ipv4Header::new(ip_payload_len, ttl, etherparse::IpNumber::TCP, src_ip.to_be_bytes(), dst_ip.to_be_bytes())
        .expect("payload length below the IPv4 cap");
    tcp.checksum = tcp.calc_checksum_ipv4(&ip, payload).expect("payload length below the TCP cap");
    let mut out: Vec<u8> = Vec::new();
    ip.write(&mut out).expect("writing to a Vec cannot fail");
    tcp.write(&mut out).expect("writing to a Vec cannot fail");
    out.extend_from_slice(payload);
    out
}

} // verus!
