use vstd::prelude::*;

use crate::ipv4::Ip4;
use etherparse::{Ipv4HeaderSlice, PacketBuilder, UdpHeaderSlice};

verus! {

/// IP protocol number of UDP.
pub const PROTO_UDP: u8 = 17;

/// Time to live of the frames this node makes.
pub const FRAME_TTL: u8 = 20;

/// Size of an IPv4 header without options plus a UDP header.
pub const UDP_FRAME_OVERHEAD: usize = 28;

/// The largest UDP payload an IPv4 frame can carry.
pub const MAX_UDP_PAYLOAD: usize = 65507;

/// The fields of an IPv4 header that routing reads.
#[derive(Clone, Copy, Debug, PartialEq, Eq, Structural)]
pub struct Ipv4Fields {
    /// Length of the header with its options, in bytes.
    pub header_len: usize,
    pub protocol: u8,
    pub source: Ip4,
    pub destination: Ip4,
}

/// `p` starts with a well-formed IPv4 header: at least 20 bytes, version 4,
/// a header length field of at least 5 words, and the whole header present.
pub open spec fn ipv4_header_ok(p: Seq<u8>) -> bool {
    &&& p.len() >= 20
    &&& p[0] / 16 == 4
    &&& p[0] % 16 >= 5
    &&& p.len() >= (p[0] % 16) * 4
}

pub open spec fn spec_ipv4_fields(p: Seq<u8>) -> Ipv4Fields {
    Ipv4Fields {
        header_len: ((p[0] % 16) * 4) as usize,
        protocol: p[9],
        source: Ip4 { a: p[12], b: p[13], c: p[14], d: p[15] },
        destination: Ip4 { a: p[16], b: p[17], c: p[18], d: p[19] },
    }
}

/// Relies on etherparse's `Ipv4HeaderSlice::from_slice`, which accepts exactly
/// the slices that start with a well-formed header, and on its accessors,
/// which read the fields at their fixed offsets.
#[verifier::external_body]
pub(crate) fn read_ipv4_header(packet: &[u8]) -> (r: Option<Ipv4Fields>)
    ensures
        r is Some <==> ipv4_header_ok(packet@),
        r matches Some(h) ==> h == spec_ipv4_fields(packet@),
{
    match Ipv4HeaderSlice::from_slice(packet) {
        Ok(h) => Some(
            Ipv4Fields {
                header_len: h.slice().len(),
                protocol: h.protocol().0,
                source: Ip4::from_octets(h.source()),
                destination: Ip4::from_octets(h.destination()),
            },
        ),
        Err(_) => None,
    }
}

/// A big-endian 16-bit number.
pub open spec fn be16(hi: u8, lo: u8) -> u16 {
    (hi as int * 256 + lo as int) as u16
}

/// Relies on etherparse's `UdpHeaderSlice::from_slice`, which accepts any
/// slice of at least 8 bytes, and its port accessors, which read the first
/// two big-endian 16-bit fields.
#[verifier::external_body]
pub(crate) fn read_udp_ports(segment: &[u8]) -> (r: Option<(u16, u16)>)
    ensures
        r is Some <==> segment@.len() >= 8,
        r matches Some((s, d)) ==> s == be16(segment@[0], segment@[1]) && d == be16(segment@[2], segment@[3]),
{
    match UdpHeaderSlice::from_slice(segment) {
        Ok(h) => Some((h.source_port(), h.destination_port())),
        Err(_) => None,
    }
}

/// The IPv4 frame with a UDP datagram that etherparse's `PacketBuilder`
/// writes; its checksums are what the builder computes.
pub uninterp spec fn udp_frame(
    src: Ip4,
    dst: Ip4,
    ttl: u8,
    src_port: u16,
    dst_port: u16,
    payload: Seq<u8>,
) -> Seq<u8>;

/// `f` is an IPv4 frame from `src` to `dst` with a 20-byte header, protocol
/// UDP, an 8-byte UDP header and then `payload`.
pub open spec fn udp_frame_shape(f: Seq<u8>, src: Ip4, dst: Ip4, payload: Seq<u8>) -> bool {
    &&& f.len() == UDP_FRAME_OVERHEAD + payload.len()
    &&& f.subrange(UDP_FRAME_OVERHEAD as int, f.len() as int) == payload
    &&& ipv4_header_ok(f)
    &&& spec_ipv4_fields(f) == (Ipv4Fields { header_len: 20, protocol: PROTO_UDP, source: src, destination: dst })
}

/// Relies on etherparse's `PacketBuilder::ipv4(..).udp(..).write`: it writes
/// a 20-byte IPv4 header with the given addresses and protocol UDP, an 8-byte
/// UDP header and the payload, and fails only when the payload is too long for
/// the length fields.
#[verifier::external_body]
pub(crate) fn build_udp_frame(src: Ip4, dst: Ip4, ttl: u8, src_port: u16, dst_port: u16, payload: &[u8]) -> (r:
    Option<Vec<u8>>)
    ensures
        r is Some <==> payload@.len() <= MAX_UDP_PAYLOAD,
        r matches Some(f) ==> f@ == udp_frame(src, dst, ttl, src_port, dst_port, payload@) && udp_frame_shape(
            f@,
            src,
            dst,
            payload@,
        ),
{
    let builder = PacketBuilder::ipv4(src.octets(), dst.octets(), ttl).udp(src_port, dst_port);
    let mut frame = Vec::<u8>::with_capacity(payload.len() + UDP_FRAME_OVERHEAD);
    match builder.write(&mut frame, payload) {
        Ok(()) => Some(frame),
        Err(_) => None,
    }
}

} // verus!
