//! Data plane of a peer-to-peer overlay network: the tables a node keeps
//! (peers, routes, tunneled streams, NAT flows), the decisions it makes on
//! every frame and control message, and the wire encodings it speaks.
//! Sockets, the virtual interface and the async runtime live with the
//! embedding program; everything here is plain values in, plain values out.

pub mod broadcast;
pub mod codec;
pub mod gateway;
pub mod ipv4;
pub mod packet;
pub mod node;
pub mod p2p;
pub mod peers;
pub mod routes;
pub mod signaling;
pub mod socks5;
pub mod text;
