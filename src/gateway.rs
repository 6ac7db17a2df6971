use vstd::prelude::*;

use crate::ipv4::Ip4;
use crate::packet::{
    be16, build_udp_frame, ipv4_header_ok, udp_frame_shape, read_ipv4_header, read_udp_ports, spec_ipv4_fields, udp_frame,
    FRAME_TTL, MAX_UDP_PAYLOAD, PROTO_UDP,
};
use vstd::slice::slice_to_vec;

verus! {

/// A NAT flow: overlay source, outside destination, protocol.
#[derive(Clone, Copy, Debug, PartialEq, Eq, Hash, Structural)]
pub struct FlowKey {
    pub src_ip: Ip4,
    pub src_port: u16,
    pub dst_ip: Ip4,
    pub dst_port: u16,
    pub protocol: u8,
}

/// What the NAT does with a frame leaving the overlay.
pub enum NatAction {
    /// Not a UDP datagram (the NAT carries UDP only; TCP is dropped).
    Drop,
    /// Send `payload` to `key.dst_ip:key.dst_port` on the flow's socket.
    Forward { key: FlowKey, payload: Vec<u8> },
    /// A new flow: bind a socket for it, start its receiver, then send
    /// `payload` to `key.dst_ip:key.dst_port`.
    Open { key: FlowKey, payload: Vec<u8> },
}

/// `p` is a well-formed IPv4 frame carrying a whole UDP header.
pub open spec fn is_udp_frame(p: Seq<u8>) -> bool {
    &&& ipv4_header_ok(p)
    &&& spec_ipv4_fields(p).protocol == PROTO_UDP
    &&& p.len() >= spec_ipv4_fields(p).header_len + 8
}

/// The flow a UDP frame belongs to.
pub open spec fn flow_of(p: Seq<u8>) -> FlowKey {
    let h = spec_ipv4_fields(p);
    let u = h.header_len as int;
    FlowKey {
        src_ip: h.source,
        src_port: be16(p[u], p[u + 1]),
        dst_ip: h.destination,
        dst_port: be16(p[u + 2], p[u + 3]),
        protocol: PROTO_UDP,
    }
}

/// The datagram payload of a UDP frame.
pub open spec fn udp_payload(p: Seq<u8>) -> Seq<u8> {
    p.subrange(spec_ipv4_fields(p).header_len + 8, p.len() as int)
}

/// The userland NAT of a gateway node: one flow per distinct tuple seen.
pub struct GatewayRouter {
    flows: Vec<FlowKey>,
    /// Every tuple this router has forwarded a frame for.
    seen: Ghost<Set<FlowKey>>,
}

impl GatewayRouter {
    pub closed spec fn wf(&self) -> bool {
        &&& self.flows@.no_duplicates()
        &&& self.seen@.finite()
        &&& forall|k: FlowKey| #[trigger] self.flows@.contains(k) ==> self.seen@.contains(k)
    }

    /// The flows with a socket.
    pub closed spec fn flows(&self) -> Set<FlowKey> {
        self.flows@.to_set()
    }

    /// The tuples seen so far.
    pub closed spec fn seen(&self) -> Set<FlowKey> {
        self.seen@
    }

    pub closed spec fn flow_count(&self) -> nat {
        self.flows@.len()
    }

    pub fn new() -> (r: GatewayRouter)
        ensures
            r.wf(),
            r.flows() == Set::<FlowKey>::empty(),
            r.seen() == Set::<FlowKey>::empty(),
            r.flow_count() == 0,
    {
        let r = GatewayRouter { flows: Vec::new(), seen: Ghost(Set::empty()) };
        assert(r.flows() =~= Set::<FlowKey>::empty());
        r
    }

    /// The flow table never holds more flows than there are distinct tuples
    /// among the frames it forwarded.
    pub proof fn lemma_flows_bounded(&self)
        requires
            self.wf(),
        ensures
            self.flow_count() == self.flows().len(),
            self.flows().subset_of(self.seen()),
            self.flow_count() <= self.seen().len(),
    {
        self.flows@.unique_seq_to_set();
        assert(self.flows().subset_of(self.seen()));
        vstd::set_lib::lemma_len_subset(self.flows(), self.seen());
    }

    pub fn len(&self) -> (r: usize)
        requires
            self.wf(),
        ensures
            r == self.flow_count(),
    {
        self.flows.len()
    }

    fn contains(&self, key: FlowKey) -> (r: bool)
        ensures
            r == self.flows@.contains(key),
    {
        let mut i: usize = 0;
        while i < self.flows.len()
            invariant
                i <= self.flows@.len(),
                forall|k: int| 0 <= k < i ==> self.flows@[k] != key,
            decreases self.flows@.len() - i,
        {
            if self.flows[i] == key {
                return true;
            }
            i = i + 1;
        }
        false
    }

    /// Handles a frame leaving the overlay. UDP frames are forwarded on
    /// their flow's socket, opening the flow on its first frame; everything
    /// else is dropped.
    pub fn handle_packet(&mut self, packet: &[u8]) -> (r: NatAction)
        requires
            old(self).wf(),
        ensures
            final(self).wf(),
            !is_udp_frame(packet@) ==> r is Drop && final(self).flows() == old(self).flows() && final(self).seen()
                == old(self).seen(),
            is_udp_frame(packet@) ==> ({
                let key = flow_of(packet@);
                &&& final(self).seen() == old(self).seen().insert(key)
                &&& final(self).flows() == old(self).flows().insert(key)
                &&& old(self).flows().contains(key) ==> (r matches NatAction::Forward { key: k, payload } && k == key
                    && payload@ == udp_payload(packet@))
                &&& !old(self).flows().contains(key) ==> (r matches NatAction::Open { key: k, payload } && k == key
                    && payload@ == udp_payload(packet@))
            }),
    {
        let h = match read_ipv4_header(packet) {
            Some(h) => h,
            None => return NatAction::Drop,
        };
        if h.protocol != PROTO_UDP {
            return NatAction::Drop;
        }
        let udp = &packet[h.header_len..packet.len()];
        let (sport, dport) = match read_udp_ports(udp) {
            Some(p) => p,
            None => return NatAction::Drop,
        };
        let key = FlowKey { src_ip: h.source, src_port: sport, dst_ip: h.destination, dst_port: dport, protocol: PROTO_UDP };
        let payload = slice_to_vec(&packet[h.header_len + 8..packet.len()]);
        proof {
            assert(key == flow_of(packet@));
            assert(payload@ =~= udp_payload(packet@));
        }
        self.seen = Ghost(self.seen@.insert(key));
        if self.contains(key) {
            assert(self.flows() =~= old(self).flows().insert(key));
            NatAction::Forward { key, payload }
        } else {
            self.flows.push(key);
            proof {
                crate::routes::lemma_push_contains(old(self).flows@, key);
                assert(self.flows() =~= old(self).flows().insert(key));
            }
            NatAction::Open { key, payload }
        }
    }

    /// The flow's socket could not be opened: the flow is forgotten.
    pub fn flow_failed(&mut self, key: FlowKey)
        requires
            old(self).wf(),
        ensures
            final(self).wf(),
            final(self).flows() == old(self).flows().remove(key),
            final(self).seen() == old(self).seen(),
    {
        let mut i: usize = 0;
        while i < self.flows.len()
            invariant
                i <= self.flows@.len(),
                self.flows@ == old(self).flows@,
                self.seen@ == old(self).seen@,
                old(self).wf(),
                forall|k: int| 0 <= k < i ==> self.flows@[k] != key,
            decreases self.flows@.len() - i,
        {
            if self.flows[i] == key {
                self.flows.remove(i);
                proof {
                    let s0 = old(self).flows@;
                    assert forall|x: FlowKey| #[trigger] self.flows@.contains(x) <==> s0.contains(x) && x != key by {
                        if self.flows@.contains(x) {
                            let k = choose|k: int| 0 <= k < self.flows@.len() && self.flows@[k] == x;
                            let k0 = if k < i { k } else { k + 1 };
                            assert(s0[k0] == x);
                            assert(k0 != i);
                        }
                        if s0.contains(x) && x != key {
                            let k = choose|k: int| 0 <= k < s0.len() && s0[k] == x;
                            let k1 = if k < i { k } else { k - 1 };
                            assert(k != i);
                            assert(self.flows@[k1] == x);
                        }
                    }
                    assert forall|a: int, b: int| 0 <= a < self.flows@.len() && 0 <= b < self.flows@.len() && a != b implies self.flows@[a]
                        != self.flows@[b] by {
                        let a0 = if a < i { a } else { a + 1 };
                        let b0 = if b < i { b } else { b + 1 };
                        assert(s0[a0] != s0[b0]);
                    }
                    assert(self.flows() =~= old(self).flows().remove(key));
                }
                return;
            }
            i = i + 1;
        }
        assert(self.flows() =~= old(self).flows().remove(key));
    }

    /// The frame that carries a datagram from the outside back to the
    /// overlay host of flow `key`: from `remote:remote_port` to the flow's
    /// source address and port.
    pub fn return_frame(key: FlowKey, remote: Ip4, remote_port: u16, payload: &[u8]) -> (r: Option<Vec<u8>>)
        ensures
            r is Some <==> payload@.len() <= MAX_UDP_PAYLOAD,
            r matches Some(f) ==> f@ == udp_frame(remote, key.src_ip, FRAME_TTL, remote_port, key.src_port, payload@)
                && udp_frame_shape(f@, remote, key.src_ip, payload@),
    {
        build_udp_frame(remote, key.src_ip, FRAME_TTL, remote_port, key.src_port, payload)
    }
}

} // verus!
