use vstd::prelude::*;

use crate::broadcast::{spec_group_for_port, BroadcastReflector};
use crate::codec::{base64_bytes, base64_text, decode_base64, encode_base64};
use crate::ipv4::{dotted, Ip4};
use crate::packet::{
    build_udp_frame, ipv4_header_ok, udp_frame_shape, read_ipv4_header, spec_ipv4_fields, udp_frame, FRAME_TTL, MAX_UDP_PAYLOAD,
    PROTO_UDP,
};
use crate::peers::{is_listing, spec_joined, P2PEvent, PeerInfo, PeerTable, RouteStatus};
use crate::routes::{build_routes, lemma_routes_cover_advertised, routes_of, RouteManager, RoutePlan, RouteTable};
use crate::signaling::{ServiceDecl, SignalMessage};
use crate::text::str_eq;

verus! {

/// What to do with a frame read from the virtual interface.
pub enum Outbound {
    /// The destination is an overlay peer: try its direct session, and relay
    /// if there is none or the send fails (see `Node::send_to_peer`).
    ToPeer { peer_id: String },
    /// Send this frame through the rendezvous service.
    Relay(SignalMessage),
    /// Hand the frame to the userland NAT.
    Gateway,
    /// Drop the frame.
    Drop,
}

/// How a frame for a known peer goes out.
pub enum PeerSend {
    /// Over the direct session.
    Direct,
    /// As this relayed frame; `dial` names the peer's direct endpoint when a
    /// new connection attempt should start.
    Relay { msg: SignalMessage, dial: Option<(String, u16)> },
    /// Nowhere: there is neither a direct session nor a rendezvous channel.
    Drop,
}

/// The rendezvous frame that relays `frame` to peer `target`.
pub open spec fn is_tun_packet(m: SignalMessage, target: Seq<char>, source: Seq<char>, frame: Seq<u8>) -> bool {
    m matches SignalMessage::TunPacket { target: t, source: s, data } && t@ == target && s@ == source && data@
        == base64_text(frame)
}

/// The rendezvous frame that floods `frame` to the group.
pub open spec fn is_broadcast_of(m: SignalMessage, source: Seq<char>, frame: Seq<u8>) -> bool {
    m matches SignalMessage::Broadcast { source: s, data } && s@ == source && data@ == base64_text(frame)
}

/// The direct endpoint a peer advertised, if it advertised a usable one.
pub open spec fn spec_dial_target(p: PeerInfo) -> Option<(Seq<char>, u16)> {
    match p.public_addr {
        Some(a) => if p.p2p_port > 0 && a@ != "unknown"@ {
            Some((a@, p.p2p_port))
        } else {
            None
        },
        None => None,
    }
}

pub fn dial_target(p: &PeerInfo) -> (r: Option<(String, u16)>)
    ensures
        r matches Some((a, port)) ==> spec_dial_target(*p) == Some((a@, port)),
        r is None ==> spec_dial_target(*p) is None,
{
    let unknown = "unknown";
    match &p.public_addr {
        Some(a) => {
            if p.p2p_port > 0 && !crate::text::str_eq(a.as_str(), unknown) {
                Some((a.clone(), p.p2p_port))
            } else {
                None
            }
        },
        None => None,
    }
}

/// Whether a node runs the userland NAT: when it is a gateway or declares
/// services.
pub fn gateway_enabled(is_gateway: bool, services: &Vec<ServiceDecl>) -> (r: bool)
    ensures
        r == (is_gateway || services@.len() > 0),
{
    is_gateway || services.len() > 0
}

/// The node supervisor: the single owner of the peer, route and stream
/// tables, which turns every event into table updates and actions.
pub struct Node {
    pub my_id: String,
    pub my_ip: Ip4,
    /// Whether this node is a NAT gateway for frames leaving the overlay.
    pub gateway: bool,
    /// Whether the rendezvous channel is up.
    pub relay: bool,
    pub peers: PeerTable,
    pub routes: RouteTable,
    pub route_manager: RouteManager,
    /// Target-side tunneled streams, by initiating peer and stream id.
    pub incoming: Vec<(String, u32)>,
    /// Handles of the tasks this node started.
    pub tasks: Vec<u64>,
}

/// The pair of views of a target-side stream key.
pub open spec fn key_view(k: (String, u32)) -> (Seq<char>, u32) {
    (k.0@, k.1)
}

pub open spec fn keys_of(v: Seq<(String, u32)>) -> Seq<(Seq<char>, u32)> {
    v.map_values(|k: (String, u32)| key_view(k))
}

/// The destination address of a frame with a well-formed header.
pub open spec fn frame_dest(frame: Seq<u8>) -> Ip4 {
    spec_ipv4_fields(frame).destination
}

impl Node {
    pub open spec fn wf(&self) -> bool {
        &&& self.peers.wf()
        &&& self.routes.wf()
        &&& self.route_manager.wf()
    }

    /// The target-side streams that are open.
    pub open spec fn incoming_streams(&self) -> Set<(Seq<char>, u32)> {
        keys_of(self.incoming@).to_set()
    }

    /// The handles of the tasks started and not yet stopped.
    pub open spec fn task_set(&self) -> Set<u64> {
        self.tasks@.to_set()
    }

    /// The peer mapping, by id.
    pub open spec fn peer_map(&self) -> Map<Seq<char>, PeerInfo> {
        self.peers@
    }

    /// The route mapping, from advertised address to peer id.
    pub open spec fn route_map(&self) -> Map<Ip4, Seq<char>> {
        self.routes@
    }

    /// The host routes in place.
    pub open spec fn applied_routes(&self) -> Set<Ip4> {
        self.route_manager.applied().to_set()
    }

    /// Some peer has the overlay address `ip`.
    pub open spec fn has_peer_at(&self, ip: Ip4) -> bool {
        exists|id: Seq<char>| #[trigger] self.peer_map().contains_key(id) && self.peer_map()[id].ip@ == dotted(ip)
    }

    pub fn new(my_id: String, my_ip: Ip4, gateway: bool, relay: bool) -> (r: Node)
        ensures
            r.wf(),
            r.my_id == my_id,
            r.my_ip == my_ip,
            r.gateway == gateway,
            r.relay == relay,
            r.peer_map() == Map::<Seq<char>, PeerInfo>::empty(),
            r.route_map() == Map::<Ip4, Seq<char>>::empty(),
            r.applied_routes() == Set::<Ip4>::empty(),
            r.incoming_streams() == Set::<(Seq<char>, u32)>::empty(),
            r.task_set() == Set::<u64>::empty(),
    {
        let local = my_ip.to_text();
        let r = Node {
            my_id,
            my_ip,
            gateway,
            relay,
            peers: PeerTable::new(),
            routes: RouteTable::new(),
            route_manager: RouteManager::new(local),
            incoming: Vec::new(),
            tasks: Vec::new(),
        };
        assert(r.route_manager.applied().to_set() =~= Set::<Ip4>::empty());
        assert(r.incoming_streams() =~= Set::<(Seq<char>, u32)>::empty());
        assert(r.task_set() =~= Set::<u64>::empty());
        r
    }

    /// Decides where a frame read from the virtual interface goes:
    /// an overlay unicast to a known peer goes to that peer; a UDP frame for
    /// an address that a peer advertised is relayed to it; other traffic
    /// leaving the overlay (including non-UDP frames for advertised
    /// addresses) goes to the NAT on a gateway; broadcast, multicast
    /// and unresolved overlay traffic is flooded through the rendezvous.
    pub fn classify_outbound(&self, frame: &[u8]) -> (r: Outbound)
        requires
            self.wf(),
        ensures
            !ipv4_header_ok(frame@) ==> r is Drop,
            ipv4_header_ok(frame@) ==> ({
                let d = frame_dest(frame@);
                let vpn = d.spec_in_overlay();
                let bcast = d.spec_is_broadcast() || d.spec_is_multicast();
                if vpn && !bcast && self.has_peer_at(d) {
                    r matches Outbound::ToPeer { peer_id } && self.peer_map().contains_key(peer_id@)
                        && self.peer_map()[peer_id@].ip@ == dotted(d)
                } else if !vpn && !bcast && self.route_map().contains_key(d) && spec_ipv4_fields(frame@).protocol
                    == PROTO_UDP {
                    if self.relay {
                        r matches Outbound::Relay(m) && is_tun_packet(m, self.route_map()[d], self.my_id@, frame@)
                    } else {
                        r is Drop
                    }
                } else if !vpn && !bcast && self.gateway {
                    r is Gateway
                } else if (vpn || bcast) && self.relay {
                    r matches Outbound::Relay(m) && is_broadcast_of(m, self.my_id@, frame@)
                } else {
                    r is Drop
                }
            }),
    {
        let h = match read_ipv4_header(frame) {
            Some(h) => h,
            None => return Outbound::Drop,
        };
        let d = h.destination;
        let vpn = d.in_overlay();
        let bcast = d.is_broadcast() || d.is_multicast();
        if vpn && !bcast {
            match self.peers.find_by_ip(d) {
                Some(p) => {
                    return Outbound::ToPeer { peer_id: p.id.clone() };
                },
                None => {},
            }
        }
        if !vpn && !bcast {
            if h.protocol == PROTO_UDP {
                match self.routes.get(d) {
                    Some(peer) => {
                        if self.relay {
                            let data = encode_base64(frame);
                            return Outbound::Relay(
                                SignalMessage::TunPacket { target: peer.clone(), source: self.my_id.clone(), data },
                            );
                        }
                        return Outbound::Drop;
                    },
                    None => {},
                }
            }
            if self.gateway {
                return Outbound::Gateway;
            }
        }
        if (vpn || bcast) && self.relay {
            let data = encode_base64(frame);
            return Outbound::Relay(SignalMessage::Broadcast { source: self.my_id.clone(), data });
        }
        Outbound::Drop
    }

    /// Decides how a frame for peer `peer_id` goes out, given whether a direct
    /// session to it exists: over that session if there is one, else relayed,
    /// with a connection attempt when the peer advertised an endpoint.
    pub fn send_to_peer(&self, peer_id: &str, frame: &[u8], has_session: bool) -> (r: PeerSend)
        requires
            self.wf(),
        ensures
            has_session ==> r is Direct,
            !has_session ==> self.spec_relay_to_peer(peer_id@, frame@, r),
    {
        if has_session {
            PeerSend::Direct
        } else {
            self.relay_to_peer(peer_id, frame)
        }
    }

    /// What a relayed send of `frame` to `peer_id` is: a `TunPacket` when the
    /// rendezvous channel is up, else nothing; with the peer's advertised
    /// endpoint to dial, if it has one.
    pub open spec fn spec_relay_to_peer(&self, peer_id: Seq<char>, frame: Seq<u8>, r: PeerSend) -> bool {
        if self.relay {
            r matches PeerSend::Relay { msg, dial } && is_tun_packet(msg, peer_id, self.my_id@, frame) && (
            if self.peer_map().contains_key(peer_id) {
                match spec_dial_target(self.peer_map()[peer_id]) {
                    Some((a, port)) => dial matches Some((a2, p2)) && a2@ == a && p2 == port,
                    None => dial is None,
                }
            } else {
                dial is None
            })
        } else {
            r is Drop
        }
    }

    /// The fallback after a direct send to `peer_id` failed: the frame is
    /// relayed instead.
    pub fn relay_to_peer(&self, peer_id: &str, frame: &[u8]) -> (r: PeerSend)
        requires
            self.wf(),
        ensures
            self.spec_relay_to_peer(peer_id@, frame@, r),
    {
        if !self.relay {
            return PeerSend::Drop;
        }
        let data = encode_base64(frame);
        let msg = SignalMessage::TunPacket { target: peer_id.to_string(), source: self.my_id.clone(), data };
        let dial = match self.peers.get(peer_id) {
            Some(p) => dial_target(p),
            None => None,
        };
        PeerSend::Relay { msg, dial }
    }

    /// A peer joined: records it (keeping a known peer's route status) and
    /// returns its direct endpoint to dial, if it advertised a usable one,
    /// and the new peer list.
    pub fn on_peer_joined(&mut self, info: PeerInfo) -> (r: (Option<(String, u16)>, Vec<PeerInfo>))
        requires
            old(self).wf(),
        ensures
            final(self).wf(),
            final(self).peer_map() == spec_joined(old(self).peer_map(), info),
            final(self).route_map() == old(self).route_map(),
            final(self).applied_routes() == old(self).applied_routes(),
            final(self).my_id == old(self).my_id,
            final(self).relay == old(self).relay,
            match spec_dial_target(info) {
                Some((a, port)) => r.0 matches Some((a2, p2)) && a2@ == a && p2 == port,
                None => r.0 is None,
            },
            is_listing(r.1@, final(self).peer_map()),
    {
        let dial = dial_target(&info);
        self.peers.on_joined(info);
        let list = self.peers.snapshot();
        (dial, list)
    }

    /// A peer left: forgets it and returns the new peer list.
    pub fn on_peer_left(&mut self, id: &str) -> (r: Vec<PeerInfo>)
        requires
            old(self).wf(),
        ensures
            final(self).wf(),
            final(self).peer_map() == old(self).peer_map().remove(id@),
            final(self).route_map() == old(self).route_map(),
            final(self).applied_routes() == old(self).applied_routes(),
            final(self).my_id == old(self).my_id,
            final(self).relay == old(self).relay,
            is_listing(r@, final(self).peer_map()),
    {
        self.peers.on_left(id);
        self.peers.snapshot()
    }

    /// A direct session to a peer came up or went down: the peer's route
    /// status follows. Returns the new peer list if the peer is known.
    pub fn on_p2p_event(&mut self, ev: &P2PEvent) -> (r: Option<Vec<PeerInfo>>)
        requires
            old(self).wf(),
        ensures
            final(self).wf(),
            final(self).route_map() == old(self).route_map(),
            final(self).applied_routes() == old(self).applied_routes(),
            final(self).my_id == old(self).my_id,
            final(self).relay == old(self).relay,
            ({
                let (id, st) = match *ev {
                    P2PEvent::Connected(id) => (id@, RouteStatus::Direct),
                    P2PEvent::Disconnected(id) => (id@, RouteStatus::Relay),
                };
                if old(self).peer_map().contains_key(id) {
                    &&& final(self).peer_map() == old(self).peer_map().insert(id, old(self).peer_map()[id].with_status(st))
                    &&& r matches Some(list) && is_listing(list@, final(self).peer_map())
                } else {
                    final(self).peer_map() == old(self).peer_map() && r is None
                }
            }),
    {
        let known = match ev {
            P2PEvent::Connected(id) => self.peers.set_status(id.as_str(), RouteStatus::Direct),
            P2PEvent::Disconnected(id) => self.peers.set_status(id.as_str(), RouteStatus::Relay),
        };
        if known {
            Some(self.peers.snapshot())
        } else {
            None
        }
    }

    /// A service update arrived: the route mapping is rebuilt from it, and the
    /// host routes are brought in step, so that afterwards the applied host
    /// routes are exactly the mapping's addresses. Returns the host changes.
    pub fn on_service_update(&mut self, services: &Vec<(String, ServiceDecl)>) -> (plan: RoutePlan)
        requires
            old(self).wf(),
        ensures
            final(self).wf(),
            final(self).route_map() == routes_of(services@, old(self).my_id@, old(self).my_ip),
            !final(self).route_map().contains_key(old(self).my_ip),
            final(self).applied_routes() == final(self).route_map().dom(),
            forall|ip: Ip4| #[trigger] final(self).route_map().contains_key(ip) ==> final(self).route_map()[ip] != old(self).my_id@,
            final(self).peer_map() == old(self).peer_map(),
            final(self).my_id == old(self).my_id,
            final(self).relay == old(self).relay,
            forall|ip: Ip4|
                #![trigger plan.remove@.contains(ip)]
                #![trigger old(self).applied_routes().contains(ip)]
                plan.remove@.contains(ip) <==> old(self).applied_routes().contains(ip) && !final(self).route_map().contains_key(ip),
            forall|ip: Ip4|
                #![trigger plan.add@.contains(ip)]
                #![trigger final(self).route_map().contains_key(ip)]
                plan.add@.contains(ip) <==> final(self).route_map().contains_key(ip) && !old(self).applied_routes().contains(ip),
    {
        let (table, ips) = build_routes(services, self.my_id.as_str(), self.my_ip);
        self.routes = table;
        let plan = self.route_manager.update_routes(&ips);
        proof {
            lemma_routes_cover_advertised(services@, self.my_id@, self.my_ip);
            assert forall|ip: Ip4| ips@.contains(ip) <==> ips@.to_set().contains(ip) by {}
            assert forall|ip: Ip4| old(self).route_manager.applied().contains(ip) <==> old(self).applied_routes().contains(ip) by {}
            assert forall|ip: Ip4| self.routes@.contains_key(ip) <==> ips@.contains(ip) by {
                assert(self.routes@.dom().contains(ip) == ips@.to_set().contains(ip));
            }
            assert forall|ip: Ip4| plan.remove@.contains(ip) <==> old(self).applied_routes().contains(ip)
                && !self.routes@.contains_key(ip) by {
                assert(self.routes@.contains_key(ip) <==> ips@.contains(ip));
                assert(old(self).route_manager.applied().contains(ip) <==> old(self).applied_routes().contains(ip));
            }
            assert forall|ip: Ip4| plan.add@.contains(ip) <==> self.routes@.contains_key(ip)
                && !old(self).applied_routes().contains(ip) by {
                assert(self.routes@.contains_key(ip) <==> ips@.contains(ip));
                assert(old(self).route_manager.applied().contains(ip) <==> old(self).applied_routes().contains(ip));
            }
        }
        plan
    }

    /// A host route could not be added: it is not recorded as applied.
    pub fn route_add_failed(&mut self, ip: Ip4)
        requires
            old(self).wf(),
        ensures
            final(self).wf(),
            final(self).applied_routes() == old(self).applied_routes().remove(ip),
            final(self).route_map() == old(self).route_map(),
            final(self).peer_map() == old(self).peer_map(),
    {
        self.route_manager.route_add_failed(ip);
    }

    /// A relayed frame arrived (`Broadcast` when `flooded`, else `TunPacket`):
    /// returns the frame to write to the virtual interface, or `None` for a
    /// flood that this node sent itself or data that is not base64.
    pub fn on_relayed_frame(&self, source: &str, data: &str, flooded: bool) -> (r: Option<Vec<u8>>)
        ensures
            flooded && source@ == self.my_id@ ==> r is None,
            !(flooded && source@ == self.my_id@) ==> match base64_bytes(data@) {
                Some(b) => r matches Some(v) && v@ == b,
                None => r is None,
            },
    {
        if flooded && str_eq(source, self.my_id.as_str()) {
            return None;
        }
        decode_base64(data)
    }

    /// The embedder updated this node's services: the frame that publishes
    /// them, if the rendezvous channel is up.
    pub fn register_services(&self, services: Vec<ServiceDecl>) -> (r: Option<SignalMessage>)
        ensures
            self.relay ==> (r matches Some(SignalMessage::RegisterServices { id, services: s }) && id@ == self.my_id@
                && s == services),
            !self.relay ==> r is None,
    {
        if self.relay {
            Some(SignalMessage::RegisterServices { id: self.my_id.clone(), services })
        } else {
            None
        }
    }

    fn incoming_index(&self, source: &str, stream_id: u32) -> (r: Option<usize>)
        ensures
            r matches Some(i) ==> i < self.incoming@.len() && key_view(self.incoming@[i as int]) == (source@, stream_id),
            r is None ==> !self.incoming_streams().contains((source@, stream_id)),
    {
        let mut i: usize = 0;
        while i < self.incoming.len()
            invariant
                i <= self.incoming@.len(),
                forall|k: int| 0 <= k < i ==> key_view(self.incoming@[k]) != (source@, stream_id),
            decreases self.incoming@.len() - i,
        {
            if self.incoming[i].1 == stream_id && str_eq(self.incoming[i].0.as_str(), source) {
                return Some(i);
            }
            i = i + 1;
        }
        proof {
            if self.incoming_streams().contains((source@, stream_id)) {
                let m = keys_of(self.incoming@);
                let j = choose|j: int| 0 <= j < m.len() && m[j] == (source@, stream_id);
                assert(key_view(self.incoming@[j]) == (source@, stream_id));
            }
        }
        None
    }

    /// A peer asked this node to open a tunneled stream: the stream is
    /// recorded if the rendezvous channel is up (the dial happens outside).
    /// Returns whether it was recorded.
    pub fn on_tcp_connect(&mut self, source: &str, stream_id: u32) -> (r: bool)
        requires
            old(self).wf(),
        ensures
            final(self).wf(),
            r == old(self).relay,
            r ==> final(self).incoming_streams() == old(self).incoming_streams().insert((source@, stream_id)),
            !r ==> final(self).incoming_streams() == old(self).incoming_streams(),
            final(self).peer_map() == old(self).peer_map(),
            final(self).route_map() == old(self).route_map(),
            final(self).applied_routes() == old(self).applied_routes(),
            final(self).task_set() == old(self).task_set(),
            final(self).my_id == old(self).my_id,
            final(self).relay == old(self).relay,
    {
        if !self.relay {
            return false;
        }
        if self.incoming_index(source, stream_id).is_none() {
            self.incoming.push((source.to_string(), stream_id));
            proof {
                let m0 = keys_of(old(self).incoming@);
                let m1 = keys_of(self.incoming@);
                assert(m1 =~= m0.push((source@, stream_id)));
                m0.lemma_push_to_set_commute((source@, stream_id));
            }
        } else {
            proof {
                let i = choose|i: int| 0 <= i < self.incoming@.len() && key_view(self.incoming@[i]) == (source@, stream_id);
                assert(keys_of(self.incoming@)[i] == (source@, stream_id));
                assert(self.incoming_streams().contains((source@, stream_id)));
            }
            assert(self.incoming_streams() =~= old(self).incoming_streams().insert((source@, stream_id)));
        }
        true
    }

    /// Payload for a tunneled stream arrived: returns its bytes (if the data
    /// is base64) and whether this node is the target side of that stream.
    /// The initiator side, if any, is the SOCKS5 bridge's to route.
    pub fn on_tcp_data(&self, source: &str, stream_id: u32, data: &str) -> (r: Option<(Vec<u8>, bool)>)
        ensures
            match base64_bytes(data@) {
                Some(b) => r matches Some((v, t)) && v@ == b && t == self.incoming_streams().contains((source@, stream_id)),
                None => r is None,
            },
    {
        match decode_base64(data) {
            Some(bytes) => {
                let to_target = self.incoming_index(source, stream_id).is_some();
                proof {
                    if to_target {
                        let i = choose|i: int| 0 <= i < self.incoming@.len() && key_view(self.incoming@[i]) == (source@, stream_id);
                        let m = keys_of(self.incoming@);
                        assert(m[i] == (source@, stream_id));
                    }
                }
                Some((bytes, to_target))
            },
            None => None,
        }
    }

    /// A tunneled stream was closed by `source`: the target-side record goes.
    pub fn on_tcp_close(&mut self, source: &str, stream_id: u32)
        requires
            old(self).wf(),
        ensures
            final(self).wf(),
            final(self).incoming_streams() == old(self).incoming_streams().remove((source@, stream_id)),
            final(self).peer_map() == old(self).peer_map(),
            final(self).route_map() == old(self).route_map(),
            final(self).applied_routes() == old(self).applied_routes(),
            final(self).task_set() == old(self).task_set(),
            final(self).my_id == old(self).my_id,
            final(self).relay == old(self).relay,
    {
        let ghost key = (source@, stream_id);
        let mut kept: Vec<(String, u32)> = Vec::new();
        let mut i: usize = 0;
        while i < self.incoming.len()
            invariant
                i <= self.incoming@.len(),
                self.incoming@ == old(self).incoming@,
                key == (source@, stream_id),
                forall|x: (Seq<char>, u32)| #[trigger] keys_of(kept@).contains(x) <==> x != key
                    && keys_of(self.incoming@.subrange(0, i as int)).contains(x),
            decreases self.incoming@.len() - i,
        {
            let e = &self.incoming[i];
            let same = e.1 == stream_id && str_eq(e.0.as_str(), source);
            let ghost k0 = keys_of(kept@);
            let ghost p0 = keys_of(self.incoming@.subrange(0, i as int));
            proof {
                assert(keys_of(self.incoming@.subrange(0, i + 1)) =~= p0.push(key_view(self.incoming@[i as int])));
                crate::routes::lemma_push_contains(p0, key_view(self.incoming@[i as int]));
                crate::routes::lemma_push_contains(k0, key_view(self.incoming@[i as int]));
            }
            let ghost v = key_view(self.incoming@[i as int]);
            if !same {
                let c = (e.0.clone(), e.1);
                kept.push(c);
                proof {
                    assert(keys_of(kept@) =~= k0.push(v));
                }
            }
            proof {
                assert(same <==> (v.0 == key.0 && v.1 == key.1));
                let p1 = keys_of(self.incoming@.subrange(0, i + 1));
                assert forall|x: (Seq<char>, u32)| #[trigger] keys_of(kept@).contains(x) <==> x != key && p1.contains(x) by {
                    assert(p1.contains(x) <==> p0.contains(x) || x == v);
                    assert(k0.contains(x) <==> x != key && p0.contains(x));
                    if !same {
                        assert(keys_of(kept@).contains(x) <==> k0.contains(x) || x == v);
                    }
                }
            }
            i = i + 1;
        }
        proof {
            assert(self.incoming@.subrange(0, i as int) =~= self.incoming@);
        }
        self.incoming = kept;
        assert(self.incoming_streams() =~= old(self).incoming_streams().remove(key));
    }

    /// Records a task this node started, so that shutdown stops it.
    pub fn register_task(&mut self, handle: u64)
        requires
            old(self).wf(),
        ensures
            final(self).wf(),
            final(self).task_set() == old(self).task_set().insert(handle),
            final(self).peer_map() == old(self).peer_map(),
            final(self).route_map() == old(self).route_map(),
            final(self).applied_routes() == old(self).applied_routes(),
            final(self).incoming_streams() == old(self).incoming_streams(),
            final(self).my_id == old(self).my_id,
            final(self).relay == old(self).relay,
    {
        self.tasks.push(handle);
        proof {
            old(self).tasks@.lemma_push_to_set_commute(handle);
        }
    }

    /// A task ended by itself: shutdown need not stop it.
    pub fn task_finished(&mut self, handle: u64)
        requires
            old(self).wf(),
        ensures
            final(self).wf(),
            final(self).task_set() == old(self).task_set().remove(handle),
            final(self).peer_map() == old(self).peer_map(),
            final(self).route_map() == old(self).route_map(),
            final(self).applied_routes() == old(self).applied_routes(),
            final(self).incoming_streams() == old(self).incoming_streams(),
            final(self).my_id == old(self).my_id,
            final(self).relay == old(self).relay,
    {
        let ghost before = self.tasks@;
        let mut kept: Vec<u64> = Vec::new();
        let mut i: usize = 0;
        while i < self.tasks.len()
            invariant
                i <= before.len(),
                self.tasks@ == before,
                forall|x: u64| #[trigger] kept@.contains(x) <==> x != handle && before.subrange(0, i as int).contains(x),
            decreases before.len() - i,
        {
            let x = self.tasks[i];
            proof {
                crate::routes::lemma_prefix_push(before, i as int);
                crate::routes::lemma_push_contains(before.subrange(0, i as int), x);
                crate::routes::lemma_push_contains(kept@, x);
            }
            if x != handle {
                kept.push(x);
            }
            i = i + 1;
        }
        proof {
            assert(before.subrange(0, i as int) =~= before);
        }
        self.tasks = kept;
        assert(self.task_set() =~= old(self).task_set().remove(handle));
    }

    /// Shutdown: returns every task to stop and every host route to remove,
    /// and leaves no task and no host route recorded.
    pub fn shutdown(&mut self) -> (r: (Vec<u64>, Vec<Ip4>))
        requires
            old(self).wf(),
        ensures
            final(self).wf(),
            r.0@.to_set() == old(self).task_set(),
            r.1@.to_set() == old(self).applied_routes(),
            final(self).task_set() == Set::<u64>::empty(),
            final(self).applied_routes() == Set::<Ip4>::empty(),
            final(self).peer_map() == old(self).peer_map(),
            final(self).route_map() == old(self).route_map(),
    {
        let mut tasks: Vec<u64> = Vec::new();
        std::mem::swap(&mut tasks, &mut self.tasks);
        let routes = self.route_manager.cleanup();
        assert(self.task_set() =~= Set::<u64>::empty());
        assert(self.applied_routes() =~= Set::<Ip4>::empty());
        (tasks, routes)
    }


    /// A datagram was heard on a local discovery group: it is wrapped in an
    /// IPv4+UDP frame from this node's overlay address to the group (same
    /// port both ends, TTL 20) and flooded through the rendezvous. `None` for
    /// ports that are not reflected, a payload too long for one frame, or no
    /// rendezvous channel.
    pub fn on_local_multicast(&self, payload: &[u8], port: u16) -> (r: Option<SignalMessage>)
        ensures
            match spec_group_for_port(port) {
                Some(g) => if self.relay && payload@.len() <= MAX_UDP_PAYLOAD {
                    &&& r matches Some(m) && is_broadcast_of(m, self.my_id@, udp_frame(self.my_ip, g, FRAME_TTL, port, port, payload@))
                    &&& udp_frame_shape(udp_frame(self.my_ip, g, FRAME_TTL, port, port, payload@), self.my_ip, g, payload@)
                } else {
                    r is None
                },
                None => r is None,
            },
    {
        let group = match BroadcastReflector::group_for_port(port) {
            Some(g) => g,
            None => return None,
        };
        if !self.relay {
            return None;
        }
        match build_udp_frame(self.my_ip, group, FRAME_TTL, port, port, payload) {
            Some(frame) => {
                let data = encode_base64(frame.as_slice());
                Some(SignalMessage::Broadcast { source: self.my_id.clone(), data })
            },
            None => None,
        }
    }

}

} // verus!
