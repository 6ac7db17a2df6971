use base64::engine::general_purpose::STANDARD;
use base64::Engine;
use p2p_node::ipv4::Ip4;
use p2p_node::node::{gateway_enabled, Node, Outbound, PeerSend};
use p2p_node::peers::{P2PEvent, PeerInfo, PeerTable, RouteStatus};
use p2p_node::routes::{build_routes, RouteManager};
use p2p_node::signaling::{ServiceDecl, SignalMessage};

fn b64(bytes: &[u8]) -> String {
    STANDARD.encode(bytes)
}

fn frame(dst: [u8; 4], proto: u8) -> Vec<u8> {
    let mut f = vec![0x45, 0, 0, 32, 0, 0, 0, 0, 64, proto, 0, 0, 10, 10, 0, 2];
    f.extend_from_slice(&dst);
    f.extend_from_slice(&[0x13, 0x88, 0x00, 0x35, 0, 12, 0, 0, 1, 2, 3, 4]);
    f
}

fn peer(id: &str, ip: &str, public: Option<&str>, port: u16) -> PeerInfo {
    PeerInfo {
        id: id.to_string(),
        ip: ip.to_string(),
        public_addr: public.map(|s| s.to_string()),
        p2p_port: port,
        name: format!("node-{}", id),
        os: None,
        version: None,
        device_type: None,
        is_gateway: false,
        connected_at: Some(1),
        route_status: RouteStatus::Direct,
    }
}

fn decl(ip: &str) -> ServiceDecl {
    ServiceDecl {
        ip: ip.to_string(),
        port: 22,
        protocol: "tcp".to_string(),
        service_type: "generic".to_string(),
        description: String::new(),
    }
}

fn node(gateway: bool) -> Node {
    Node::new("A".to_string(), Ip4::new(10, 10, 0, 2), gateway, true)
}

#[test]
fn membership_follows_joins_and_leaves() {
    let mut t = PeerTable::new();
    t.on_joined(peer("B", "10.10.0.3", None, 0));
    t.on_joined(peer("C", "10.10.0.4", None, 0));
    t.on_left("B");
    t.on_joined(peer("B", "10.10.0.5", None, 0));
    t.on_left("C");
    t.on_left("Z");
    assert_eq!(t.len(), 1);
    assert!(t.get("C").is_none());
    let b = t.get("B").unwrap();
    assert_eq!(b.ip, "10.10.0.5");
    assert_eq!(b.route_status, RouteStatus::Relay);
}

#[test]
fn rejoin_keeps_route_status() {
    let mut t = PeerTable::new();
    t.on_joined(peer("B", "10.10.0.3", None, 0));
    assert!(t.set_status("B", RouteStatus::Direct));
    t.on_joined(peer("B", "10.10.0.9", None, 0));
    let b = t.get("B").unwrap();
    assert_eq!(b.route_status, RouteStatus::Direct);
    assert_eq!(b.ip, "10.10.0.9");
    assert!(!t.set_status("Q", RouteStatus::Direct));
    assert_eq!(t.find_by_ip(Ip4::new(10, 10, 0, 9)).map(|p| p.id.clone()), Some("B".to_string()));
    assert!(t.find_by_ip(Ip4::new(10, 10, 0, 3)).is_none());
    assert_eq!(t.snapshot().len(), 1);
}

#[test]
fn routes_keep_last_writer_and_skip_self() {
    let services = vec![
        ("B".to_string(), decl("192.168.10.5")),
        ("C".to_string(), decl("192.168.10.5")),
        ("A".to_string(), decl("192.168.10.6")),
        ("B".to_string(), decl("not-an-ip")),
        ("B".to_string(), decl("172.16.0.1")),
        ("C".to_string(), decl("10.10.0.2")),
    ];
    let (table, ips) = build_routes(&services, "A", Ip4::new(10, 10, 0, 2));
    assert_eq!(table.get(Ip4::new(192, 168, 10, 5)).map(|s| s.as_str()), Some("C"));
    assert_eq!(table.get(Ip4::new(172, 16, 0, 1)).map(|s| s.as_str()), Some("B"));
    assert!(table.get(Ip4::new(192, 168, 10, 6)).is_none());
    assert!(table.get(Ip4::new(10, 10, 0, 2)).is_none());
    assert_eq!(ips, vec![Ip4::new(192, 168, 10, 5), Ip4::new(192, 168, 10, 5), Ip4::new(172, 16, 0, 1)]);
}

#[test]
fn route_manager_applies_differences() {
    let mut m = RouteManager::new("10.10.0.2".to_string());
    let a = Ip4::new(1, 1, 1, 1);
    let b = Ip4::new(2, 2, 2, 2);
    let c = Ip4::new(3, 3, 3, 3);
    let plan = m.update_routes(&vec![a, b, a]);
    assert!(plan.remove.is_empty());
    assert_eq!(plan.add, vec![a, b]);
    let plan = m.update_routes(&vec![b, c]);
    assert_eq!(plan.remove, vec![a]);
    assert_eq!(plan.add, vec![c]);
    m.route_add_failed(c);
    assert_eq!(m.local_vpn_ip(), "10.10.0.2");
    assert_eq!(m.cleanup(), vec![b]);
    assert!(m.cleanup().is_empty());
}

#[test]
fn service_update_rebuilds_routes_and_host_routes() {
    let mut n = node(false);
    let plan = n.on_service_update(&vec![("B".to_string(), decl("192.168.10.5")), ("A".to_string(), decl("192.168.10.6"))]);
    assert_eq!(plan.add, vec![Ip4::new(192, 168, 10, 5)]);
    assert!(plan.remove.is_empty());
    let plan = n.on_service_update(&vec![("C".to_string(), decl("192.168.10.7"))]);
    assert_eq!(plan.add, vec![Ip4::new(192, 168, 10, 7)]);
    assert_eq!(plan.remove, vec![Ip4::new(192, 168, 10, 5)]);
    let (tasks, routes) = n.shutdown();
    assert!(tasks.is_empty());
    assert_eq!(routes, vec![Ip4::new(192, 168, 10, 7)]);
}

#[test]
fn overlay_broadcast_is_flooded() {
    let n = node(false);
    let f = frame([10, 10, 0, 255], 17);
    match n.classify_outbound(&f) {
        Outbound::Relay(SignalMessage::Broadcast { source, data }) => {
            assert_eq!(source, "A");
            assert_eq!(data, b64(&f));
        }
        _ => panic!("expected a broadcast"),
    }
    let m = frame([224, 0, 0, 251], 17);
    assert!(matches!(n.classify_outbound(&m), Outbound::Relay(SignalMessage::Broadcast { .. })));
}

#[test]
fn unicast_to_known_peer_prefers_direct_session() {
    let mut n = node(false);
    let (dial, list) = n.on_peer_joined(peer("B", "10.10.0.3", Some("203.0.113.9"), 4433));
    assert_eq!(dial, Some(("203.0.113.9".to_string(), 4433)));
    assert_eq!(list.len(), 1);
    assert_eq!(list[0].route_status, RouteStatus::Relay);
    let f = frame([10, 10, 0, 3], 17);
    let id = match n.classify_outbound(&f) {
        Outbound::ToPeer { peer_id } => peer_id,
        _ => panic!("expected the peer"),
    };
    assert_eq!(id, "B");
    assert!(matches!(n.send_to_peer(&id, &f, true), PeerSend::Direct));
    match n.send_to_peer(&id, &f, false) {
        PeerSend::Relay { msg: SignalMessage::TunPacket { target, source, data }, dial } => {
            assert_eq!(target, "B");
            assert_eq!(source, "A");
            assert_eq!(data, b64(&f));
            assert_eq!(dial, Some(("203.0.113.9".to_string(), 4433)));
        }
        _ => panic!("expected a relayed frame"),
    }
}

#[test]
fn session_loss_falls_back_to_relay() {
    let mut n = node(false);
    n.on_peer_joined(peer("B", "10.10.0.3", Some("unknown"), 4433));
    let up = n.on_p2p_event(&P2PEvent::Connected("B".to_string())).unwrap();
    assert_eq!(up[0].route_status, RouteStatus::Direct);
    let down = n.on_p2p_event(&P2PEvent::Disconnected("B".to_string())).unwrap();
    assert_eq!(down[0].route_status, RouteStatus::Relay);
    assert!(n.on_p2p_event(&P2PEvent::Connected("Z".to_string())).is_none());
    let f = frame([10, 10, 0, 3], 17);
    match n.relay_to_peer("B", &f) {
        PeerSend::Relay { msg: SignalMessage::TunPacket { target, .. }, dial } => {
            assert_eq!(target, "B");
            assert_eq!(dial, None);
        }
        _ => panic!("expected a relayed frame"),
    }
    assert_eq!(n.on_peer_left("B").len(), 0);
}

#[test]
fn unknown_overlay_destination_is_flooded() {
    let n = node(false);
    assert!(matches!(n.classify_outbound(&frame([10, 10, 0, 77], 6)), Outbound::Relay(SignalMessage::Broadcast { .. })));
}

#[test]
fn routed_subnet_relays_udp_only() {
    let mut n = node(true);
    n.on_service_update(&vec![("B".to_string(), decl("192.168.10.5"))]);
    match n.classify_outbound(&frame([192, 168, 10, 5], 17)) {
        Outbound::Relay(SignalMessage::TunPacket { target, .. }) => assert_eq!(target, "B"),
        _ => panic!("expected a relayed frame"),
    }
    assert!(matches!(n.classify_outbound(&frame([192, 168, 10, 5], 6)), Outbound::Gateway));
    assert!(matches!(n.classify_outbound(&frame([8, 8, 8, 8], 17)), Outbound::Gateway));
    let mut plain = node(false);
    plain.on_service_update(&vec![("B".to_string(), decl("192.168.10.5"))]);
    assert!(matches!(plain.classify_outbound(&frame([192, 168, 10, 5], 6)), Outbound::Drop));
    assert!(matches!(plain.classify_outbound(&frame([8, 8, 8, 8], 17)), Outbound::Drop));
}

#[test]
fn malformed_frames_are_dropped() {
    let n = node(true);
    assert!(matches!(n.classify_outbound(&[0x45, 0, 0]), Outbound::Drop));
    let mut f = frame([10, 10, 0, 255], 17);
    f[0] = 0x65;
    assert!(matches!(n.classify_outbound(&f), Outbound::Drop));
}

#[test]
fn relayed_frames_reach_the_interface() {
    let n = node(false);
    let data = b64(&[1, 2, 3]);
    assert_eq!(data, "AQID");
    assert_eq!(n.on_relayed_frame("B", &data, true), Some(vec![1, 2, 3]));
    assert_eq!(n.on_relayed_frame("A", &data, true), None);
    assert_eq!(n.on_relayed_frame("A", &data, false), Some(vec![1, 2, 3]));
    assert_eq!(n.on_relayed_frame("B", "@@", false), None);
}

#[test]
fn target_side_streams_are_tracked() {
    let mut n = node(false);
    assert!(n.on_tcp_connect("B", 2));
    let data = b64(b"hi");
    assert_eq!(n.on_tcp_data("B", 2, &data), Some((b"hi".to_vec(), true)));
    assert_eq!(n.on_tcp_data("C", 2, &data), Some((b"hi".to_vec(), false)));
    n.on_tcp_close("B", 2);
    assert_eq!(n.on_tcp_data("B", 2, &data), Some((b"hi".to_vec(), false)));
    let mut off = Node::new("A".to_string(), Ip4::new(10, 10, 0, 2), false, false);
    assert!(!off.on_tcp_connect("B", 2));
}

#[test]
fn shutdown_stops_every_task_and_route() {
    let mut n = node(false);
    n.register_task(1);
    n.register_task(2);
    n.on_service_update(&vec![("B".to_string(), decl("192.168.1.1"))]);
    let (tasks, routes) = n.shutdown();
    assert_eq!(tasks, vec![1, 2]);
    assert_eq!(routes, vec![Ip4::new(192, 168, 1, 1)]);
    let (tasks, routes) = n.shutdown();
    assert!(tasks.is_empty() && routes.is_empty());
}

#[test]
fn local_discovery_is_wrapped_and_flooded() {
    let n = node(false);
    match n.on_local_multicast(b"query", 5353) {
        Some(SignalMessage::Broadcast { source, data }) => {
            assert_eq!(source, "A");
            let f = STANDARD.decode(&data).unwrap();
            assert_eq!(f.len(), 28 + 5);
            assert_eq!(&f[12..16], &[10, 10, 0, 2]);
            assert_eq!(&f[16..20], &[224, 0, 0, 251]);
            assert_eq!(f[8], 20);
            assert_eq!(&f[20..24], &[0x14, 0xe9, 0x14, 0xe9]);
            assert_eq!(&f[28..], b"query");
        }
        _ => panic!("expected a broadcast"),
    }
    assert!(n.on_local_multicast(b"x", 80).is_none());
}

#[test]
fn services_are_published_when_connected() {
    let n = node(false);
    match n.register_services(vec![decl("192.168.1.1")]) {
        Some(SignalMessage::RegisterServices { id, services }) => {
            assert_eq!(id, "A");
            assert_eq!(services.len(), 1);
        }
        _ => panic!("expected a registration"),
    }
}

#[test]
fn relayed_frame_bytes_survive_encoding() {
    let n = node(false);
    let all: Vec<u8> = (0u8..=255).collect();
    assert_eq!(n.on_relayed_frame("B", &b64(&all), false), Some(all));
}

#[test]
fn nat_runs_on_gateways_and_service_hosts() {
    assert!(gateway_enabled(true, &vec![]));
    assert!(gateway_enabled(false, &vec![decl("192.168.1.1")]));
    assert!(!gateway_enabled(false, &vec![]));
}

#[test]
fn tasks_that_ended_are_not_stopped_again() {
    let mut n = node(false);
    n.register_task(1);
    n.register_task(2);
    n.task_finished(1);
    let (tasks, _) = n.shutdown();
    assert_eq!(tasks, vec![2]);
}

#[test]
fn peer_claiming_subnet_broadcast_still_gets_floods() {
    let mut n = node(false);
    n.on_peer_joined(peer("X", "10.10.0.255", None, 0));
    assert!(matches!(n.classify_outbound(&frame([10, 10, 0, 255], 17)), Outbound::Relay(SignalMessage::Broadcast { .. })));
}
