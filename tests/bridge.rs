use p2p_node::gateway::{FlowKey, GatewayRouter, NatAction};
use p2p_node::ipv4::Ip4;
use p2p_node::p2p::SessionTable;
use p2p_node::routes::RouteTable;
use p2p_node::socks5::{
    check_greeting, greeting_reply, parse_request_head, port_of, reply, target_from_domain, target_from_octets,
    AddrType, Socks5Server, SocksError, SocksMsg, connect_reply,
};

fn udp_frame(src: [u8; 4], sport: u16, dst: [u8; 4], dport: u16, payload: &[u8]) -> Vec<u8> {
    let mut f = vec![0x45, 0, 0, 0, 0, 0, 0, 0, 64, 17, 0, 0];
    f.extend_from_slice(&src);
    f.extend_from_slice(&dst);
    f.extend_from_slice(&sport.to_be_bytes());
    f.extend_from_slice(&dport.to_be_bytes());
    f.extend_from_slice(&[0, 0, 0, 0]);
    f.extend_from_slice(payload);
    f
}

#[test]
fn socks_greeting_and_request() {
    assert_eq!(check_greeting([5, 2]), Ok(2));
    assert_eq!(check_greeting([4, 1]), Err(SocksError::NotSocks5));
    assert_eq!(greeting_reply(), [5, 0]);
    assert_eq!(parse_request_head([5, 1, 0, 1]), Ok(AddrType::Ipv4));
    assert_eq!(parse_request_head([5, 1, 0, 3]), Ok(AddrType::Domain));
    assert_eq!(parse_request_head([5, 2, 0, 1]), Err(SocksError::UnsupportedCommand));
    assert_eq!(parse_request_head([5, 1, 0, 4]), Err(SocksError::UnsupportedAddressType));
    assert_eq!(port_of([0, 22]), 22);
    assert_eq!(port_of([0x1f, 0x90]), 8080);
    assert_eq!(reply(3), [5, 3, 0, 1, 0, 0, 0, 0, 0, 0]);
}

#[test]
fn socks_targets() {
    assert_eq!(target_from_octets([192, 168, 10, 5]), (Ip4::new(192, 168, 10, 5), "192.168.10.5".to_string()));
    assert_eq!(target_from_domain(b"192.168.10.5").ok(), Some((Ip4::new(192, 168, 10, 5), "192.168.10.5".to_string())));
    assert_eq!(target_from_domain(b"example.com").err(), Some(SocksError::DomainNotIpv4));
    assert_eq!(target_from_domain(b"10.0.0.256").err(), Some(SocksError::DomainNotIpv4));
}

#[test]
fn stream_messages_arrive_in_order() {
    let mut s = Socks5Server::new();
    let id = s.open_stream().unwrap();
    assert_eq!(id, 2);
    let other = s.open_stream().unwrap();
    assert_eq!(other, 3);
    assert!(s.on_msg(id, SocksMsg::Connected(true)));
    assert!(s.on_msg(id, SocksMsg::Data(vec![1])));
    assert!(s.on_msg(other, SocksMsg::Data(vec![9])));
    assert!(s.on_msg(id, SocksMsg::Data(vec![2, 3])));
    assert!(matches!(s.take(id), Some(SocksMsg::Connected(true))));
    assert!(matches!(s.take(id), Some(SocksMsg::Data(d)) if d == vec![1]));
    assert!(s.on_msg(id, SocksMsg::Closed));
    assert!(matches!(s.take(id), Some(SocksMsg::Data(d)) if d == vec![2, 3]));
    assert!(matches!(s.take(id), Some(SocksMsg::Closed)));
    assert!(s.take(id).is_none());
    s.close_stream(id);
    assert!(!s.on_msg(id, SocksMsg::Data(vec![4])));
    assert!(matches!(s.take(other), Some(SocksMsg::Data(d)) if d == vec![9]));
}

#[test]
fn nat_opens_one_flow_per_tuple() {
    let mut g = GatewayRouter::new();
    let q = udp_frame([10, 10, 0, 3], 5000, [8, 8, 8, 8], 53, b"dns?");
    let key = match g.handle_packet(&q) {
        NatAction::Open { key, payload } => {
            assert_eq!(payload, b"dns?".to_vec());
            key
        }
        _ => panic!("expected a new flow"),
    };
    assert_eq!(
        key,
        FlowKey { src_ip: Ip4::new(10, 10, 0, 3), src_port: 5000, dst_ip: Ip4::new(8, 8, 8, 8), dst_port: 53, protocol: 17 }
    );
    assert!(matches!(g.handle_packet(&q), NatAction::Forward { .. }));
    let q2 = udp_frame([10, 10, 0, 3], 5001, [8, 8, 8, 8], 53, b"");
    assert!(matches!(g.handle_packet(&q2), NatAction::Open { .. }));
    assert_eq!(g.len(), 2);
    g.flow_failed(key);
    assert_eq!(g.len(), 1);
    let mut tcp = q.clone();
    tcp[9] = 6;
    assert!(matches!(g.handle_packet(&tcp), NatAction::Drop));
    assert!(matches!(g.handle_packet(&q[..24]), NatAction::Drop));
}

#[test]
fn nat_return_frame_goes_back_to_overlay_host() {
    let key = FlowKey { src_ip: Ip4::new(10, 10, 0, 3), src_port: 5000, dst_ip: Ip4::new(8, 8, 8, 8), dst_port: 53, protocol: 17 };
    let f = GatewayRouter::return_frame(key, Ip4::new(8, 8, 8, 8), 53, b"answer").unwrap();
    assert_eq!(f.len(), 28 + 6);
    assert_eq!(f[9], 17);
    assert_eq!(f[8], 20);
    assert_eq!(&f[12..16], &[8, 8, 8, 8]);
    assert_eq!(&f[16..20], &[10, 10, 0, 3]);
    assert_eq!(&f[20..24], &[0, 53, 0x13, 0x88]);
    assert_eq!(&f[28..], b"answer");
}

#[test]
fn one_session_per_peer() {
    let mut t: SessionTable<u32> = SessionTable::new();
    assert!(!t.contains("B"));
    t.insert("B".to_string(), 1);
    t.insert("C".to_string(), 2);
    t.insert("B".to_string(), 3);
    assert_eq!(t.get("B"), Some(&3));
    assert_eq!(t.remove("B"), Some(3));
    assert!(!t.contains("B"));
    assert_eq!(t.get("C"), Some(&2));
    assert_eq!(t.remove("B"), None);
}

#[test]
fn connect_goes_to_the_routing_peer() {
    let mut routes = RouteTable::new();
    routes.insert(Ip4::new(192, 168, 10, 5), "B".to_string());
    let mut s = Socks5Server::new();
    assert_eq!(s.plan_connect(&routes, Ip4::new(192, 168, 10, 6)), Err(3));
    assert_eq!(s.plan_connect(&routes, Ip4::new(192, 168, 10, 5)), Ok(("B".to_string(), 2)));
    assert_eq!(s.plan_connect(&routes, Ip4::new(192, 168, 10, 5)), Ok(("B".to_string(), 3)));
    assert_eq!(connect_reply(&SocksMsg::Connected(true)), 0);
    assert_eq!(connect_reply(&SocksMsg::Connected(false)), 4);
    assert_eq!(connect_reply(&SocksMsg::Closed), 4);
}
