use p2p_node::broadcast::{BroadcastProtocol, BroadcastReflector};
use base64::engine::general_purpose::STANDARD;
use base64::Engine;
use p2p_node::ipv4::{next_candidate, parse_ip4, Ip4, TunRetry};
use p2p_node::signaling::{group_for_token, rendezvous_base, rendezvous_url, tcp_data_frame, SignalError, SignalMessage, SignalingClient};

#[test]
fn ip_text_is_dotted_decimal() {
    assert_eq!(Ip4::new(10, 10, 0, 2).to_text(), "10.10.0.2");
    assert_eq!(Ip4::new(255, 0, 100, 9).to_text(), "255.0.100.9");
    assert_eq!(Ip4::new(0, 0, 0, 0).to_text(), "0.0.0.0");
}

#[test]
fn parse_accepts_exactly_canonical_text() {
    assert_eq!(parse_ip4("10.10.0.3"), Some(Ip4::new(10, 10, 0, 3)));
    assert_eq!(parse_ip4("192.168.10.5"), Some(Ip4::new(192, 168, 10, 5)));
    assert_eq!(parse_ip4("255.255.255.255"), Some(Ip4::new(255, 255, 255, 255)));
    assert_eq!(parse_ip4("256.1.1.1"), None);
    assert_eq!(parse_ip4("01.2.3.4"), None);
    assert_eq!(parse_ip4("1.2.3"), None);
    assert_eq!(parse_ip4("1.2.3.4.5"), None);
    assert_eq!(parse_ip4("1.2.3.4 "), None);
    assert_eq!(parse_ip4("example.com"), None);
    assert_eq!(parse_ip4(""), None);
}

#[test]
fn parse_and_text_round_trip() {
    for ip in [Ip4::new(1, 22, 133, 0), Ip4::new(10, 10, 0, 254), Ip4::new(99, 100, 9, 10)] {
        assert_eq!(parse_ip4(&ip.to_text()), Some(ip));
    }
}

#[test]
fn overlay_and_broadcast_predicates() {
    assert!(Ip4::new(10, 10, 0, 7).in_overlay());
    assert!(!Ip4::new(10, 10, 1, 7).in_overlay());
    assert!(Ip4::new(224, 0, 0, 251).is_multicast());
    assert!(Ip4::new(239, 255, 255, 250).is_multicast());
    assert!(!Ip4::new(240, 0, 0, 1).is_multicast());
    assert!(Ip4::new(255, 255, 255, 255).is_broadcast());
    assert!(Ip4::new(10, 10, 0, 255).is_broadcast());
    assert!(!Ip4::new(10, 10, 1, 255).is_broadcast());
}

#[test]
fn next_candidate_skips_zero_and_broadcast() {
    assert_eq!(next_candidate(Ip4::new(10, 10, 0, 2)), Ip4::new(10, 10, 0, 3));
    assert_eq!(next_candidate(Ip4::new(10, 10, 0, 253)), Ip4::new(10, 10, 0, 254));
    assert_eq!(next_candidate(Ip4::new(10, 10, 0, 254)), Ip4::new(10, 10, 0, 1));
    assert_eq!(next_candidate(Ip4::new(10, 10, 0, 255)), Ip4::new(10, 10, 0, 1));
}

#[test]
fn second_instance_moves_to_next_address() {
    let mut retry = TunRetry::new(Ip4::new(10, 10, 0, 2));
    assert_eq!(retry.on_failure(), Some(Ip4::new(10, 10, 0, 3)));
    assert_eq!(retry.current, Ip4::new(10, 10, 0, 3));
}

#[test]
fn interface_retry_gives_up_after_twenty_attempts() {
    let mut retry = TunRetry::new(Ip4::new(10, 10, 0, 2));
    let mut tried = 1;
    while let Some(_) = retry.on_failure() {
        tried += 1;
    }
    assert_eq!(tried, 20);
    assert_eq!(retry.failures, 20);
}

#[test]
fn rendezvous_endpoint_drops_trailing_slashes() {
    assert_eq!(rendezvous_base("ws://host:8787//", "g1"), "ws://host:8787/wapi/g1");
    assert_eq!(rendezvous_base("ws://host", "default-group"), "ws://host/wapi/default-group");
    assert_eq!(rendezvous_url("ws://h/", "g", &Some("t".to_string())), "ws://h/wapi/g?token=t");
    assert_eq!(rendezvous_url("ws://h", "g", &Some("a b&c=d".to_string())), "ws://h/wapi/g?token=a+b%26c%3Dd");
    assert_eq!(rendezvous_url("ws://h", "g", &None), "ws://h/wapi/g");
    assert_eq!(group_for_token(&None), "default-group");
    assert_eq!(group_for_token(&Some("abc".to_string())), "abc");
}

#[test]
fn session_url_carries_token_and_join() {
    let c = SignalingClient::prepare(
        "ws://127.0.0.1:8787/",
        "team",
        Some("t0k".to_string()),
        "A".to_string(),
        "10.10.0.2".to_string(),
        "node".to_string(),
        4433,
        (Some("linux".to_string()), None, Some("cli".to_string()), false),
    )
    .ok()
    .unwrap();
    assert_eq!(c.url.as_str(), "ws://127.0.0.1:8787/wapi/team?token=t0k");
    match c.join {
        SignalMessage::Join { id, ip, p2p_port, os, is_gateway, .. } => {
            assert_eq!(id, "A");
            assert_eq!(ip, "10.10.0.2");
            assert_eq!(p2p_port, 4433);
            assert_eq!(os, Some("linux".to_string()));
            assert!(!is_gateway);
        }
        _ => panic!("not a join frame"),
    }
    let plain = SignalingClient::prepare(
        "ws://127.0.0.1:8787",
        "g",
        None,
        String::new(),
        String::new(),
        String::new(),
        0,
        (None, None, None, false),
    )
    .ok()
    .unwrap();
    assert_eq!(plain.url, "ws://127.0.0.1:8787/wapi/g");
    let bad = SignalingClient::prepare("not a url", "g", None, String::new(), String::new(), String::new(), 0, (None, None, None, false));
    assert_eq!(bad.err(), Some(SignalError::InvalidUrl));
}

#[test]
fn tcp_data_frame_encodes_payload() {
    match tcp_data_frame(7, "B".to_string(), "A".to_string(), b"ssh") {
        SignalMessage::TcpData { stream_id, target, source, data } => {
            assert_eq!(stream_id, 7);
            assert_eq!(target, "B");
            assert_eq!(source, "A");
            assert_eq!(data, "c3No");
            assert_eq!(STANDARD.decode(&data).unwrap(), b"ssh".to_vec());
        }
        _ => panic!("not a data frame"),
    }
}

#[test]
fn discovery_ports_and_groups() {
    assert_eq!(BroadcastProtocol::from_port(5353), BroadcastProtocol::Mdns);
    assert_eq!(BroadcastProtocol::from_port(1900), BroadcastProtocol::Ssdp);
    assert_eq!(BroadcastProtocol::from_port(5355), BroadcastProtocol::Lmnr);
    assert_eq!(BroadcastProtocol::from_port(80), BroadcastProtocol::Other(80));
    assert_eq!(BroadcastProtocol::Other(80).port(), 80);
    assert_eq!(BroadcastReflector::group_for_port(5353), Some(Ip4::new(224, 0, 0, 251)));
    assert_eq!(BroadcastReflector::replay_target(1900), Some((Ip4::new(239, 255, 255, 250), 1900)));
    assert_eq!(BroadcastReflector::replay_target(80), None);
}
