use peer_discovery_center::discoverers::dht::message::{DhtMessage, DhtNode, QueryMethod};
use peer_discovery_center::net::{IpAddr, SocketAddr};

#[test]
fn test_parse_query_ping() {
    let tid = [0x01, 0x02];
    let node_id = [0u8; 20];
    let msg = DhtMessage::build_ping(&tid, &node_id);
    let (parsed_tid, method, ih) = DhtMessage::parse_query(&msg).unwrap();
    assert_eq!(method, QueryMethod::Ping);
    assert_eq!(parsed_tid, vec![0x01, 0x02]);
    assert!(ih.is_none());
}

#[test]
fn test_parse_query_get_peers() {
    let tid = [0x01, 0x02];
    let node_id = [0u8; 20];
    let infohash = [1u8; 20];
    let msg = DhtMessage::build_get_peers(&tid, &node_id, &infohash);
    let (_, method, ih) = DhtMessage::parse_query(&msg).unwrap();
    assert_eq!(method, QueryMethod::GetPeers);
    assert_eq!(ih, Some(infohash));
}

#[test]
fn test_parse_announce_peer() {
    let tid = [0x01, 0x02];
    let node_id = [0u8; 20];
    let infohash = [1u8; 20];
    let token = vec![0xAA, 0xBB, 0xCC, 0xDD];
    let msg = DhtMessage::build_announce_peer(&tid, &node_id, &infohash, 6881, &token);
    let (parsed_tid, params) = DhtMessage::parse_announce_peer(&msg).unwrap();
    assert_eq!(parsed_tid, vec![0x01, 0x02]);
    assert_eq!(params.info_hash, infohash);
    assert_eq!(params.port, 6881);
    assert_eq!(params.token, token);
    assert!(!params.implied_port);
}

#[test]
fn test_build_ping_response() {
    let tid = vec![0x01, 0x02];
    let node_id = [0u8; 20];
    let resp = DhtMessage::build_ping_response(&tid, &node_id);
    let s = String::from_utf8_lossy(&resp);
    assert!(s.contains("1:y1:r"));
}

#[test]
fn test_build_find_node_response_with_nodes() {
    let tid = vec![0x01, 0x02];
    let node_id = [0u8; 20];
    let nodes = vec![DhtNode {
        id: [1u8; 20],
        addr: SocketAddr::new(
            IpAddr::V4([127, 0, 0, 1]),
            6881,
        ),
    }];
    let resp = DhtMessage::build_find_node_response_with_nodes(&tid, &node_id, &nodes);
    let s = String::from_utf8_lossy(&resp);
    assert!(s.contains("5:nodes"));
    assert!(s.contains("1:y1:r"));
}

#[test]
fn test_build_get_peers_response_full_with_peers() {
    let tid = vec![0x01, 0x02];
    let node_id = [0u8; 20];
    let token = vec![0xAA, 0xBB];
    let peers = vec![SocketAddr::new(
        IpAddr::V4([127, 0, 0, 1]),
        6881,
    )];
    let resp = DhtMessage::build_get_peers_response_full(&tid, &node_id, &token, &peers, &[]);
    let s = String::from_utf8_lossy(&resp);
    assert!(s.contains("6:values"));
    assert!(s.contains("5:token"));
}

#[test]
fn test_build_announce_peer_response() {
    let tid = vec![0x01, 0x02];
    let node_id = [0u8; 20];
    let resp = DhtMessage::build_announce_peer_response(&tid, &node_id);
    let s = String::from_utf8_lossy(&resp);
    assert!(s.contains("1:y1:r"));
}

#[test]
fn test_build_error_response() {
    let tid = vec![0x01, 0x02];
    let resp = DhtMessage::build_error_response(&tid, 203, "Server error");
    let s = String::from_utf8_lossy(&resp);
    assert!(s.contains("1:y1:e"));
    assert!(s.contains("Server error"));
}

