use peer_discovery_center::discoverers::dht::client::{
    DhtConfig, DhtDiscoverer, Lookup, QueryResult, RoutingNode,
};
use peer_discovery_center::discoverers::dht::message::{DhtMessage, DhtNode, QueryMethod};
use peer_discovery_center::net::{IpAddr, SocketAddr};
use peer_discovery_center::traits::{AnnounceEvent, PeerDiscoverer};
use peer_discovery_center::types::PeerSource;
use std::time::{Duration, Instant};

fn make_addr(port: u16) -> SocketAddr {
    SocketAddr::new(IpAddr::V4([127, 0, 0, 1]), port)
}

fn make_node(first: u8, port: u16) -> RoutingNode {
    let mut id = [0u8; 20];
    id[0] = first;
    RoutingNode {
        id,
        addr: make_addr(port),
        last_active: Instant::now(),
        consecutive_failures: 0,
        is_bootstrap: false,
    }
}

#[test]
fn test_dht_config_default() {
    let config = DhtConfig::default();
    assert!(!config.bootstrap_nodes.is_empty());
    assert_eq!(config.listen_port, 6881);
    assert_eq!(config.max_concurrent_requests, 3);
}

#[test]
fn test_dht_discoverer_creation() {
    let discoverer = DhtDiscoverer::with_default_config();
    assert_eq!(discoverer.name(), "dht");
    assert!(discoverer.is_enabled());
}

#[test]
fn test_dht_init() {
    let mut discoverer = DhtDiscoverer::with_default_config();
    discoverer.init(&vec![make_addr(1), make_addr(2)]);
    assert!(discoverer.initialized);
    assert!(discoverer.routing_table.len() > 0);
}

#[test]
fn test_nearest_nodes() {
    let mut discoverer = DhtDiscoverer::with_default_config();
    for i in 0..10u8 {
        let node = make_node(i, 6881 + i as u16);
        discoverer.routing_table.insert(node.addr, node);
    }

    let target = [0u8; 20];
    let nearest = discoverer.nearest_nodes(&target, 3);
    assert_eq!(nearest.len(), 3);
    assert_eq!(nearest[0].id[0], 0);
}

#[test]
fn test_add_node() {
    let mut discoverer = DhtDiscoverer::with_default_config();
    let node = DhtNode { id: [1u8; 20], addr: make_addr(6881) };
    discoverer.add_node(&node);
    assert_eq!(discoverer.routing_table.len(), 1);
}

#[test]
fn test_mark_node_failure() {
    let mut discoverer = DhtDiscoverer::with_default_config();
    let node = make_node(0, 6881);
    discoverer.routing_table.insert(node.addr, node);
    for _ in 0..3 {
        discoverer.mark_node_failure(&make_addr(6881));
    }
    let nodes = discoverer.healthy_nodes();
    assert!(nodes.is_empty());
}

#[test]
fn a_lookup() {
    let mut discoverer = DhtDiscoverer::with_default_config();
    let node = make_node(3, 1);
    discoverer.routing_table.insert(node.addr, node);
    let infohash = [0u8; 20];
    let mut lookup = Lookup::new(infohash, 10);

    let round = discoverer.next_round(&mut lookup);
    assert_eq!(round.len(), 1);
    assert_eq!(round[0].addr, make_addr(1));

    let peer = SocketAddr::new(IpAddr::V4([9, 9, 9, 9]), 51413);
    let answer = QueryResult {
        peers: vec![peer],
        nodes: vec![DhtNode { id: [1u8; 20], addr: make_addr(2) }],
        responder_id: [3u8; 20],
    };
    discoverer.absorb(&mut lookup, &make_addr(1), Some(answer));
    assert_eq!(discoverer.routing_table.len(), 2);

    let round = discoverer.next_round(&mut lookup);
    assert_eq!(round.len(), 1);
    assert_eq!(round[0].addr, make_addr(2));
    discoverer.absorb(&mut lookup, &make_addr(2), None);
    assert!(discoverer.next_round(&mut lookup).is_empty());

    let peers = discoverer.finish(&lookup);
    assert_eq!(peers.len(), 1);
    assert_eq!(peers[0].addr, peer);
    assert_eq!(peers[0].source, PeerSource::Dht);
    assert_eq!(discoverer.stats().total_requests, 1);
    assert_eq!(discoverer.stats().total_peers_discovered, 1);
}

#[test]
fn a_request_asks_for_the_infohash() {
    let discoverer = DhtDiscoverer::with_default_config();
    let request = discoverer.query_request(&[7u8; 20]);
    let (tid, method, subject) = DhtMessage::parse_query(&request).unwrap();
    assert_eq!(tid.len(), 2);
    assert_eq!(method, QueryMethod::GetPeers);
    assert_eq!(subject, Some([7u8; 20]));
}

#[test]
fn an_answer_is_read() {
    let peer = SocketAddr::new(IpAddr::V4([9, 9, 9, 9]), 51413);
    let node = DhtNode { id: [4u8; 20], addr: make_addr(5) };
    let data = DhtMessage::build_get_peers_response_full(
        &[1, 2],
        &[6u8; 20],
        &[0xAA; 8],
        &[peer],
        &[node],
    );
    let answer = DhtDiscoverer::read_answer(&data);
    assert_eq!(answer.peers, vec![peer]);
    assert_eq!(answer.responder_id, [6u8; 20]);
    assert_eq!(DhtDiscoverer::token_of_answer(&data), Some(vec![0xAA; 8]));
    assert_eq!(DhtDiscoverer::token_of_answer(b"rubbish"), None);
}

#[test]
fn an_announcement_carries_the_token() {
    let mut discoverer = DhtDiscoverer::with_default_config();
    let node = make_node(3, 1);
    discoverer.routing_table.insert(node.addr, node);
    assert_eq!(discoverer.announce_nodes(&[0u8; 20], AnnounceEvent::Started).len(), 1);
    assert!(discoverer.announce_nodes(&[0u8; 20], AnnounceEvent::Stopped).is_empty());
    let request = discoverer.announce_request(&[7u8; 20], 6999, &[1, 2, 3]);
    let (_, params) = DhtMessage::parse_announce_peer(&request).unwrap();
    assert_eq!(params.info_hash, [7u8; 20]);
    assert_eq!(params.port, 6999);
    assert_eq!(params.token, vec![1, 2, 3]);
}

#[test]
fn old_nodes_are_dropped_from_time_to_time() {
    let mut discoverer = DhtDiscoverer::with_default_config();
    let start = Instant::now();
    discoverer.init_at(&vec![make_addr(1)], &vec![[9u8; 20]], start);
    discoverer.add_node_at(&DhtNode { id: [1u8; 20], addr: make_addr(2) }, start);
    assert!(discoverer.refresh_at(start));
    assert_eq!(discoverer.routing_table.len(), 2);
    assert!(!discoverer.refresh_at(start + Duration::from_secs(299)));
    let later = start + Duration::from_secs(3600);
    assert!(discoverer.refresh_at(later));
    assert_eq!(discoverer.routing_table.len(), 2);
    assert!(discoverer.refresh_at(later + Duration::from_secs(301)));
    assert_eq!(discoverer.routing_table.len(), 1);
    assert!(discoverer.routing_table.contains_key(&make_addr(1)));
}
