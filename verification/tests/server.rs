use peer_discovery_center::config::PdcConfig;
use peer_discovery_center::protocol::{
    new_task_id, AnnounceRequest, DiscoverRequest, PeerResponse,
};
use peer_discovery_center::server::ServerState;

#[test]
fn server_state_stats() {
    let mut state = ServerState::new(PdcConfig::default_config());

    assert_eq!(state.total_requests, 0);
    state.record_request(true, 10, 100);
    assert_eq!(state.total_requests, 1);
    assert_eq!(state.success_requests, 1);
    assert_eq!(state.total_response_ms, 100);
}

#[test]
fn discover_request_defaults() {
    let req = DiscoverRequest::new("abc".to_string(), None);
    assert_eq!(req.infohash, "abc");
    assert_eq!(req.limit, 200);
}

#[test]
fn requests_with_their_own_values() {
    assert_eq!(DiscoverRequest::new("abc".to_string(), Some(3)).limit, 3);
    assert_eq!(AnnounceRequest::new(80, None).event, "none");
    assert_eq!(AnnounceRequest::new(80, Some("started".to_string())).event, "started");
    assert_ne!(new_task_id(), new_task_id());
}

#[test]
fn failures_are_counted_apart() {
    let mut state = ServerState::new(PdcConfig::default_config());
    state.record_request(false, 0, 7);
    state.record_request(true, 2, 5);
    assert_eq!(state.total_requests, 2);
    assert_eq!(state.failed_requests, 1);
    assert_eq!(state.total_peers_discovered, 2);
    assert_eq!(state.total_response_ms, 12);
}

fn peer(addr: &str, source: &str) -> PeerResponse {
    PeerResponse {
        addr: addr.to_string(),
        source: source.to_string(),
        priority_score: 1,
        is_ipv6: false,
    }
}

#[test]
fn a_search_at_the_server() {
    let mut state = ServerState::new(PdcConfig::default_config());
    let bad = DiscoverRequest::new("xyz".to_string(), None);
    let before = state.total_requests;
    assert!(state.discover(&bad, vec![], 1).is_err());
    assert_eq!(state.total_requests, before);
    let good = DiscoverRequest::new("ab".repeat(20), Some(2));
    let found = vec![peer("10.0.0.1:1", "dht"), peer("10.0.0.2:2", "pex"), peer("10.0.0.3:3", "dht")];
    let (response, record) = state.discover(&good, found, 42).unwrap();
    assert_eq!(response.peers_count, 2);
    assert_eq!(response.peers[1].addr, "10.0.0.2:2");
    assert_eq!(response.source_stats.get(&"dht".to_string()), Some(&1));
    assert_eq!(response.source_stats.get(&"pex".to_string()), Some(&1));
    assert_eq!(response.source_stats.get(&"tracker".to_string()), Some(&0));
    assert_eq!(record.peers_count, 2);
    assert_eq!(state.total_peers_discovered, 2);
    assert_eq!(response.duration_ms, 42);
    assert_eq!(record.infohash, "ab".repeat(20));
    assert_eq!(record.duration_ms, 42);
    assert!(state.total_requests > before);
}

#[test]
fn reports_of_the_server() {
    let state = ServerState::new(PdcConfig::default_config());
    assert_eq!(state.cached_peers_count(), 0);
    let health = state.health();
    assert_eq!(health.cached_peers, 0);
    assert_eq!(health.discoverers, 3);
    let listed = state.list_peers(None, None);
    assert_eq!(listed.count, 0);
    let listed = state.list_peers(Some("abc"), Some(3));
    assert!(listed.peers.is_empty());
    let capability = state.capability();
    assert_eq!(capability.version, "0.1.0");
    assert!(capability.capabilities.contains(&"tracker".to_string()));
}
