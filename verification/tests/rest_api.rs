use peer_discovery_center::aggregator::DiscovererOutcome;
use peer_discovery_center::cache::PeerCache;
use peer_discovery_center::data_plane::rest_api::{
    begin_discover, cache_query, discover_response, finish_discover, health, list_discoverers,
    parse_infohash, peer_feedback, statistics, DiscoverPlan, DiscoverRequest, InfohashError,
    PeerFeedbackRequest, SuperTrackerStats,
};
use peer_discovery_center::discoverers::pex::PexDiscoverer;
use peer_discovery_center::discoverers::webseed::WebSeedDiscoverer;
use peer_discovery_center::discoverers::{AnyDiscoverer, DiscovererRegistry};
use peer_discovery_center::net::{IpAddr, SocketAddr};
use peer_discovery_center::types::{PeerInfo, PeerSource};

fn make_peer(port: u16) -> PeerInfo {
    PeerInfo::new(SocketAddr::new(IpAddr::V4([127, 0, 0, 1]), port), PeerSource::Tracker)
}

fn request(force_refresh: bool) -> DiscoverRequest {
    DiscoverRequest { infohash: "aa".repeat(20), limit: 10, force_refresh }
}

#[test]
fn test_parse_infohash() {
    let hex_str = "a".repeat(40);
    let result = parse_infohash(&hex_str);
    assert!(result.is_ok());
    assert_eq!(result.unwrap(), [0xaa; 20]);
}

#[test]
fn test_parse_infohash_invalid_length() {
    let result = parse_infohash("abc");
    assert!(result.is_err());
}

#[test]
fn test_parse_infohash_invalid_hex() {
    let result = parse_infohash(&"g".repeat(40));
    assert!(result.is_err());
}

#[test]
fn errors_of_an_infohash() {
    let short = parse_infohash("abc").unwrap_err();
    assert!(matches!(short, InfohashError::Length(3)));
    assert!(short.message().contains('3'));
    let wrong = parse_infohash(&"g".repeat(40)).unwrap_err();
    assert!(matches!(wrong, InfohashError::NotHex(_)));
    assert!(wrong.message().contains("Invalid character 'g' at position 0"));
    assert_eq!(parse_infohash(&"0F".repeat(20)).unwrap(), [15u8; 20]);
}

#[test]
fn a_search_asks_the_cache_first() {
    let mut cache = PeerCache::default();
    assert!(matches!(
        begin_discover(&cache, &request(false)),
        DiscoverPlan::Search(ih) if ih == [0xaa; 20]
    ));
    cache.add_peers(&[0xaa; 20], &[make_peer(1)]);
    match begin_discover(&cache, &request(false)) {
        DiscoverPlan::Cached(found) => assert_eq!(found.total, 1),
        _ => panic!("the cache has a peer"),
    }
    assert!(matches!(begin_discover(&cache, &request(true)), DiscoverPlan::Search(_)));
    let bad = DiscoverRequest { infohash: "x".to_string(), limit: 1, force_refresh: false };
    assert!(matches!(begin_discover(&cache, &bad), DiscoverPlan::Refuse(_)));
}

#[test]
fn what_was_found_is_cached_and_told() {
    let mut cache = PeerCache::default();
    let found = vec![DiscovererOutcome {
        name: "d".to_string(),
        peers: Some(vec![make_peer(1), make_peer(2)]),
        duration: 1,
    }];
    let result = finish_discover(&mut cache, &[0xaa; 20], 10, &found);
    assert_eq!(result.peers.len(), 2);
    assert_eq!(cache.len_for_infohash(&[0xaa; 20]), 2);
    let response = discover_response(request(false), result, false, 12);
    assert_eq!(response.infohash, "aa".repeat(20));
    assert_eq!(response.total, 2);
    assert!(!response.from_cache);
    assert_eq!(response.duration_ms, 12);
    let query = cache_query(&cache, "aa".repeat(20)).unwrap();
    assert_eq!(query.count, 2);
    assert!(cache_query(&cache, "zz".to_string()).is_err());
}

#[test]
fn feedback_changes_a_peer() {
    let mut cache = PeerCache::default();
    cache.add_peers(&[1; 20], &[make_peer(1)]);
    let addr = SocketAddr::new(IpAddr::V4([127, 0, 0, 1]), 1);
    let response = peer_feedback(&mut cache, &feedback("01", true), Ok(addr)).unwrap();
    assert_eq!(response.status, "ok");
    assert!(response.updated);
    let peers = cache.get_peers(&[1; 20], 1);
    assert_eq!(peers[0].connection_successes, 1);
    for _ in 0..4 {
        let response = peer_feedback(&mut cache, &feedback("01", false), Ok(addr)).unwrap();
        assert!(response.updated);
    }
    let response = peer_feedback(&mut cache, &feedback("01", false), Ok(addr)).unwrap();
    assert!(!response.updated);
    assert_eq!(cache.len_for_infohash(&[1; 20]), 0);
}

#[test]
fn bad_feedback_is_refused() {
    let mut cache = PeerCache::default();
    let addr = SocketAddr::new(IpAddr::V4([127, 0, 0, 1]), 1);
    let error = peer_feedback(&mut cache, &feedback("zz", true), Ok(addr)).unwrap_err();
    assert!(error.error.starts_with("无效的 hex 字符串: "));
    let unread = Err("invalid socket address syntax".to_string());
    let error = peer_feedback(&mut cache, &feedback("01", true), unread).unwrap_err();
    assert_eq!(error.error, "无效的 addr: invalid socket address syntax");
    assert!(cache.is_empty());
}

fn feedback(byte: &str, success: bool) -> PeerFeedbackRequest {
    PeerFeedbackRequest {
        infohash: byte.repeat(20),
        addr: "127.0.0.1:1".to_string(),
        success,
        latency_ms: None,
        download_speed: None,
    }
}

#[test]
fn reports() {
    let mut registry = DiscovererRegistry::new();
    registry.register(AnyDiscoverer::Pex(PexDiscoverer::with_default_config()));
    registry.register(AnyDiscoverer::WebSeed(WebSeedDiscoverer::with_default_config()));
    let cache = PeerCache::default();
    let none = SuperTrackerStats { total_infohashes: 4, total_peers: 5 };
    let report = health(&registry, &cache, none, 77);
    assert_eq!(report.uptime_seconds, 77);
    assert_eq!(report.discoverers, 2);
    assert_eq!(report.super_tracker_peers, 5);
    let listed = list_discoverers(&registry);
    assert_eq!(listed.discoverers[0].name, "pex");
    assert!(listed.discoverers[0].enabled);
    assert_eq!(listed.discoverers[1].name, "webseed");
    assert!(!listed.discoverers[1].enabled);
    let numbers = statistics(&registry, &cache, none);
    assert_eq!(numbers.discoverer_stats.len(), 2);
    assert_eq!(numbers.discoverer_stats[0].total_requests, 0);
    assert_eq!(numbers.super_tracker_stats.total_infohashes, 4);
}
