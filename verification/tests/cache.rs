use peer_discovery_center::cache::PeerCache;
use peer_discovery_center::net::{IpAddr, SocketAddr};
use peer_discovery_center::types::{PeerInfo, PeerSource};

const SECOND: u64 = 1_000_000_000;

fn make_addr(port: u16) -> SocketAddr {
    SocketAddr::new(IpAddr::V4([127, 0, 0, 1]), port)
}

fn make_peer(port: u16, source: PeerSource) -> PeerInfo {
    PeerInfo::new(make_addr(port), source)
}

#[test]
fn test_add_and_get() {
    let mut cache = PeerCache::default();
    let infohash = [0u8; 20];

    let peers = vec![
        make_peer(6881, PeerSource::Tracker),
        make_peer(6882, PeerSource::Dht),
        make_peer(6883, PeerSource::Pex),
    ];

    cache.add_peers(&infohash, &peers);
    assert_eq!(cache.len_for_infohash(&infohash), 3);

    let result = cache.get_peers(&infohash, 10);
    assert_eq!(result.len(), 3);
    assert_eq!(result[0].source, PeerSource::Tracker);
}

#[test]
fn test_dedup() {
    let mut cache = PeerCache::default();
    let infohash = [0u8; 20];

    let peer1 = make_peer(6881, PeerSource::Tracker);
    let peer2 = make_peer(6881, PeerSource::Dht);

    cache.add_peers(&infohash, &[peer1, peer2]);
    assert_eq!(cache.len_for_infohash(&infohash), 1);
}

#[test]
fn test_connection_feedback() {
    let mut cache = PeerCache::default();
    let infohash = [0u8; 20];
    let addr = make_addr(6881);

    let peer = make_peer(6881, PeerSource::Tracker);
    cache.add_peers(&infohash, &[peer]);

    cache.mark_connection_success(&infohash, &addr);
    let result = cache.get_peers(&infohash, 10);
    assert_eq!(result[0].connection_successes, 1);
    assert_eq!(result[0].connection_attempts, 1);

    for _ in 0..5 {
        cache.mark_connection_failure(&infohash, &addr);
    }
    assert_eq!(cache.len_for_infohash(&infohash), 0);
}

#[test]
fn cache_test_stats() {
    let mut cache = PeerCache::default();
    let infohash1 = [0u8; 20];
    let infohash2 = [1u8; 20];

    cache.add_peers(&infohash1, &[make_peer(6881, PeerSource::Tracker)]);
    cache.add_peers(
        &infohash2,
        &[make_peer(6882, PeerSource::Dht), make_peer(6883, PeerSource::Pex)],
    );

    let (ih_count, peer_count) = cache.stats();
    assert_eq!(ih_count, 2);
    assert_eq!(peer_count, 3);
}

#[test]
fn limit_of_a_request() {
    let mut cache = PeerCache::default();
    let infohash = [3u8; 20];
    cache.add_peers(
        &infohash,
        &[
            make_peer(1, PeerSource::Pex),
            make_peer(2, PeerSource::Tracker),
            make_peer(3, PeerSource::Dht),
        ],
    );
    let best = cache.get_peers(&infohash, 1);
    assert_eq!(best.len(), 1);
    assert_eq!(best[0].addr, make_addr(2));
    assert!(cache.get_peers(&infohash, 0).is_empty());
    assert!(cache.get_peers(&[9u8; 20], 10).is_empty());
}

#[test]
fn infohashes_are_listed_and_cleared() {
    let mut cache = PeerCache::default();
    assert!(cache.is_empty());
    cache.add_peers(&[1u8; 20], &[make_peer(1, PeerSource::Dht)]);
    cache.add_peers(&[2u8; 20], &[make_peer(2, PeerSource::Dht)]);
    let mut known = cache.infohashes();
    known.sort();
    assert_eq!(known, vec![[1u8; 20], [2u8; 20]]);
    assert_eq!(cache.peer_count(&[1u8; 20]), 1);
    assert_eq!(cache.len(), 2);
    cache.clear();
    assert!(cache.is_empty());
    assert!(cache.infohashes().is_empty());
}

#[test]
fn expired_peers_are_dropped() {
    let mut cache = PeerCache::default();
    let then = 1000 * SECOND;
    let old = PeerInfo::new_at(make_addr(1), PeerSource::Dht, then);
    cache.add_peers_at(&[1u8; 20], &[old], then);
    cache.cleanup_expired_at(then + 86400 * SECOND);
    assert_eq!(cache.len(), 1);
    assert!(cache.get_peers_at(&[1u8; 20], 10, then + 86400 * SECOND + 1).is_empty());
    cache.cleanup_expired_at(then + 86400 * SECOND + 1);
    assert_eq!(cache.len(), 0);
}

#[test]
fn score_of_a_peer() {
    let mut peer = PeerInfo::new_at(make_addr(1), PeerSource::Tracker, 0);
    peer.calculate_priority_at(299 * SECOND);
    assert_eq!(peer.priority_score, 100 + 50 + 40);
    peer.calculate_priority_at(300 * SECOND);
    assert_eq!(peer.priority_score, 100 + 50 + 20);
    peer.calculate_priority_at(1800 * SECOND);
    assert_eq!(peer.priority_score, 100 + 50);
    peer.connection_attempts = 4;
    peer.connection_successes = 3;
    peer.calculate_priority_at(1800 * SECOND);
    assert_eq!(peer.priority_score, 100 + 50 + 75);
    let mut usual = PeerInfo::new_at(make_addr(6889), PeerSource::Dht, 0);
    usual.calculate_priority_at(1800 * SECOND);
    assert_eq!(usual.priority_score, 80 + 50 + 30);
    let mut other = PeerInfo::new_at(make_addr(51413), PeerSource::Dht, 0);
    other.calculate_priority_at(1800 * SECOND);
    assert_eq!(other.priority_score, 80 + 50 + 20);
}

#[test]
fn no_more_peers_than_allowed() {
    let mut cache = PeerCache::new(1, 86400);
    let old = PeerInfo::new_at(make_addr(1), PeerSource::Tracker, SECOND);
    let new = PeerInfo::new_at(make_addr(2), PeerSource::Dht, 2 * SECOND);
    cache.add_peers_at(&[1u8; 20], &[old, new], 2 * SECOND);
    assert_eq!(cache.len(), 1);
    assert_eq!(cache.get_peers_at(&[1u8; 20], 10, 2 * SECOND)[0].addr, make_addr(2));
    let newest = PeerInfo::new_at(make_addr(3), PeerSource::Dht, 3 * SECOND);
    cache.add_peers_at(&[2u8; 20], &[newest], 3 * SECOND);
    assert_eq!(cache.len(), 1);
    assert_eq!(cache.len_for_infohash(&[1u8; 20]), 0);
    assert_eq!(cache.len_for_infohash(&[2u8; 20]), 1);
}

#[test]
fn a_cache_has_its_own_lifetime() {
    let mut cache = PeerCache::new(10, 60);
    let then = 1000 * SECOND;
    let peer = PeerInfo::new_at(make_addr(1), PeerSource::Dht, then);
    cache.add_peers_at(&[1u8; 20], &[peer], then);
    assert_eq!(cache.get_peers_at(&[1u8; 20], 10, then + 60 * SECOND).len(), 1);
    assert!(cache.get_peers_at(&[1u8; 20], 10, then + 60 * SECOND + 1).is_empty());
    cache.cleanup_expired_at(then + 61 * SECOND);
    assert!(cache.is_empty());
}

#[test]
fn only_failures_in_a_row_count() {
    let mut cache = PeerCache::default();
    let infohash = [1u8; 20];
    cache.add_peers_at(&infohash, &[PeerInfo::new_at(make_addr(1), PeerSource::Dht, SECOND)], SECOND);
    for _ in 0..2 {
        for _ in 0..4 {
            cache.mark_connection_failure_at(&infohash, &make_addr(1), SECOND);
        }
        assert_eq!(cache.len(), 1);
        assert!(cache.can_count_connection(&infohash, &make_addr(1)));
        cache.mark_connection_success_at(&infohash, &make_addr(1), SECOND);
    }
    for _ in 0..5 {
        cache.mark_connection_failure_at(&infohash, &make_addr(1), SECOND);
    }
    assert_eq!(cache.len(), 0);
}

#[test]
fn a_score_has_an_upper_end() {
    let mut peer = PeerInfo::new_at(make_addr(1), PeerSource::Tracker, 0);
    peer.connection_attempts = 1;
    peer.connection_successes = u32::MAX;
    peer.calculate_priority_at(0);
    assert_eq!(peer.priority_score, u32::MAX);
}
