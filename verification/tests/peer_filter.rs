use peer_discovery_center::net::IpAddr;
use peer_discovery_center::peer_filter::{PeerFilter, PeerFilterConfig};
use std::time::{Duration, Instant};

const SECOND: u64 = 1_000_000_000;

fn make_ip(i: u8) -> IpAddr {
    IpAddr::V4([192, 168, 1, i])
}

#[test]
fn test_not_banned_initially() {
    let filter = PeerFilter::default();
    let ip = make_ip(1);
    assert!(!filter.is_banned(&ip));
}

#[test]
fn test_record_request_not_banned() {
    let mut filter = PeerFilter::default();
    let ip = make_ip(1);
    assert!(!filter.record_request(&ip));
    assert!(!filter.is_banned(&ip));
}

#[test]
fn test_high_frequency_ban() {
    let config =
        PeerFilterConfig { max_requests_per_second: 5, window_secs: 1, ..Default::default() };
    let mut filter = PeerFilter::new(config);
    let ip = make_ip(1);

    for _ in 0..100 {
        filter.record_request(&ip);
    }

    assert!(filter.is_banned(&ip));
}

#[test]
fn test_token_failure_ban() {
    let config = PeerFilterConfig { max_token_failures: 3, ..Default::default() };
    let mut filter = PeerFilter::new(config);
    let ip = make_ip(2);

    for _ in 0..2 {
        assert!(!filter.record_token_failure(&ip));
    }
    assert!(filter.record_token_failure(&ip));
    assert!(filter.is_banned(&ip));
}

#[test]
fn test_unban() {
    let config = PeerFilterConfig { max_token_failures: 1, ..Default::default() };
    let mut filter = PeerFilter::new(config);
    let ip = make_ip(3);

    filter.record_token_failure(&ip);
    assert!(filter.is_banned(&ip));

    filter.unban(&ip);
    assert!(!filter.is_banned(&ip));
}

#[test]
fn test_banned_peers_list() {
    let config = PeerFilterConfig { max_token_failures: 1, ..Default::default() };
    let mut filter = PeerFilter::new(config);

    filter.record_token_failure(&make_ip(1));
    filter.record_token_failure(&make_ip(2));

    let banned = filter.banned_peers();
    assert_eq!(banned.len(), 2);
}

#[test]
fn test_cleanup() {
    let config = PeerFilterConfig { record_ttl_secs: 0, ..Default::default() };
    let mut filter = PeerFilter::new(config);
    filter.record_request(&make_ip(1));

    let start = Instant::now();
    while start.elapsed() < Duration::from_millis(10) {}

    let cleaned = filter.cleanup();
    assert!(cleaned >= 1);
}

#[test]
fn peer_filter_test_stats() {
    let config = PeerFilterConfig { max_token_failures: 1, ..Default::default() };
    let mut filter = PeerFilter::new(config);

    filter.record_request(&make_ip(1));
    filter.record_token_failure(&make_ip(2));

    let stats = filter.stats();
    assert_eq!(stats.total_tracked, 2);
    assert_eq!(stats.currently_banned, 1);
    assert_eq!(stats.total_bans, 1);
}

#[test]
fn test_escalating_ban_duration() {
    let config = PeerFilterConfig {
        max_token_failures: 1,
        initial_ban_secs: 60,
        max_ban_secs: 3600,
        ..Default::default()
    };
    let mut filter = PeerFilter::new(config);
    let ip = make_ip(4);

    filter.record_token_failure(&ip);
    let first_ban = filter.banned_peers()[0].1;

    filter.unban(&ip);
    filter.record_token_failure(&ip);
    let second_ban = filter.banned_peers()[0].1;

    assert!(second_ban > first_ban);
}

#[test]
fn bans_end_and_double_up_to_a_limit() {
    let config = PeerFilterConfig {
        max_token_failures: 1,
        initial_ban_secs: 60,
        max_ban_secs: 100,
        ..Default::default()
    };
    let mut filter = PeerFilter::new(config);
    let ip = make_ip(5);
    assert!(filter.record_token_failure_at(&ip, 0));
    assert_eq!(filter.banned_peers_at(0)[0].1, 60 * SECOND as u128);
    assert!(filter.is_banned_at(&ip, 59 * SECOND));
    assert!(!filter.is_banned_at(&ip, 60 * SECOND));
    filter.unban(&ip);
    assert!(filter.record_token_failure_at(&ip, 0));
    assert_eq!(filter.banned_peers_at(0)[0].1, 100 * SECOND as u128);
}

#[test]
fn too_many_infohashes() {
    let config = PeerFilterConfig { max_unique_infohashes: 3, ..Default::default() };
    let mut filter = PeerFilter::new(config);
    let ip = make_ip(6);
    for _ in 0..3 {
        assert!(!filter.record_infohash_query_at(&ip, 0));
    }
    assert!(filter.record_infohash_query_at(&ip, 0));
    assert!(filter.is_banned_at(&ip, 1));
    assert_eq!(filter.len(), 1);
}
