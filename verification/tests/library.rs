use peer_discovery_center::cache::PeerCache;
use peer_discovery_center::discoverers::pex::PexDiscoverer;
use peer_discovery_center::discoverers::{AnyDiscoverer, DiscovererRegistry};
use peer_discovery_center::health_check::{HealthCheckConfig, HealthCheckTask};
use peer_discovery_center::history::{most_recent, DiscoveryHistoryRecord};
use peer_discovery_center::net::{IpAddr, SocketAddr};
use peer_discovery_center::types::{PeerInfo, PeerSource};
use peer_discovery_center::vecmap::VecMap;
use peer_discovery_center::{NAME, VERSION};

#[test]
fn test_version() {
    assert!(!VERSION.is_empty());
    assert_eq!(NAME, "PeerDiscoveryCenter");
}

#[test]
fn test_health_check_creation() {
    let task = HealthCheckTask::with_default_config();
    assert_eq!(task.config.interval, 300);
}

#[test]
fn health_check_of_discoverers() {
    let task = HealthCheckTask::new(HealthCheckConfig::default());
    let mut registry = DiscovererRegistry::new();
    registry.register(AnyDiscoverer::Pex(PexDiscoverer::with_default_config()));
    let failing = task.check(&registry);
    assert_eq!(failing.len(), registry.unhealthy().len());
    let mut cache = PeerCache::default();
    let old = PeerInfo::new_at(
        SocketAddr::new(IpAddr::V4([1, 2, 3, 4]), 5),
        PeerSource::Dht,
        1_000_000_000,
    );
    cache.add_peers_at(&[0u8; 20], &[old], 1_000_000_000);
    let (before, after) = task.cleanup(&mut cache);
    assert_eq!((before, after), (1, 0));
    let totals = task.totals(&registry.aggregate_stats(), &cache);
    assert_eq!(totals.total_requests, 0);
    assert_eq!(totals.cached_peers, 0);
}

#[test]
fn history_record_new() {
    let mut stats: VecMap<String, usize> = VecMap::new();
    stats.insert("tracker".to_string(), 10);
    let record = DiscoveryHistoryRecord::new("abc".to_string(), 10, stats, 100, true, None);
    assert_eq!(record.infohash, "abc");
    assert_eq!(record.peers_count, 10);
    assert!(record.success);
    assert!(!record.timestamp.is_empty());
}

fn record(infohash: &str, timestamp: &str) -> DiscoveryHistoryRecord {
    DiscoveryHistoryRecord::made_at(
        infohash.to_string(),
        0,
        VecMap::new(),
        0,
        true,
        None,
        timestamp.to_string(),
    )
}

#[test]
fn recent_records_come_first() {
    let records = vec![
        record("a", "2024-01-01T00:00:00+00:00"),
        record("b", "2024-03-01T00:00:00+00:00"),
        record("c", "2024-02-01T00:00:00+00:00"),
        record("d", "2024-03-01T00:00:00+00:00"),
    ];
    let recent = most_recent(records, 3);
    let names: Vec<&str> = recent.iter().map(|r| r.infohash.as_str()).collect();
    assert_eq!(names, vec!["b", "d", "c"]);
}
