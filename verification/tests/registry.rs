use peer_discovery_center::aggregator::{
    DiscovererOutcome, PeerDiscoveryAggregator, PeerDiscoveryConfig,
};
use peer_discovery_center::discoverers::DiscovererRegistry;
use peer_discovery_center::net::{IpAddr, SocketAddr};
use peer_discovery_center::traits::{DiscovererStats, DiscovererType, Label, PeerDiscoverer};
use peer_discovery_center::types::{Event, PeerInfo, PeerSource};

struct MockDiscoverer {
    name: String,
    enabled: bool,
    ports: Vec<u16>,
}

impl PeerDiscoverer for MockDiscoverer {
    fn label(&self) -> Label {
        unreachable!("contracts are not run")
    }

    fn kind(&self) -> DiscovererType {
        unreachable!("contracts are not run")
    }

    fn enabled(&self) -> bool {
        unreachable!("contracts are not run")
    }

    fn name(&self) -> &str {
        &self.name
    }

    fn discoverer_type(&self) -> DiscovererType {
        DiscovererType::Custom
    }

    fn is_enabled(&self) -> bool {
        self.enabled
    }
}

fn mock(name: &str, enabled: bool, ports: &[u16]) -> MockDiscoverer {
    MockDiscoverer { name: name.to_string(), enabled, ports: ports.to_vec() }
}

fn make_peer(port: u16) -> PeerInfo {
    PeerInfo::new(SocketAddr::new(IpAddr::V4([127, 0, 0, 1]), port), PeerSource::Tracker)
}

/// What the discoverers at these positions find.
fn outcomes(all: &Vec<MockDiscoverer>, chosen: &Vec<usize>) -> Vec<DiscovererOutcome> {
    let mut out = Vec::new();
    for i in chosen {
        let found = all[*i].ports.iter().map(|p| make_peer(*p)).collect();
        out.push(DiscovererOutcome {
            name: all[*i].name().to_string(),
            peers: Some(found),
            duration: 1,
        });
    }
    out
}

fn aggregator(mocks: Vec<MockDiscoverer>) -> PeerDiscoveryAggregator<MockDiscoverer> {
    let mut registry = DiscovererRegistry::new();
    for m in mocks {
        registry.register(m);
    }
    PeerDiscoveryAggregator::new(PeerDiscoveryConfig::default(), registry)
}

#[test]
fn test_register_and_get() {
    let mut registry = DiscovererRegistry::new();
    registry.register(mock("mock", true, &[6881]));
    assert_eq!(registry.len(), 1);
    assert!(registry.get("mock").is_some());
    assert!(registry.get("nonexistent").is_none());
}

#[test]
fn test_enabled_filter() {
    let mut registry = DiscovererRegistry::new();
    registry.register(mock("enabled", true, &[]));
    registry.register(mock("disabled", false, &[]));
    assert_eq!(registry.enabled().len(), 1);
}

#[test]
fn test_unregister() {
    let mut registry = DiscovererRegistry::new();
    registry.register(mock("mock", true, &[]));
    registry.unregister("mock");
    assert_eq!(registry.len(), 0);
}

#[test]
fn test_discover_all() {
    let mut registry = DiscovererRegistry::new();
    registry.register(mock("d1", true, &[6881]));
    registry.register(mock("d2", true, &[6882]));

    let results = outcomes(registry.all(), &registry.to_call(10).positions);
    assert_eq!(results.len(), 2);
}

#[test]
fn all_are_called_few_at_once() {
    let mut registry = DiscovererRegistry::new();
    registry.register(mock("d1", false, &[]));
    registry.register(mock("d2", true, &[]));
    registry.register(mock("d3", true, &[]));
    let mut calls = registry.to_call(1);
    assert_eq!(calls.positions, vec![1, 2]);
    assert_eq!(calls.turns.start(), Some(0));
    assert_eq!(calls.turns.start(), None);
    calls.turns.finish();
    assert_eq!(calls.turns.start(), Some(1));
    calls.turns.finish();
    assert_eq!(calls.turns.start(), None);
    let mut calls = registry.to_call(5);
    assert_eq!(calls.turns.start(), Some(0));
    assert_eq!(calls.turns.start(), Some(1));
    assert_eq!(registry.enabled(), vec![1, 2]);
}

#[test]
fn aggregator_test_discover_peers() {
    let mut aggregator = aggregator(vec![mock("mock", true, &[6881, 6882])]);
    let found = outcomes(aggregator.discoverers(), &aggregator.plan().positions);

    let infohash = [0u8; 20];
    let merged = aggregator.merge_results(&infohash, 100, &found, 1);

    assert_eq!(merged.result.peers.len(), 2);
    assert_eq!(aggregator.cache().len_for_infohash(&infohash), 2);
}

#[test]
fn test_dedup_across_discoverers() {
    let mut aggregator = aggregator(vec![mock("d1", true, &[6881]), mock("d2", true, &[6881])]);
    let found = outcomes(aggregator.discoverers(), &aggregator.plan().positions);

    let infohash = [0u8; 20];
    let merged = aggregator.merge_results(&infohash, 100, &found, 1);

    assert_eq!(merged.result.peers.len(), 1);
}

#[test]
fn test_event_published() {
    let mut aggregator = aggregator(vec![mock("mock", true, &[6881])]);
    let found = outcomes(aggregator.discoverers(), &aggregator.plan().positions);

    let infohash = [0u8; 20];
    let merged = aggregator.merge_results(&infohash, 100, &found, 1);

    assert!(matches!(merged.event, Some(Event::PeerDiscovered { .. })));
}

#[test]
fn a_failed_discoverer_adds_nothing() {
    let mut aggregator = aggregator(vec![mock("d1", true, &[]), mock("d2", true, &[])]);
    let found = vec![
        DiscovererOutcome { name: "d1".to_string(), peers: None, duration: 7 },
        DiscovererOutcome { name: "d2".to_string(), peers: Some(vec![make_peer(1)]), duration: 3 },
    ];
    let merged = aggregator.merge_results(&[0u8; 20], 100, &found, 9);
    assert_eq!(merged.result.peers.len(), 1);
    assert_eq!(merged.result.total_duration, 9);
    assert_eq!(merged.result.discoverer_durations.get(&"d2".to_string()), Some(&3));
    assert_eq!(merged.result.source_stats.get(&PeerSource::Tracker), Some(&1));
}

#[test]
fn nothing_found_is_no_news() {
    let mut aggregator = aggregator(vec![mock("d1", true, &[])]);
    let found = outcomes(aggregator.discoverers(), &aggregator.plan().positions);
    let merged = aggregator.merge_results(&[0u8; 20], 100, &found, 1);
    assert!(merged.result.peers.is_empty());
    assert!(merged.event.is_none());
}

#[test]
fn the_limit_cuts_the_list() {
    let mut aggregator = aggregator(vec![mock("d1", true, &[1, 2, 3, 4])]);
    let found = outcomes(aggregator.discoverers(), &aggregator.plan().positions);
    let merged = aggregator.merge_results(&[0u8; 20], 3, &found, 1);
    assert_eq!(merged.result.peers.len(), 3);
}

#[test]
fn statistics_add_up() {
    let mut one = DiscovererStats::default();
    one.record_success_at(4, 100);
    let mut two = DiscovererStats::default();
    two.record_failure_at(100);
    two.record_success_at(1, 101);
    assert_eq!(two.last_failure_at, Some(100));
    let aggregator = aggregator(vec![]);
    let all = aggregator.aggregate_stats(vec![("a".to_string(), one), ("b".to_string(), two)]);
    assert_eq!(all.total_requests, 3);
    assert_eq!(all.success_requests, 2);
    assert_eq!(all.failed_requests, 1);
    assert_eq!(all.total_peers_discovered, 5);
    assert_eq!(all.cached_peers, 0);
}
