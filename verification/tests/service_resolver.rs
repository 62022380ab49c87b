use peer_discovery_center::service_resolver::{
    LoadBalanceStrategy, ServiceInfo, ServiceResolver, ServiceResolverConfig,
};

const SECOND: u64 = 1_000_000_000;

fn service(agent_id: u128, host: &str, load: u32) -> ServiceInfo {
    ServiceInfo {
        agent_id,
        name: "test".to_string(),
        agent_type: "pdc".to_string(),
        host: host.to_string(),
        port: 6881,
        capabilities: vec![],
        health: "healthy".to_string(),
        load,
        region: None,
        version: "0.1.0".to_string(),
    }
}

fn resolver(strategy: LoadBalanceStrategy) -> ServiceResolver {
    ServiceResolver::new(ServiceResolverConfig { strategy, ..Default::default() })
}

#[test]
fn service_info_base_url() {
    let info = ServiceInfo {
        agent_id: 1,
        name: "pdc-1".to_string(),
        agent_type: "pdc".to_string(),
        host: "10.0.0.5".to_string(),
        port: 6881,
        capabilities: vec!["tracker".to_string()],
        health: "healthy".to_string(),
        load: 3,
        region: None,
        version: "0.1.0".to_string(),
    };
    assert_eq!(info.base_url(), "http://10.0.0.5:6881");
    assert!(info.is_healthy());
    assert!(info.has_capability("tracker"));
    assert!(!info.has_capability("dht"));
}

#[test]
fn resolver_config_defaults() {
    let config = ServiceResolverConfig::default();
    assert_eq!(config.cache_ttl_secs, 60);
    assert_eq!(config.failure_cooldown_secs, 30);
    assert_eq!(config.max_consecutive_failures, 3);
    assert_eq!(config.strategy, LoadBalanceStrategy::LeastLoad);
}

#[test]
fn failure_record_tracking() {
    let mut resolver = ServiceResolver::new(ServiceResolverConfig::default());
    let id = 0x1234;

    resolver.record_failure(id);
    resolver.record_failure(id);
    resolver.record_failure(id);

    let filtered = resolver.filter_healthy(&vec![service(id, "127.0.0.1", 0)]);
    assert!(filtered.is_empty());

    resolver.record_success(id);
    let filtered2 = resolver.filter_healthy(&vec![service(id, "127.0.0.1", 0)]);
    assert_eq!(filtered2.len(), 1);
}

#[test]
fn a_failing_agent_rests_for_a_while() {
    let mut resolver = ServiceResolver::new(ServiceResolverConfig::default());
    for _ in 0..3 {
        resolver.record_failure_at(7, 0);
    }
    let all = vec![service(7, "a", 0), service(8, "b", 0)];
    let left = resolver.filter_healthy_at(&all, 29 * SECOND);
    assert_eq!(left.len(), 1);
    assert_eq!(left[0].agent_id, 8);
    assert_eq!(resolver.filter_healthy_at(&all, 31 * SECOND).len(), 2);
}

#[test]
fn answers_are_kept_for_a_while() {
    let mut resolver = ServiceResolver::new(ServiceResolverConfig::default());
    assert!(resolver.resolve_cached_at("pdc", None, 0).is_none());
    let stored = resolver.store_at("pdc", None, vec![service(1, "a", 0)], 0);
    assert_eq!(stored.len(), 1);
    assert_eq!(resolver.cached_count(), 1);
    let again = resolver.resolve_cached_at("pdc", None, 59 * SECOND).unwrap();
    assert_eq!(again[0].host, "a");
    assert!(resolver.resolve_cached_at("pdc", None, 61 * SECOND).is_none());
    assert!(resolver.resolve_cached_at("pdc", Some("dht"), SECOND).is_none());
    resolver.clear_cache();
    assert_eq!(resolver.cached_count(), 0);
    assert!(resolver.resolve_cached_at("pdc", None, SECOND).is_none());
}

#[test]
fn questions_to_the_controller() {
    let config = ServiceResolverConfig {
        master_url: "http://master:8080".to_string(),
        ..Default::default()
    };
    let resolver = ServiceResolver::new(config);
    let plain = resolver.query_url("pdc", None);
    assert!(plain.starts_with("http://master:8080/"));
    assert!(plain.contains("pdc"));
    assert!(resolver.query_url("pdc", Some("dht")).contains("dht"));
}

#[test]
fn the_least_loaded_is_taken() {
    let mut resolver = resolver(LoadBalanceStrategy::LeastLoad);
    let all = vec![service(1, "a", 9), service(2, "b", 3), service(3, "c", 5)];
    let chosen = resolver.select_from("pdc", None, &all).unwrap();
    assert_eq!(chosen.agent_id, 2);
    assert!(resolver.select_from("pdc", None, &vec![]).is_none());
}

#[test]
fn turns_go_round() {
    let mut resolver = resolver(LoadBalanceStrategy::RoundRobin);
    let all = vec![service(1, "a", 0), service(2, "b", 0), service(3, "c", 0)];
    let mut seen: Vec<u128> = Vec::new();
    for _ in 0..6 {
        seen.push(resolver.select_from("pdc", None, &all).unwrap().agent_id);
    }
    for i in 0..3 {
        assert_eq!(seen[i], seen[i + 3]);
    }
    let mut once = seen[0..3].to_vec();
    once.sort();
    assert_eq!(once, vec![1, 2, 3]);
}

#[test]
fn a_drawn_one_is_taken() {
    let mut resolver = resolver(LoadBalanceStrategy::Random);
    let all = vec![service(1, "a", 0), service(2, "b", 0)];
    assert_eq!(resolver.select_drawn("pdc", None, &all, 1).unwrap().agent_id, 2);
    let drawn = resolver.select_from("pdc", None, &all).unwrap().agent_id;
    assert!(drawn == 1 || drawn == 2);
}
