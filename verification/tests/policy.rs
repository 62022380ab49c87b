use peer_discovery_center::config::PdcConfig;
use peer_discovery_center::control_plane::policy::DiscoveryPolicy;
use peer_discovery_center::traits::DiscovererType;

#[test]
fn test_default_policy() {
    let policy = DiscoveryPolicy::default();
    assert_eq!(policy.max_concurrent, 10);
    assert!(policy.is_type_enabled(DiscovererType::Tracker));
    assert!(policy.is_type_enabled(DiscovererType::Dht));
    assert!(policy.is_type_enabled(DiscovererType::Pex));
    assert!(!policy.is_type_enabled(DiscovererType::Lpd));
}

#[test]
fn test_should_trigger_discovery() {
    let policy = DiscoveryPolicy::default();
    assert!(policy.should_trigger_discovery(10));
    assert!(!policy.should_trigger_discovery(30));
}

#[test]
fn test_from_config() {
    let mut config = PdcConfig::default();
    config.discoverers.enable_dht = false;
    config.discoverers.enable_lpd = true;
    let policy = DiscoveryPolicy::from_config(&config);
    assert!(policy.is_type_enabled(DiscovererType::Tracker));
    assert!(!policy.is_type_enabled(DiscovererType::Dht));
    assert!(policy.is_type_enabled(DiscovererType::Lpd));
}

