use peer_discovery_center::config::PdcConfig;

#[test]
fn test_default_config() {
    let config = PdcConfig::default();
    assert_eq!(config.server.port, 6880);
    assert!(config.super_tracker.enabled);
    assert_eq!(config.super_tracker.interval, 1800);
    assert!(config.discoverers.enable_tracker);
    assert!(!config.discoverers.enable_lpd);
    assert!(!config.crawler.enabled);
}
