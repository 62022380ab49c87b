use peer_discovery_center::config::PdcConfig;
use peer_discovery_center::control_plane::ControlPlane;
use peer_discovery_center::discoverers::DiscovererRegistry;
use peer_discovery_center::traits::PeerDiscoverer;
use peer_discovery_center::types::Event;

fn control_plane() -> ControlPlane {
    ControlPlane::new(PdcConfig::default(), DiscovererRegistry::new())
}

#[test]
fn test_control_plane_creation() {
    let cp = control_plane();
    assert_eq!(cp.registry().len(), 0);
}

#[test]
fn test_config_update() {
    let mut cp = control_plane();

    let mut new_config = PdcConfig::default();
    new_config.server.port = 9999;
    let event = cp.update_config(new_config);

    assert_eq!(cp.config().server.port, 9999);
    assert!(matches!(event, Event::ConfigChanged));
}

#[test]
fn test_init_default_discoverers() {
    let mut cp = control_plane();
    cp.init_default_discoverers();
    assert_eq!(cp.registry().len(), 3);
}

#[test]
fn every_kind_of_discoverer() {
    let mut config = PdcConfig::default();
    config.discoverers.enable_lpd = true;
    config.discoverers.enable_webseed = true;
    let mut cp = ControlPlane::new(config, DiscovererRegistry::new());
    cp.init_default_discoverers();
    let names: Vec<&str> = cp.registry().all().iter().map(|d| d.name()).collect();
    assert_eq!(names, vec!["tracker", "dht", "pex", "lpd", "webseed"]);

    cp.unregister_discoverer("dht");
    assert!(cp.registry().get("dht").is_none());
    assert_eq!(cp.registry().len(), 4);
}

#[test]
fn policy_of_the_configuration() {
    let mut config = PdcConfig::default();
    config.discoverers.max_concurrent = 7;
    let cp = ControlPlane::new(config, DiscovererRegistry::new());
    assert_eq!(cp.policy().max_concurrent, 7);
}
