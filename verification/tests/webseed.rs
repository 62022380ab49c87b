use peer_discovery_center::discoverers::webseed::{WebSeedConfig, WebSeedDiscoverer};
use peer_discovery_center::net::{IpAddr, SocketAddr};
use peer_discovery_center::traits::PeerDiscoverer;
use peer_discovery_center::types::PeerSource;

fn key() -> String {
    "webseed_url".to_string()
}

#[test]
fn test_webseed_config_default() {
    let config = WebSeedConfig::default();
    assert!(config.urls.is_empty());
    assert!(!config.enabled);
}

#[test]
fn test_webseed_discoverer_creation() {
    let discoverer = WebSeedDiscoverer::with_default_config();
    assert_eq!(discoverer.name(), "webseed");
    assert!(!discoverer.is_enabled());
}

#[test]
fn test_add_url() {
    let mut discoverer = WebSeedDiscoverer::with_default_config();
    discoverer.config.enabled = true;
    discoverer.add_url("http://example.com/file".to_string());
    assert!(discoverer.is_enabled());
}

#[test]
fn client_test_discover_peers() {
    let mut config = WebSeedConfig::default();
    config.enabled = true;
    config.urls =
        vec!["http://example.com/file1".to_string(), "http://example.com/file2".to_string()];
    let mut discoverer = WebSeedDiscoverer::new(config);

    let infohash = [0u8; 20];
    let peers = discoverer.discover_peers(&infohash, 10);
    assert_eq!(peers.len(), 2);
    assert_eq!(peers[0].source, PeerSource::WebSeed);
    assert_eq!(peers[0].metadata.get(&key()).unwrap(), "http://example.com/file1");
    assert_eq!(peers[0].priority_score, 200);
}

#[test]
fn test_discover_peers_with_limit() {
    let mut config = WebSeedConfig::default();
    config.enabled = true;
    config.urls = vec![
        "http://example.com/1".to_string(),
        "http://example.com/2".to_string(),
        "http://example.com/3".to_string(),
    ];
    let mut discoverer = WebSeedDiscoverer::new(config);

    let infohash = [0u8; 20];
    let peers = discoverer.discover_peers(&infohash, 2);
    assert_eq!(peers.len(), 2);
}

#[test]
fn test_url_to_peer_info() {
    let info = WebSeedDiscoverer::url_to_peer_info("http://example.com/file", 0);
    assert_eq!(info.addr, SocketAddr::new(IpAddr::V4([0, 0, 0, 0]), 1));
    assert_eq!(info.source, PeerSource::WebSeed);
    assert_eq!(info.metadata.get(&key()).unwrap(), "http://example.com/file");
}

#[test]
fn test_infohash_specific_urls() {
    let mut config = WebSeedConfig::default();
    config.enabled = true;
    config.urls = vec!["http://global.com".to_string()];
    let infohash = [1u8; 20];
    config.infohash_urls.insert(infohash, vec!["http://specific.com".to_string()]);

    let discoverer = WebSeedDiscoverer::new(config);
    let urls = discoverer.get_urls_for_infohash(&infohash);
    assert_eq!(urls.len(), 2);
    assert!(urls.contains(&"http://global.com".to_string()));
    assert!(urls.contains(&"http://specific.com".to_string()));
}

#[test]
fn sources_have_their_own_addresses() {
    let a = WebSeedDiscoverer::url_to_peer_info("http://example.com/a", 0);
    let b = WebSeedDiscoverer::url_to_peer_info("http://example.com/b", 1);
    assert_ne!(a.addr, b.addr);
}

#[test]
fn urls_of_one_infohash() {
    let mut discoverer = WebSeedDiscoverer::with_default_config();
    discoverer.add_infohash_url([1u8; 20], "http://a".to_string());
    discoverer.add_infohash_url([1u8; 20], "http://b".to_string());
    assert_eq!(discoverer.get_urls_for_infohash(&[1u8; 20]).len(), 2);
    assert!(discoverer.get_urls_for_infohash(&[2u8; 20]).is_empty());
}
