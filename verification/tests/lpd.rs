use peer_discovery_center::discoverers::lpd::{
    LpdConfig, LpdDiscoverer, LPD_MULTICAST_ADDR, LPD_MULTICAST_PORT,
};
use peer_discovery_center::net::{IpAddr, SocketAddr};
use peer_discovery_center::traits::PeerDiscoverer;
use peer_discovery_center::types::PeerSource;

const SECOND: u64 = 1_000_000_000;

fn neighbour() -> SocketAddr {
    SocketAddr::new(IpAddr::V4([192, 168, 0, 9]), 6771)
}

#[test]
fn test_lpd_config_default() {
    let config = LpdConfig::default();
    assert_eq!(config.listen_port, 6881);
    assert_eq!(config.multicast_port, 6771);
    assert!(!config.cookie.is_empty());
    assert!(config.enabled);
}

#[test]
fn test_build_lpd_message() {
    let infohash = [1u8; 20];
    let msg = LpdDiscoverer::build_lpd_message(&infohash, 6881, "testcookie");
    let text = String::from_utf8_lossy(&msg);
    assert!(text.contains("BT-SEARCH"));
    assert!(text.contains("Infohash: 0101010101010101010101010101010101010101"));
    assert!(text.contains("Port: 6881"));
    assert!(text.contains("cookie: testcookie"));
}

#[test]
fn test_parse_lpd_message() {
    let infohash = [1u8; 20];
    let msg = LpdDiscoverer::build_lpd_message(&infohash, 6881, "othercookie");
    let (parsed_ih, port) = LpdDiscoverer::parse_lpd_message(&msg, "ourcookie").unwrap();
    assert_eq!(parsed_ih, infohash);
    assert_eq!(port, Some(6881));
}

#[test]
fn test_parse_lpd_message_own_cookie() {
    let infohash = [1u8; 20];
    let msg = LpdDiscoverer::build_lpd_message(&infohash, 6881, "ourcookie");
    assert!(LpdDiscoverer::parse_lpd_message(&msg, "ourcookie").is_none());
}

#[test]
fn test_parse_lpd_message_invalid() {
    assert!(LpdDiscoverer::parse_lpd_message(b"GET / HTTP/1.1", "cookie").is_none());
    assert!(LpdDiscoverer::parse_lpd_message(b"", "cookie").is_none());
}

#[test]
fn test_lpd_discoverer_creation() {
    let discoverer = LpdDiscoverer::with_default_config();
    assert_eq!(discoverer.name(), "lpd");
    assert!(discoverer.is_enabled());
}

#[test]
fn group_of_local_discovery() {
    assert_eq!(LPD_MULTICAST_ADDR, "239.192.152.143");
    assert_eq!(LPD_MULTICAST_PORT, 6771);
    assert_eq!(LpdConfig::default().multicast_addr, [239, 192, 152, 143]);
}

#[test]
fn cookies_are_drawn() {
    let a = LpdConfig::default().cookie;
    let b = LpdConfig::default().cookie;
    assert_ne!(a, b);
    assert!(a.chars().all(|c| c.is_ascii_alphanumeric()));
}

#[test]
fn a_message_line_by_line() {
    let msg = LpdDiscoverer::build_lpd_message(&[0xABu8; 20], 80, "c");
    let text = String::from_utf8(msg).unwrap();
    let mut lines = text.split("\r\n");
    assert_eq!(lines.next(), Some("BT-SEARCH * HTTP/1.1"));
    assert!(text.ends_with("\r\n\r\n"));
}

#[test]
fn a_bad_infohash_or_port_is_not_heard() {
    let short = b"BT-SEARCH * HTTP/1.1\r\nPort: 1\r\nInfohash: abcd\r\n\r\n";
    assert!(LpdDiscoverer::parse_lpd_message(short, "c").is_none());
    let text = format!("BT-SEARCH * HTTP/1.1\r\nPort: x\r\nInfohash: {}\r\n\r\n", "ab".repeat(20));
    let (infohash, port) = LpdDiscoverer::parse_lpd_message(text.as_bytes(), "c").unwrap();
    assert_eq!(infohash, [0xAB; 20]);
    assert_eq!(port, None);
}

#[test]
fn a_heard_peer_is_collected() {
    let mut discoverer = LpdDiscoverer::with_default_config();
    let msg = LpdDiscoverer::build_lpd_message(&[1u8; 20], 7001, "other");
    let heard = discoverer.on_message_at(&msg, neighbour(), SECOND).unwrap();
    let expected = SocketAddr::new(IpAddr::V4([192, 168, 0, 9]), 7001);
    assert_eq!(heard, ([1u8; 20], expected));
    discoverer.on_message_at(&msg, neighbour(), 2 * SECOND);
    let peers = discoverer.collect_peers_at(&[1u8; 20], 10, 3 * SECOND);
    assert_eq!(peers.len(), 1);
    assert_eq!(peers[0].addr, expected);
    assert_eq!(peers[0].source, PeerSource::Lpd);
    assert!(discoverer.collect_peers_at(&[2u8; 20], 10, 3 * SECOND).is_empty());
}

#[test]
fn questions_are_not_repeated_at_once() {
    let mut discoverer = LpdDiscoverer::with_default_config();
    assert!(discoverer.query_at(&[1u8; 20], 0).is_some());
    assert!(discoverer.query_at(&[1u8; 20], SECOND).is_none());
    assert!(discoverer.query_at(&[2u8; 20], SECOND).is_some());
    let again = discoverer.config.min_broadcast_interval_secs + 1;
    assert!(discoverer.query_at(&[1u8; 20], again * SECOND).is_some());
}

#[test]
fn one_listener_is_enough() {
    let mut discoverer = LpdDiscoverer::with_default_config();
    assert!(discoverer.begin_listening());
    assert!(!discoverer.begin_listening());
}
