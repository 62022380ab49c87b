use peer_discovery_center::discoverers::pex::client::{ExchangeError, ExchangeStage, Wait};
use peer_discovery_center::discoverers::pex::message::{
    BtHandshake, ExtendedMessage, UtPexMessage, EXTENDED_MESSAGE_ID,
};
use peer_discovery_center::discoverers::pex::{PexConfig, PexDiscoverer};
use peer_discovery_center::net::{IpAddr, SocketAddr};
use peer_discovery_center::traits::PeerDiscoverer;
use peer_discovery_center::types::PeerSource;
use std::time::Instant;

fn make_addr(last: u8, port: u16) -> SocketAddr {
    SocketAddr::new(IpAddr::V4([127, 0, 0, last]), port)
}

#[test]
fn test_pex_config_default() {
    let config = PexConfig::default();
    assert_eq!(config.max_connected_peers, 50);
    assert_eq!(config.listen_port, 6881);
    assert!(config.enabled);
    assert_eq!(&config.our_peer_id[0..8], b"-PD0002-");
}

#[test]
fn test_pex_discoverer_creation() {
    let discoverer = PexDiscoverer::with_default_config();
    assert_eq!(discoverer.name(), "pex");
    assert!(discoverer.is_enabled());
}

#[test]
fn test_add_connected_peer() {
    let mut discoverer = PexDiscoverer::with_default_config();
    let addr = make_addr(1, 6881);

    discoverer.add_connected_peer(addr, None);
    assert_eq!(discoverer.connected_peers.len(), 1);

    discoverer.remove_connected_peer(&addr);
    assert_eq!(discoverer.connected_peers.len(), 0);
}

#[test]
fn test_add_known_peers() {
    let mut discoverer = PexDiscoverer::with_default_config();
    let addr1 = make_addr(1, 6881);
    let addr2 = make_addr(2, 6882);

    discoverer.add_known_peers(&[addr1, addr2]);
    assert_eq!(discoverer.known_peers.len(), 2);
}

#[test]
fn test_peers_due_for_pex() {
    let mut discoverer = PexDiscoverer::with_default_config();
    let addr = make_addr(1, 6881);

    discoverer.add_connected_peer(addr, None);
    let due = discoverer.peers_due_for_pex();
    assert_eq!(due.len(), 1);

    let mut peer = discoverer.connected_peers.remove(&addr).unwrap();
    peer.last_pex_exchange = Some(Instant::now());
    discoverer.connected_peers.insert(addr, peer);
    let due = discoverer.peers_due_for_pex();
    assert_eq!(due.len(), 0);
}

#[test]
fn connected_peers_are_limited() {
    let config = PexConfig { max_connected_peers: 1, ..Default::default() };
    let mut discoverer = PexDiscoverer::new(config);
    discoverer.add_connected_peer(make_addr(1, 1), None);
    discoverer.add_connected_peer(make_addr(2, 2), None);
    assert_eq!(discoverer.connected_peers.len(), 1);
}

#[test]
fn known_peers_are_handed_out() {
    let mut discoverer = PexDiscoverer::with_default_config();
    discoverer.add_known_peers(&[make_addr(1, 6881), make_addr(2, 6882)]);
    let peers = discoverer.collect_peers(1);
    assert_eq!(peers.len(), 1);
    assert_eq!(peers[0].source, PeerSource::Pex);
    assert_eq!(discoverer.stats().success_requests, 1);
}

/// An extension handshake that gives ut_pex the number 3.
fn offer() -> Vec<u8> {
    let mut payload = vec![0u8];
    payload.extend_from_slice(b"d1:md6:ut_pexi3eee");
    payload
}

#[test]
fn an_exchange() {
    let infohash = [5u8; 20];
    let addr = make_addr(9, 9000);
    let mut discoverer = PexDiscoverer::with_default_config();
    discoverer.add_connected_peer(addr, None);

    let (mut exchange, hello) = discoverer.begin_exchange(addr, &infohash);
    let parsed = BtHandshake::parse(&hello).unwrap();
    assert_eq!(parsed.infohash, infohash);
    assert_eq!(parsed.peer_id, discoverer.config.our_peer_id);

    let mut answer = BtHandshake::build(&infohash, &[8u8; 20]);
    answer[25] = 0x10;
    let next = discoverer.on_handshake(&mut exchange, &answer).unwrap();
    assert!(next.is_some());

    let sent = discoverer.on_message(&mut exchange, EXTENDED_MESSAGE_ID, &offer());
    assert!(sent.is_some());
    assert!(matches!(exchange.stage, ExchangeStage::Peers { ut_pex_id: 3 }));

    let mut payload = vec![3u8];
    payload.extend_from_slice(&UtPexMessage::build(&[make_addr(7, 7000)], &[]));
    assert!(discoverer.on_message(&mut exchange, EXTENDED_MESSAGE_ID, &payload).is_none());
    let got = discoverer.finish_exchange(exchange);
    assert_eq!(got, vec![make_addr(7, 7000)]);
    assert_eq!(discoverer.connected_peers.get(&addr).unwrap().peers_received, 1);
}

#[test]
fn a_peer_without_extensions_is_not_asked() {
    let infohash = [5u8; 20];
    let addr = make_addr(9, 9000);
    let mut discoverer = PexDiscoverer::with_default_config();
    discoverer.add_connected_peer(addr, None);
    let (mut exchange, _) = discoverer.begin_exchange(addr, &infohash);
    let plain = BtHandshake::build(&infohash, &[8u8; 20]);
    assert!(discoverer.on_handshake(&mut exchange, &plain).unwrap().is_none());
    assert!(matches!(exchange.stage, ExchangeStage::Unsupported));
    assert!(!discoverer.connected_peers.get(&addr).unwrap().supports_pex);
}

#[test]
fn a_stranger_is_turned_away() {
    let mut discoverer = PexDiscoverer::with_default_config();
    let addr = make_addr(9, 9000);
    let (mut exchange, _) = discoverer.begin_exchange(addr, &[5u8; 20]);
    let other = BtHandshake::build(&[6u8; 20], &[8u8; 20]);
    assert!(matches!(
        discoverer.on_handshake(&mut exchange, &other),
        Err(ExchangeError::InfohashMismatch)
    ));
    let (mut exchange, _) = discoverer.begin_exchange(addr, &[5u8; 20]);
    let refused = discoverer.on_handshake(&mut exchange, b"GET / HTTP/1.1");
    assert!(matches!(refused, Err(ExchangeError::InvalidHandshake)));
    assert_ne!(
        ExchangeError::InvalidHandshake.message(),
        ExchangeError::InfohashMismatch.message(),
    );
}

#[test]
fn a_framed_message_is_taken_apart() {
    let framed = ExtendedMessage::build(3, b"abc");
    let prefix: [u8; 4] = framed[0..4].try_into().unwrap();
    assert_eq!(ExtendedMessage::body_length(&prefix), 5);
    let (kind, payload) = ExtendedMessage::split_message(&framed[4..]);
    assert_eq!(kind, EXTENDED_MESSAGE_ID);
    assert_eq!(payload, b"\x03abc".to_vec());
}

#[test]
fn waits_of_an_exchange() {
    let discoverer = PexDiscoverer::with_default_config();
    let (mut exchange, _) = discoverer.begin_exchange(make_addr(9, 9000), &[5u8; 20]);
    assert_eq!(discoverer.wait_for(&exchange, 0), Wait::Seconds(10));
    exchange.stage = ExchangeStage::Extension { left: 1, peer_id: [0u8; 20] };
    assert_eq!(discoverer.wait_for(&exchange, 0), Wait::Unlimited);
    exchange.stage = ExchangeStage::Peers { ut_pex_id: 3 };
    assert_eq!(discoverer.wait_for(&exchange, 2_999_999_999), Wait::Seconds(2));
    assert_eq!(discoverer.wait_for(&exchange, 3_000_000_000), Wait::Over);
    exchange.stage = ExchangeStage::Received;
    assert_eq!(discoverer.wait_for(&exchange, 0), Wait::Over);
}

#[test]
fn known_peers_expire_as_configured() {
    let mut discoverer = PexDiscoverer::with_default_config();
    discoverer.add_known_peers_at(&[make_addr(1, 1)], 1_000_000_000);
    discoverer.cleanup_expired_peers_at(1_801_000_000_000);
    assert_eq!(discoverer.known_peers.len(), 1);
    discoverer.cleanup_expired_peers_at(1_801_000_000_001);
    assert_eq!(discoverer.known_peers.len(), 0);
}
