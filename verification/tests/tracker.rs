use peer_discovery_center::discoverers::tracker::client::TrackerRequest;
use peer_discovery_center::discoverers::tracker::udp::{
    Received, Retry, RetryStep, UdpTrackerClient, UdpTrackerError, PROTOCOL_ID,
};
use peer_discovery_center::discoverers::tracker::{
    TrackerConfig, TrackerDiscoverer, PUBLIC_TRACKERS,
};
use peer_discovery_center::net::{IpAddr, SocketAddr};
use peer_discovery_center::traits::{AnnounceEvent, PeerDiscoverer};
use peer_discovery_center::types::PeerSource;

fn make_addr(last: u8, port: u16) -> SocketAddr {
    SocketAddr::new(IpAddr::V4([127, 0, 0, last]), port)
}

#[test]
fn test_parse_compact_peers() {
    let data = [127, 0, 0, 1, 0x1A, 0xE1];
    let peers = TrackerDiscoverer::parse_compact_peers(&data);
    assert_eq!(peers.len(), 1);
    assert_eq!(peers[0], make_addr(1, 6881));
}

#[test]
fn test_tracker_config_default() {
    let config = TrackerConfig::default();
    assert!(!config.trackers.is_empty());
    assert_eq!(config.peer_id[0], b'P');
    assert_eq!(config.peer_id[1], b'D');
}

#[test]
fn test_tracker_discoverer_creation() {
    let discoverer = TrackerDiscoverer::with_default_config();
    assert_eq!(discoverer.name(), "tracker");
    assert!(discoverer.is_enabled());
}

#[test]
fn test_build_connect_request() {
    let req = UdpTrackerClient::build_connect_request(0x12345678);
    assert_eq!(req.len(), 16);
    assert_eq!(&req[0..8], &PROTOCOL_ID.to_be_bytes());
    assert_eq!(&req[8..12], &0u32.to_be_bytes());
    assert_eq!(&req[12..16], &0x12345678u32.to_be_bytes());
}

#[test]
fn test_build_announce_request() {
    let infohash = [0u8; 20];
    let peer_id = [1u8; 20];
    let req = UdpTrackerClient::build_announce_request(
        0x1122334455667788,
        0xabcdef01,
        &infohash,
        &peer_id,
        6881,
    );
    assert_eq!(req.len(), 98);
    assert_eq!(&req[0..8], &0x1122334455667788u64.to_be_bytes());
    assert_eq!(&req[8..12], &1u32.to_be_bytes());
    assert_eq!(&req[12..16], &0xabcdef01u32.to_be_bytes());
    assert_eq!(&req[16..36], &[0u8; 20]);
    assert_eq!(&req[36..56], &[1u8; 20]);
    assert_eq!(&req[96..98], &6881u16.to_be_bytes());
}

#[test]
fn test_parse_tracker_addr() {
    let host = UdpTrackerClient::tracker_host("udp://tracker.example.com:6969/announce");
    assert_eq!(host, Some("tracker.example.com:6969".to_string()));
}

#[test]
fn test_parse_tracker_addr_no_path() {
    let host = UdpTrackerClient::tracker_host("udp://127.0.0.1:6969");
    assert_eq!(host, Some("127.0.0.1:6969".to_string()));
}

#[test]
fn test_parse_tracker_addr_invalid() {
    assert!(UdpTrackerClient::tracker_host("http://tracker.example.com:6969").is_none());
}

#[test]
fn a_body_of_peers_is_read() {
    let mut body = b"d8:intervali1800e5:peers6:".to_vec();
    body.extend_from_slice(&[10, 0, 0, 1, 0x1A, 0xE1]);
    body.push(b'e');
    let peers = TrackerDiscoverer::parse_http_peers(&body);
    assert_eq!(peers, vec![SocketAddr::new(IpAddr::V4([10, 0, 0, 1]), 6881)]);
    assert!(TrackerDiscoverer::parse_http_peers(b"d8:intervali1800ee").is_empty());
}

#[test]
fn requests_of_a_search() {
    let discoverer = TrackerDiscoverer::with_trackers(vec![
        "http://tracker.example.com/announce".to_string(),
        "udp://tracker.example.com:80/announce".to_string(),
        "wss://tracker.example.com".to_string(),
        "http://".to_string(),
    ]);
    let requests = discoverer.discover_requests(&[b'a'; 20], 30);
    match &requests[0] {
        TrackerRequest::Http { url: Some(url), .. } => {
            assert!(url.starts_with("http://tracker.example.com/announce?"));
            assert!(url.contains("info_hash="));
            assert!(url.contains("numwant=30"));
            assert!(url.contains("compact=1"));
        }
        _ => panic!("a tracker behind HTTP"),
    }
    match &requests[1] {
        TrackerRequest::Udp { host, .. } => assert_eq!(host, "tracker.example.com:80"),
        _ => panic!("a tracker behind UDP"),
    }
    assert!(matches!(&requests[2], TrackerRequest::Unsupported { .. }));
    assert!(matches!(&requests[3], TrackerRequest::Http { url: None, .. }));
}

#[test]
fn announcements_go_to_a_few_trackers() {
    let trackers = (0..9).map(|i| format!("http://t{}.example.com/a", i)).collect();
    let discoverer = TrackerDiscoverer::with_trackers(trackers);
    let urls = discoverer.announce_urls(&[1u8; 20], 7000, AnnounceEvent::Started);
    assert_eq!(urls.len(), 5);
    assert!(urls[0].contains("event=started"));
    assert!(urls[0].contains("port=7000"));
}

#[test]
fn a_failing_tracker_is_left_alone_until_it_has_cooled_down() {
    let tracker = "http://t.example.com/a".to_string();
    let mut discoverer = TrackerDiscoverer::with_trackers(vec![tracker.clone()]);
    for _ in 0..discoverer.config.max_consecutive_failures {
        assert_eq!(discoverer.active_trackers(), vec![tracker.clone()]);
        discoverer.record_result(&tracker, false, 0);
    }
    assert!(discoverer.active_trackers().is_empty());
    discoverer.recover_cooldown_trackers();
    assert!(discoverer.active_trackers().is_empty());
    let cooled = (discoverer.config.cooldown_secs + 1) * 1_000_000_000;
    discoverer.recover_after(&vec![cooled]);
    assert_eq!(discoverer.active_trackers(), vec![tracker.clone()]);
    discoverer.record_result(&tracker, true, 4);
    assert_eq!(discoverer.stats().total_peers_discovered, 4);
    assert_eq!(discoverer.stats().failed_requests as u32, discoverer.config.max_consecutive_failures);
}

#[test]
fn found_peers_are_told_once() {
    let peers = TrackerDiscoverer::collect_peers(
        vec![make_addr(2, 2), make_addr(1, 1), make_addr(2, 2)],
        10,
    );
    assert_eq!(peers.len(), 2);
    assert_eq!(peers[0].source, PeerSource::Tracker);
    assert_ne!(peers[0].addr, peers[1].addr);
}

#[test]
fn public_trackers_are_known() {
    assert!(PUBLIC_TRACKERS.len() > 0);
    assert_eq!(TrackerConfig::default().trackers.len(), PUBLIC_TRACKERS.len());
}

#[test]
fn answers_that_are_refused() {
    assert!(matches!(
        UdpTrackerClient::parse_connect_response(&[0u8; 4], 1),
        Err(UdpTrackerError::TooShort(4))
    ));
    let mut wrong = vec![0, 0, 0, 1, 0, 0, 0, 1];
    wrong.extend_from_slice(&[0u8; 8]);
    assert!(matches!(
        UdpTrackerClient::parse_connect_response(&wrong, 1),
        Err(UdpTrackerError::WrongAction(1))
    ));
    let mut other = vec![0, 0, 0, 0, 0, 0, 0, 2];
    other.extend_from_slice(&[0u8; 8]);
    assert!(matches!(
        UdpTrackerClient::parse_connect_response(&other, 1),
        Err(UdpTrackerError::WrongTransaction)
    ));
    let mut refusal = vec![0, 0, 0, 3, 0, 0, 0, 1];
    refusal.extend_from_slice("torrent not registered".as_bytes());
    match UdpTrackerClient::parse_announce_response(&refusal, 1) {
        Err(UdpTrackerError::Tracker(text)) => assert_eq!(text, "torrent not registered"),
        _ => panic!("the tracker refused"),
    }
    let mut broken = vec![0, 0, 0, 3, 0, 0, 0, 1];
    broken.extend_from_slice(&[b'a', 0xFF, 0, 0, 0, 0, 0, 0, 0, 0, 0, 0]);
    match UdpTrackerClient::parse_announce_response(&broken, 1) {
        Err(UdpTrackerError::Tracker(text)) => assert!(text.starts_with("a\u{FFFD}")),
        _ => panic!("the tracker refused"),
    }
}

#[test]
fn retries_wait_longer_and_end() {
    let second = 1_000_000_000;
    let mut retry = Retry::new();
    assert_eq!(retry.next(0, 1_000_000 * second), RetryStep::Send(15 * second));
    retry.note(Received::Nothing);
    assert_eq!(retry.next(15 * second, 1_000_000 * second), RetryStep::Send(30 * second));
    let mut sends = 2;
    loop {
        retry.note(Received::Nothing);
        match retry.next(16 * second, 1_000_000 * second) {
            RetryStep::Send(_) => sends += 1,
            RetryStep::GaveUp => break,
            RetryStep::TimedOut => panic!("there is time left"),
        }
    }
    assert_eq!(sends, 8);
    let mut late = Retry::new();
    assert_eq!(late.next(7 * second, 10 * second), RetryStep::Send(3 * second));
    assert_eq!(late.next(11 * second, 10 * second), RetryStep::TimedOut);
}

#[test]
fn transactions_are_drawn() {
    let a = UdpTrackerClient::new_transaction();
    let b = UdpTrackerClient::new_transaction();
    let c = UdpTrackerClient::new_transaction();
    assert!(a != b || b != c);
}

#[test]
fn transaction_is_what_was_drawn() {
    assert_eq!(UdpTrackerClient::transaction_from(&vec![0x12, 0x34, 0x56, 0x78]), 0x1234_5678);
}

#[test]
fn every_active_tracker_is_asked() {
    let discoverer = TrackerDiscoverer::with_default_config();
    assert!(discoverer.config.trackers.len() > 100);
    let requests = discoverer.discover_requests(&[b'a'; 20], 30);
    assert_eq!(requests.len(), discoverer.config.trackers.len());
    let mut turns = discoverer.request_turns(requests.len());
    let mut started = 0;
    while turns.start().is_some() {
        started += 1;
    }
    assert_eq!(started, discoverer.config.max_concurrent_requests);
}
