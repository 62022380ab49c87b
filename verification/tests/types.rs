use peer_discovery_center::net::{IpAddr, SocketAddr};
use peer_discovery_center::types::{
    AnnounceEvent, ScrapeEntry, TrackerAnnounceResponse, TrackerScrapeResponse,
};
use peer_discovery_center::vecmap::VecMap;

#[test]
fn test_announce_response_bencode() {
    let resp = TrackerAnnounceResponse {
        interval: 1800,
        min_interval: Some(900),
        tracker_id: Some("pdc".to_string()),
        complete: 5,
        incomplete: 3,
        peers: vec![SocketAddr::new(
            IpAddr::V4([127, 0, 0, 1]),
            6881,
        )],
        failure_reason: None,
        warning_message: None,
    };
    let bytes = resp.to_bencode_compact();
    let s = String::from_utf8_lossy(&bytes);
    assert!(s.starts_with("d8:intervali1800e"));
    assert!(s.contains("12:min intervali900e"));
    assert!(s.contains("8:completei5e"));
    assert!(s.contains("10:incompletei3e"));
    assert!(s.contains("5:peers6:"));
}

#[test]
fn test_announce_response_failure() {
    let resp = TrackerAnnounceResponse {
        interval: 0,
        min_interval: None,
        tracker_id: None,
        complete: 0,
        incomplete: 0,
        peers: vec![],
        failure_reason: Some("test error".to_string()),
        warning_message: None,
    };
    let bytes = resp.to_bencode_compact();
    let s = String::from_utf8_lossy(&bytes);
    assert!(s.contains("failure reason"));
    assert!(s.contains("test error"));
}

#[test]
fn test_scrape_response_bencode() {
    let mut files = VecMap::new();
    files.insert(
        [0u8; 20],
        ScrapeEntry {
            complete: 10,
            downloaded: 100,
            incomplete: 5,
            name: None,
        },
    );
    let resp = TrackerScrapeResponse {
        files,
        failure_reason: None,
    };
    let bytes = resp.to_bencode();
    let s = String::from_utf8_lossy(&bytes);
    assert!(s.starts_with("d5:filesd20:"));
    assert!(s.contains("8:completei10e"));
    assert!(s.contains("10:downloadedi100e"));
    assert!(s.contains("10:incompletei5e"));
}

#[test]
fn test_announce_event_from_str() {
    assert_eq!("started".parse(), Ok(AnnounceEvent::Started));
    assert_eq!("stopped".parse(), Ok(AnnounceEvent::Stopped));
    assert_eq!("completed".parse(), Ok(AnnounceEvent::Completed));
    assert_eq!("unknown".parse(), Ok(AnnounceEvent::Regular));
}

