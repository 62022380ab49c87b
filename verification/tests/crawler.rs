use peer_discovery_center::config::CrawlerConfig;
use peer_discovery_center::crawler::engine::{due_after, CrawlSchedule};
use peer_discovery_center::crawler::{Crawler, CrawlerEngine, CrawlerState};
use peer_discovery_center::discoverers::dht::message::DhtMessage;
use peer_discovery_center::discoverers::dht::routing_table::{CompactAddr, RoutingTable};
use peer_discovery_center::discoverers::dht::store::DhtStore;
use peer_discovery_center::discoverers::dht::token::TokenManager;
use peer_discovery_center::net::{IpAddr, SocketAddr};
use peer_discovery_center::types::Event;
use std::time::{Duration, Instant};

fn enabled() -> CrawlerConfig {
    CrawlerConfig { enabled: true, ..Default::default() }
}

fn remote() -> SocketAddr {
    SocketAddr::new(IpAddr::V4([10, 0, 0, 7]), 6889)
}

#[test]
fn test_crawler_state_default() {
    let state = CrawlerState::default();
    assert!(!state.running);
    assert_eq!(state.nodes_crawled, 0);
    assert_eq!(state.infohashes_collected, 0);
}

#[test]
fn test_crawler_engine_creation() {
    let engine = CrawlerEngine::new(CrawlerConfig::default());
    assert_eq!(engine.name(), "dht-crawler");
    assert!(!engine.is_running());
}

#[test]
fn test_crawler_start_disabled() {
    let config = CrawlerConfig { enabled: false, ..Default::default() };
    let mut engine = CrawlerEngine::new(config);
    assert!(!engine.start());
    assert!(!engine.is_running());
}

#[test]
fn test_crawler_with_shared_state() {
    let node_id = [0u8; 20];
    let engine = CrawlerEngine::with_shared_state(
        CrawlerConfig::default(),
        RoutingTable::new(node_id),
        DhtStore::new(),
        TokenManager::new(),
        node_id,
    );
    assert_eq!(engine.name(), "dht-crawler");
    assert_eq!(engine.routing_table.len(), 0);
}

#[test]
fn a_crawler_starts_once() {
    let mut engine = CrawlerEngine::new(enabled());
    assert!(engine.start());
    assert!(!engine.start());
    assert!(engine.is_running());
    assert!(engine.state().running);
    assert!(engine.stop());
    assert!(!engine.stop());
    assert!(!engine.is_running());
}

#[test]
fn a_ping_is_answered() {
    let mut engine = CrawlerEngine::new(enabled());
    let ping = DhtMessage::build_ping(&[1, 2], &[5u8; 20]);
    let handled = engine.handle_message(&ping, &remote());
    let expected = DhtMessage::build_ping_response(&[1, 2], &engine.node_id);
    assert_eq!(handled.reply, Some(expected));
    assert!(handled.infohash.is_none());
    assert_eq!(engine.state().messages_received, 1);
}

#[test]
fn an_announcement_needs_a_token() {
    let mut engine = CrawlerEngine::new(enabled());
    let infohash = [9u8; 20];
    let bad = DhtMessage::build_announce_peer(&[1, 2], &[5u8; 20], &infohash, 7000, &[0u8; 8]);
    engine.handle_message(&bad, &remote());
    assert_eq!(engine.peer_store.peer_count(&infohash), 0);

    let token = engine.token_manager.generate(&CompactAddr::from_socket(&remote()));
    let good = DhtMessage::build_announce_peer(&[1, 2], &[5u8; 20], &infohash, 7000, &token);
    let handled = engine.handle_message(&good, &remote());
    assert_eq!(
        handled.reply,
        Some(DhtMessage::build_announce_peer_response(&[1, 2], &engine.node_id)),
    );
    assert_eq!(handled.infohash, Some(infohash));
    let stored = engine.peer_store.get_peers(&infohash, 10);
    assert_eq!(stored.len(), 1);
    assert_eq!(stored[0].to_socket(), SocketAddr::new(IpAddr::V4([10, 0, 0, 7]), 7000));
}

#[test]
fn a_stored_peer_is_handed_out() {
    let mut engine = CrawlerEngine::new(enabled());
    let infohash = [9u8; 20];
    let peer = SocketAddr::new(IpAddr::V4([10, 0, 0, 8]), 51413);
    engine.peer_store.announce(infohash, CompactAddr::from_socket(&peer));
    let query = DhtMessage::build_get_peers(&[1, 2], &[5u8; 20], &infohash);
    let handled = engine.handle_message(&query, &remote());
    let reply = handled.reply.unwrap();
    let (tid, answer) = DhtMessage::parse_get_peers_response(&reply).unwrap();
    assert_eq!(tid, vec![1, 2]);
    assert_eq!(answer.node_id, engine.node_id);
    assert_eq!(answer.values, vec![peer]);
    let token = answer.token.unwrap();
    assert!(engine.token_manager.verify(&CompactAddr::from_socket(&remote()), &token));
}

#[test]
fn an_infohash_is_news_once() {
    let mut engine = CrawlerEngine::new(enabled());
    let events = engine.note_infohash([4u8; 20]);
    assert_eq!(events.len(), 1);
    assert!(matches!(&events[0], Event::InfohashSeen { infohash, .. } if *infohash == [4u8; 20]));
    assert!(engine.note_infohash([4u8; 20]).is_empty());
    assert_eq!(engine.state().infohashes_collected, 1);
}

#[test]
fn progress_is_told_every_hundred_infohashes() {
    let mut engine = CrawlerEngine::new(enabled());
    let mut told = 0;
    for i in 0..100u8 {
        let mut infohash = [0u8; 20];
        infohash[0] = i;
        infohash[7] = i;
        for event in engine.note_infohash(infohash) {
            if let Event::CrawlProgress { infohashes_collected, .. } = event {
                told += 1;
                assert_eq!(infohashes_collected, 100);
            }
        }
    }
    assert_eq!(told, 1);
}

#[test]
fn rubbish_is_not_answered() {
    let mut engine = CrawlerEngine::new(enabled());
    let handled = engine.handle_message(b"hello", &remote());
    assert!(handled.reply.is_none());
    assert!(handled.infohash.is_none());
}

#[test]
fn times_of_upkeep() {
    let due = due_after(299_999_999_999, 60_000_000_000, 60);
    assert!(!due.bootstrap);
    assert!(due.maintenance);
    let due = due_after(300_000_000_000, 59_999_999_999, 60);
    assert!(due.bootstrap);
    assert!(!due.maintenance);
}

#[test]
fn errors_are_counted() {
    let mut engine = CrawlerEngine::new(enabled());
    engine.start();
    engine.note_receive_error();
    assert_eq!(engine.state().errors, 1);
    assert!(engine.is_running());
    engine.note_bind_error();
    assert_eq!(engine.state().errors, 2);
    assert!(!engine.is_running());
}

#[test]
fn a_schedule_goes_by_its_interval() {
    let start = Instant::now();
    let mut schedule = CrawlSchedule::new(start, 90);
    let due = schedule.due(start + Duration::from_secs(89));
    assert!(!due.bootstrap && !due.maintenance);
    let later = start + Duration::from_secs(300);
    let due = schedule.due(later);
    assert!(due.bootstrap && due.maintenance);
    schedule.bootstrapped(later);
    assert!(!schedule.due(later).bootstrap);
    assert!(schedule.due(later).maintenance);
    schedule.maintained(later);
    assert!(!schedule.due(later).maintenance);
    assert!(schedule.due(later + Duration::from_secs(90)).maintenance);
}

#[test]
fn upkeep_drops_what_has_expired() {
    let mut engine = CrawlerEngine::new(enabled());
    let node = CompactAddr::from_socket(&remote());
    engine.routing_table.insert_at([3u8; 20], node, 0);
    engine.peer_store.announce_at([4u8; 20], node, 0);
    let token = engine.token_manager.generate(&node);
    engine.maintain_at(1, 1, [7u8; 32], Instant::now());
    assert_eq!(engine.routing_table.len(), 1);
    assert_eq!(engine.peer_store.total_peers(), 1);
    assert!(engine.token_manager.verify(&node, &token));
    engine.maintain_at(1_000_000, 1_000_000, [8u8; 32], Instant::now());
    assert_eq!(engine.routing_table.len(), 0);
    assert_eq!(engine.peer_store.total_peers(), 0);
}

#[test]
fn no_more_infohashes_than_wanted() {
    let mut config = enabled();
    config.max_infohashes = 1;
    let mut engine = CrawlerEngine::new(config);
    assert_eq!(engine.note_infohash([1u8; 20]).len(), 1);
    assert!(engine.note_infohash([2u8; 20]).is_empty());
    assert_eq!(engine.state().infohashes_collected, 1);
}

#[test]
fn no_more_nodes_than_wanted() {
    let mut config = enabled();
    config.max_nodes = 1;
    let mut engine = CrawlerEngine::new(config);
    engine.add_bootstrap_node(&remote());
    engine.add_bootstrap_node(&SocketAddr::new(IpAddr::V4([8, 8, 4, 4]), 1));
    assert_eq!(engine.routing_table.len(), 1);
}
