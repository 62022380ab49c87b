use peer_discovery_center::discoverers::dht::routing_table::CompactAddr;
use peer_discovery_center::discoverers::dht::store::{
    DhtStore, PeerEntry, MAX_PEERS_PER_INFOHASH, PEER_TTL_SECS,
};

fn make_addr(i: u8) -> CompactAddr {
    CompactAddr::V4([127, 0, 0, i, 0x1A, 0xE1])
}

#[test]
fn test_store_announce_and_get() {
    let mut store = DhtStore::new();
    let ih = [1u8; 20];

    store.announce(ih, make_addr(1));
    store.announce(ih, make_addr(2));
    store.announce(ih, make_addr(3));

    assert_eq!(store.total_peers(), 3);
    assert_eq!(store.total_infohashes(), 1);

    let peers = store.get_peers(&ih, 10);
    assert_eq!(peers.len(), 3);
}

#[test]
fn test_store_announce_update() {
    let mut store = DhtStore::new();
    let ih = [1u8; 20];

    store.announce(ih, make_addr(1));
    store.announce(ih, make_addr(1));

    assert_eq!(store.total_peers(), 1);
}

#[test]
fn test_store_peer_count() {
    let mut store = DhtStore::new();
    let ih = [1u8; 20];

    store.announce(ih, make_addr(1));
    store.announce(ih, make_addr(2));

    assert_eq!(store.peer_count(&ih), 2);
    assert_eq!(store.peer_count(&[2u8; 20]), 0);
}

#[test]
fn test_store_max_peers_per_infohash() {
    let mut store = DhtStore::new();
    let ih = [1u8; 20];

    for i in 0..(MAX_PEERS_PER_INFOHASH + 10) as u8 {
        store.announce(ih, make_addr(i));
    }

    assert!(store.peer_count(&ih) <= MAX_PEERS_PER_INFOHASH);
}

#[test]
fn test_store_get_peers_limit() {
    let mut store = DhtStore::new();
    let ih = [1u8; 20];

    for i in 1..=10u8 {
        store.announce(ih, make_addr(i));
    }

    let peers = store.get_peers(&ih, 3);
    assert_eq!(peers.len(), 3);
}

#[test]
fn test_store_all_infohashes() {
    let mut store = DhtStore::new();
    store.announce([1u8; 20], make_addr(1));
    store.announce([2u8; 20], make_addr(2));
    store.announce([3u8; 20], make_addr(3));

    assert_eq!(store.all_infohashes().len(), 3);
}

#[test]
fn test_store_estimated_memory() {
    let mut store = DhtStore::new();
    for i in 0..100u8 {
        store.announce([i; 20], make_addr(i));
    }
    let mem = store.estimated_memory();
    assert!(mem > 0);
    assert!(mem < 50000);
}

#[test]
fn test_peer_entry_expired() {
    let entry = PeerEntry {
        addr: make_addr(1),
        last_seen: 100,
    };
    assert!(!entry.is_expired(200));
    assert!(entry.is_expired(100 + PEER_TTL_SECS + 1));
}

