use peer_discovery_center::discoverers::dht::distance::{distance_less, xor_distance};
use peer_discovery_center::discoverers::dht::global_store::{
    GlobalNodeEntry, GlobalNodeStore, MultiNodeManager,
};
use peer_discovery_center::discoverers::dht::routing_table::CompactAddr;

fn make_addr(i: u8) -> CompactAddr {
    CompactAddr::V4([127, 0, 0, i, 0x1A, 0xE1])
}

fn make_id(prefix: u8) -> [u8; 20] {
    let mut id = [0u8; 20];
    id[0] = prefix;
    id
}

#[test]
fn test_global_store_insert_and_find() {
    let mut store = GlobalNodeStore::new(3600);

    for i in 1..=10u8 {
        store.insert(make_id(i), make_addr(i));
    }
    assert_eq!(store.len(), 10);

    let closest = store.find_closest(&make_id(5), 3);
    assert_eq!(closest.len(), 3);
    assert_eq!(closest[0].id[0], 5);
}

#[test]
fn test_global_store_insert_update() {
    let mut store = GlobalNodeStore::new(3600);
    let addr = make_addr(1);

    store.insert(make_id(1), addr);
    store.insert(make_id(2), addr);

    assert_eq!(store.len(), 1);
    let nodes = store.all_nodes();
    assert_eq!(nodes[0].id[0], 2);
}

#[test]
fn test_global_store_mark_failure() {
    let mut store = GlobalNodeStore::new(3600);
    let addr = make_addr(1);
    store.insert(make_id(1), addr);

    for _ in 0..3 {
        store.mark_failure(&addr);
    }

    let healthy = store.healthy_nodes();
    assert!(healthy.is_empty());
}

#[test]
fn test_global_store_evict() {
    let mut store = GlobalNodeStore::new(3600);
    for i in 1..=5u8 {
        store.insert(make_id(i), make_addr(i));
    }
    for i in 1..=3u8 {
        for _ in 0..3 {
            store.mark_failure(&make_addr(i));
        }
    }

    let evicted = store.evict_expired();
    assert_eq!(evicted, 3);
    assert_eq!(store.len(), 2);
}

#[test]
fn test_multi_node_manager() {
    let manager = MultiNodeManager::new(512, 3600);
    assert_eq!(manager.node_count(), 512);

    let mut ids = manager.node_ids().to_vec();
    ids.sort();
    ids.dedup();
    assert_eq!(ids.len(), 512);
}

#[test]
fn test_multi_node_select_closest() {
    let manager = MultiNodeManager::new(512, 3600);
    let target = [0xFFu8; 20];
    let selected = manager.select_closest_node(&target);

    let primary_dist = xor_distance(manager.primary_id(), &target);
    let selected_dist = xor_distance(selected, &target);
    assert!(!distance_less(&primary_dist, &selected_dist));
}

#[test]
fn test_multi_node_global_store() {
    let mut manager = MultiNodeManager::new(16, 3600);

    for i in 1..=10u8 {
        manager.add_node(make_id(i), make_addr(i));
    }

    assert_eq!(manager.global_node_count(), 10);

    let closest = manager.find_closest(&make_id(5), 3);
    assert_eq!(closest.len(), 3);
    assert_eq!(closest[0].id[0], 5);
}

#[test]
fn test_global_node_entry_health() {
    let entry = GlobalNodeEntry {
        id: [0u8; 20],
        addr: make_addr(1),
        last_seen: 100,
        failures: 0,
        first_seen: 0,
    };
    assert!(entry.is_healthy());
    assert!(!entry.is_expired(200, 3600));
    assert!(entry.is_expired(100 + 3601, 3600));
}

#[test]
fn test_global_store_estimated_memory() {
    let mut store = GlobalNodeStore::new(3600);
    for i in 0..100u8 {
        store.insert(make_id(i), make_addr(i));
    }
    let mem = store.estimated_memory();
    assert!(mem > 0);
    assert!(mem < 100000);
}

