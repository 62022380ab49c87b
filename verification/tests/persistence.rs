use peer_discovery_center::discoverers::dht::routing_table::{CompactAddr, RoutingTable};
use peer_discovery_center::discoverers::dht::store::DhtStore;
use peer_discovery_center::net::{IpAddr, SocketAddr};
use peer_discovery_center::persistence::{DhtPersistence, DhtState, PersistenceConfig};

const SECOND: u64 = 1_000_000_000;

fn test_config_of_a_file() -> PersistenceConfig {
    PersistenceConfig { path: "/tmp/test_dht_state.json".to_string(), interval: 1, enabled: true }
}

#[test]
fn test_config_default() {
    let config = PersistenceConfig::default();
    assert!(config.enabled);
    assert_eq!(config.interval, 300);
}

#[test]
fn test_should_save() {
    let mut persistence = DhtPersistence::new(test_config_of_a_file());
    assert!(persistence.should_save());

    persistence.mark_saved();
    assert!(!persistence.should_save());
}

#[test]
fn test_disabled() {
    let config = PersistenceConfig { enabled: false, ..test_config_of_a_file() };
    let persistence = DhtPersistence::new(config);
    assert!(!persistence.should_save());
}

#[test]
fn saving_is_due_after_the_interval() {
    let mut persistence = DhtPersistence::new(test_config_of_a_file());
    persistence.last_save = Some(5 * SECOND);
    assert!(!persistence.should_save_at(5 * SECOND));
    assert!(persistence.should_save_at(7 * SECOND));
    assert_eq!(persistence.path(), "/tmp/test_dht_state.json");
}

#[test]
fn what_was_saved_is_restored() {
    let persistence = DhtPersistence::new(test_config_of_a_file());
    let v4 = CompactAddr::from_socket(&SocketAddr::new(IpAddr::V4([1, 2, 3, 4]), 6881));
    let v6 = CompactAddr::from_socket(&SocketAddr::new(IpAddr::V6([7u8; 16]), 6882));
    let mut table = RoutingTable::new([0u8; 20]);
    table.insert([0x12u8; 20], v4);
    table.insert([0x34u8; 20], v6);
    let mut store = DhtStore::new();
    store.announce([9u8; 20], v4);

    let state = persistence.export_state(&table, &store).unwrap();
    assert_eq!(state.routing_nodes.len(), 2);
    assert_eq!(
        state.routing_nodes.get(&"12".repeat(20)).unwrap(),
        "v4:010203041ae1",
    );
    assert_eq!(state.peers.get(&"09".repeat(20)).unwrap().len(), 1);
    assert!(state.saved_at > 0);

    let mut table = RoutingTable::new([0u8; 20]);
    let mut store = DhtStore::new();
    let restored = persistence.restore(&state, &mut table, &mut store);
    assert!(restored >= 2);
    assert_eq!(table.len(), 2);
    assert_eq!(store.peer_count(&[9u8; 20]), 1);
}

#[test]
fn broken_entries_are_passed_over() {
    let persistence = DhtPersistence::new(test_config_of_a_file());
    let mut state = DhtState::default();
    state.routing_nodes.insert("zz".to_string(), "v4:010203041ae1".to_string());
    state.routing_nodes.insert("12".repeat(20), "v5:010203041ae1".to_string());
    state.routing_nodes.insert("34".repeat(20), "v4:0102".to_string());
    let mut table = RoutingTable::new([0u8; 20]);
    let mut store = DhtStore::new();
    persistence.restore(&state, &mut table, &mut store);
    assert_eq!(table.len(), 0);
}

#[test]
fn nothing_is_exported_when_switched_off() {
    let config = PersistenceConfig { enabled: false, ..test_config_of_a_file() };
    let persistence = DhtPersistence::new(config);
    let table = RoutingTable::new([0u8; 20]);
    let store = DhtStore::new();
    assert!(persistence.export_state(&table, &store).is_none());
}

#[test]
fn saving_is_noted() {
    let mut persistence = DhtPersistence::new(test_config_of_a_file());
    persistence.mark_saved_at(5 * SECOND);
    assert!(!persistence.should_save_at(5 * SECOND));
    assert!(persistence.should_save_at(7 * SECOND));
}
