use peer_discovery_center::discoverers::dht::routing_table::CompactAddr;
use peer_discovery_center::discoverers::dht::token::{
    TokenManager, SECRET_ROTATION_INTERVAL, TOKEN_LEN,
};
use peer_discovery_center::net::{IpAddr, SocketAddr};
use std::time::{Duration, Instant};

#[test]
fn test_token_generate_and_verify() {
    let manager = TokenManager::new();
    let addr = CompactAddr::V4([127, 0, 0, 1, 0x1A, 0xE1]);

    let token = manager.generate(&addr);
    assert_eq!(token.len(), TOKEN_LEN);
    assert!(manager.verify(&addr, &token));
}

#[test]
fn test_token_wrong_addr() {
    let manager = TokenManager::new();
    let addr1 = CompactAddr::V4([127, 0, 0, 1, 0x1A, 0xE1]);
    let addr2 = CompactAddr::V4([127, 0, 0, 2, 0x1A, 0xE1]);

    let token = manager.generate(&addr1);
    assert!(!manager.verify(&addr2, &token));
}

#[test]
fn test_token_wrong_length() {
    let manager = TokenManager::new();
    let addr = CompactAddr::V4([127, 0, 0, 1, 0x1A, 0xE1]);
    assert!(!manager.verify(&addr, &[0u8; 4]));
    assert!(!manager.verify(&addr, &[]));
}

#[test]
fn test_token_socket_addr() {
    let manager = TokenManager::new();
    let addr = SocketAddr::new(IpAddr::V4([192, 168, 1, 1]), 6881);

    let token = manager.generate_for_socket(&addr);
    assert!(manager.verify_socket(&addr, &token));
}

#[test]
fn test_token_after_rotation() {
    let mut manager = TokenManager::new();
    let addr = CompactAddr::V4([127, 0, 0, 1, 0x1A, 0xE1]);

    let token = manager.generate(&addr);

    manager.last_rotation = Instant::now() - Duration::from_secs(SECRET_ROTATION_INTERVAL + 1);
    manager.maybe_rotate();

    assert!(manager.verify(&addr, &token));

    let new_token = manager.generate(&addr);
    assert!(manager.verify(&addr, &new_token));
}

#[test]
fn test_token_double_rotation_invalidates() {
    let mut manager = TokenManager::new();
    let addr = CompactAddr::V4([127, 0, 0, 1, 0x1A, 0xE1]);

    let token = manager.generate(&addr);

    manager.last_rotation = Instant::now() - Duration::from_secs(SECRET_ROTATION_INTERVAL + 1);
    manager.maybe_rotate();
    manager.last_rotation = Instant::now() - Duration::from_secs(SECRET_ROTATION_INTERVAL + 1);
    manager.maybe_rotate();

    assert!(!manager.verify(&addr, &token));
}

#[test]
fn test_token_different_managers() {
    let manager1 = TokenManager::new();
    let manager2 = TokenManager::new();
    let addr = CompactAddr::V4([127, 0, 0, 1, 0x1A, 0xE1]);

    let token1 = manager1.generate(&addr);
    assert!(!manager2.verify(&addr, &token1));
}


#[test]
fn young_secret_is_kept() {
    let mut manager = TokenManager::new();
    let addr = CompactAddr::V4([127, 0, 0, 1, 0x1A, 0xE1]);
    let token = manager.generate(&addr);
    let changed = manager.last_rotation;
    manager.maybe_rotate();
    manager.maybe_rotate();
    assert_eq!(manager.generate(&addr), token);
    assert!(manager.last_rotation == changed);
}

#[test]
fn rotation_counts_from_now() {
    let mut manager = TokenManager::new();
    let old = Instant::now() - Duration::from_secs(SECRET_ROTATION_INTERVAL + 1);
    manager.last_rotation = old;
    manager.maybe_rotate();
    let apart = manager.last_rotation.duration_since(old);
    assert!(apart >= Duration::from_secs(SECRET_ROTATION_INTERVAL));
}

#[test]
fn secret_is_what_was_drawn() {
    let drawn: Vec<u8> = (1u8..33).collect();
    let secret = TokenManager::secret_from(&drawn);
    assert_eq!(secret.to_vec(), drawn);
}
