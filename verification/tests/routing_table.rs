use peer_discovery_center::discoverers::dht::distance::{
    common_prefix_len, distance_less, xor_distance,
};
use peer_discovery_center::discoverers::dht::routing_table::{
    crc32, generate_node_id_v4, verify_node_id_v4, CompactAddr, RoutingEntry, RoutingTable,
    MAX_FAILURES, NODE_TTL_SECS,
};
use peer_discovery_center::net::{IpAddr, SocketAddr};

fn make_addr(i: u8) -> CompactAddr {
    CompactAddr::V4([127, 0, 0, i, 0x1A, 0xE1])
}

fn make_id(prefix: u8) -> [u8; 20] {
    let mut id = [0u8; 20];
    id[0] = prefix;
    id
}

#[test]
fn test_compact_addr_v4() {
    let addr = SocketAddr::new(IpAddr::V4([192, 168, 1, 1]), 6881);
    let compact = CompactAddr::from_socket(&addr);
    assert!(compact.is_ipv4());
    assert_eq!(compact.port(), 6881);
    let back = compact.to_socket();
    assert_eq!(back, addr);
}

#[test]
fn test_compact_addr_v6() {
    let addr = SocketAddr::new(
        IpAddr::V6([0, 0, 0, 0, 0, 0, 0, 0, 0, 0, 0, 0, 0, 0, 0, 1]),
        6881,
    );
    let compact = CompactAddr::from_socket(&addr);
    assert!(!compact.is_ipv4());
    assert_eq!(compact.port(), 6881);
    let back = compact.to_socket();
    assert_eq!(back, addr);
}

#[test]
fn test_bep42_generate_and_verify() {
    let ip = [192, 168, 1, 1];
    let id = generate_node_id_v4(ip);
    assert!(verify_node_id_v4(&id, ip));

    let other_ip = [10, 0, 0, 1];
    assert!(!verify_node_id_v4(&id, other_ip));
}

#[test]
fn test_bep42_different_ips_give_different_ids() {
    let id1 = generate_node_id_v4([192, 168, 1, 1]);
    let id2 = generate_node_id_v4([192, 168, 1, 2]);
    assert!(id1[0] != id2[0] || id1[1] != id2[1] || (id1[2] & 0xf8) != (id2[2] & 0xf8));
}

#[test]
fn test_xor_distance() {
    let a = [0u8; 20];
    let b = [0xFFu8; 20];
    assert_eq!(xor_distance(&a, &b), [0xFFu8; 20]);
    assert_eq!(xor_distance(&a, &a), [0u8; 20]);
}

#[test]
fn test_distance_less() {
    let a = [0u8; 20];
    let mut b = [0u8; 20];
    b[19] = 1;
    assert!(distance_less(&a, &b));
    assert!(!distance_less(&b, &a));
}

#[test]
fn test_common_prefix_len() {
    let a = [0u8; 20];
    let mut b = [0u8; 20];
    assert_eq!(common_prefix_len(&a, &b), 160);
    b[0] = 0x80;
    assert_eq!(common_prefix_len(&a, &b), 0);
    b[0] = 0x01;
    assert_eq!(common_prefix_len(&a, &b), 7);
}

#[test]
fn test_routing_table_insert_and_find() {
    let own_id = [0u8; 20];
    let mut table = RoutingTable::new(own_id);

    for i in 1..=10u8 {
        let id = make_id(i);
        let addr = make_addr(i);
        assert!(table.insert(id, addr));
    }
    assert_eq!(table.len(), 10);
    assert_eq!(table.bucket_count(), 1);

    let target = [5u8; 20];
    let closest = table.find_closest(&target, 3);
    assert_eq!(closest.len(), 3);
    assert_eq!(closest[0].id[0], 5);
}

#[test]
fn test_routing_table_bucket_split() {
    let own_id = [0u8; 20];
    let mut table = RoutingTable::new(own_id);

    for i in 1..=21u8 {
        let mut id = [0u8; 20];
        id[19] = i;
        let addr = make_addr(i);
        table.insert(id, addr);
    }

    assert!(table.bucket_count() > 1);
    assert_eq!(table.len(), 21);
}

#[test]
fn test_routing_table_touch_and_fail() {
    let own_id = [0u8; 20];
    let mut table = RoutingTable::new(own_id);

    let addr = make_addr(1);
    table.insert(make_id(1), addr);

    assert!(table.touch(&addr));
    assert!(!table.touch(&make_addr(99)));

    assert!(table.mark_failed(&addr));
    assert!(!table.mark_failed(&make_addr(99)));
}

#[test]
fn test_routing_table_remove() {
    let own_id = [0u8; 20];
    let mut table = RoutingTable::new(own_id);

    let addr = make_addr(1);
    table.insert(make_id(1), addr);
    assert_eq!(table.len(), 1);

    assert!(table.remove(&addr));
    assert_eq!(table.len(), 0);
    assert!(!table.remove(&addr));
}

#[test]
fn test_routing_table_evict() {
    let own_id = [0u8; 20];
    let mut table = RoutingTable::new(own_id);

    for i in 1..=5u8 {
        table.insert(make_id(i), make_addr(i));
    }
    assert_eq!(table.len(), 5);

    for i in 1..=3u8 {
        for _ in 0..MAX_FAILURES {
            table.mark_failed(&make_addr(i));
        }
    }

    let evicted = table.evict_expired();
    assert_eq!(evicted, 3);
    assert_eq!(table.len(), 2);
}

#[test]
fn test_routing_table_healthy_nodes() {
    let own_id = [0u8; 20];
    let mut table = RoutingTable::new(own_id);

    for i in 1..=5u8 {
        table.insert(make_id(i), make_addr(i));
    }
    for _ in 0..MAX_FAILURES {
        table.mark_failed(&make_addr(1));
        table.mark_failed(&make_addr(2));
    }

    let healthy = table.healthy_nodes();
    assert_eq!(healthy.len(), 3);
}

#[test]
fn test_crc32_known_value() {
    assert_eq!(crc32(b"123456789"), 0xCBF43926);
}

#[test]
fn test_routing_entry_health() {
    let entry = RoutingEntry {
        id: [0u8; 20],
        addr: make_addr(1),
        last_seen: 100,
        failures: 0,
    };
    assert!(entry.is_healthy());
    assert!(!entry.is_expired(200));
    assert!(entry.is_expired(100 + NODE_TTL_SECS + 1));
}

#[test]
fn a_full_far_bucket_takes_no_more() {
    let mut table = RoutingTable::new([0u8; 20]);
    for i in 0..22u8 {
        table.insert(make_id(0x80 | i), make_addr(i + 1));
    }
    assert_eq!(table.bucket_count(), 2);
    assert_eq!(table.len(), 20);
}

#[test]
fn the_first_21_bits_decide() {
    let ip = [192, 168, 1, 1];
    let mut id = generate_node_id_v4(ip);
    id[2] ^= 0x07;
    id[19] ^= 0xff;
    assert!(verify_node_id_v4(&id, ip));
    id[2] ^= 0x08;
    assert!(!verify_node_id_v4(&id, ip));
}
