use peer_discovery_center::addrset::{sorted_set, AddrSet};
use peer_discovery_center::bencode::{decode, put_byte_string, put_int, Bencode};
use peer_discovery_center::compact::{put_compact_peers, read_compact_peers};
use peer_discovery_center::control_plane::policy::DiscoveryPolicy;
use peer_discovery_center::discoverers::dht::distance::{closest, xor_distance};
use peer_discovery_center::discoverers::dht::global_store::GlobalNodeStore;
use peer_discovery_center::discoverers::dht::message::DhtMessage;
use peer_discovery_center::discoverers::dht::routing_table::{CompactAddr, RoutingEntry, RoutingTable};
use peer_discovery_center::discoverers::dht::store::DhtStore;
use peer_discovery_center::discoverers::dht::token::TokenManager;
use peer_discovery_center::net::{IpAddr, SocketAddr};
use peer_discovery_center::percent::success_percent;
use peer_discovery_center::types::{by_priority, AnnounceEvent, PeerInfo, PeerSource};
use peer_discovery_center::vecmap::VecMap;
use std::time::Instant;

fn v4(last: u8, port: u16) -> SocketAddr {
    SocketAddr::new(IpAddr::V4([10, 0, 0, last]), port)
}

fn compact(last: u8) -> CompactAddr {
    CompactAddr::from_socket(&v4(last, 1000))
}

fn id(first: u8) -> [u8; 20] {
    let mut out = [0u8; 20];
    out[0] = first;
    out
}

#[test]
fn compact_peers_come_back() {
    let peers = vec![v4(1, 1), v4(2, 65535)];
    let mut bytes = Vec::new();
    put_compact_peers(&mut bytes, &peers);
    assert_eq!(bytes.len(), 12);
    assert_eq!(&bytes[0..6], &[10, 0, 0, 1, 0, 1]);
    assert_eq!(read_compact_peers(&bytes, false), peers);
    let zero = [10, 0, 0, 1, 0, 0];
    assert!(read_compact_peers(&zero, false).is_empty());
    assert_eq!(read_compact_peers(&zero, true), vec![v4(1, 0)]);
    assert!(read_compact_peers(&[1, 2, 3], true).is_empty());
}

#[test]
fn bencode_is_read_back() {
    let mut bytes = Vec::new();
    put_byte_string(&mut bytes, b"spam");
    assert_eq!(bytes, b"4:spam".to_vec());
    assert!(matches!(decode(&bytes), Some(Bencode::Bytes(b)) if b == b"spam".to_vec()));
    let mut bytes = Vec::new();
    put_int(&mut bytes, -42);
    assert_eq!(bytes, b"i-42e".to_vec());
    assert!(matches!(decode(&bytes), Some(Bencode::Int(-42))));
    let dict = decode(b"d1:ai1e1:bl1:x1:yee").unwrap();
    assert!(dict.is_dict());
    assert_eq!(dict.get_int(b"a"), Some(1));
    assert!(dict.get(b"c").is_none());
    match dict.get(b"b") {
        Some(Bencode::List(items)) => assert_eq!(items.len(), 2),
        _ => panic!("a list"),
    }
    assert!(decode(b"i12").is_none());
}

#[test]
fn numbers_at_the_edge() {
    for n in [0, 9, 10, i64::MAX, i64::MIN] {
        let mut bytes = Vec::new();
        put_int(&mut bytes, n);
        assert_eq!(bytes, format!("i{}e", n).into_bytes());
    }
}

#[test]
fn a_sorted_set() {
    let set = sorted_set(vec![v4(3, 1), v4(1, 9), v4(1, 2), v4(3, 1)]);
    assert_eq!(set, vec![v4(1, 2), v4(1, 9), v4(3, 1)]);
    let mut set = AddrSet::new();
    assert!(set.insert(v4(1, 1)));
    assert!(!set.insert(v4(1, 1)));
    assert!(set.contains(&v4(1, 1)));
    assert_eq!(set.len(), 1);
}

#[test]
fn distances() {
    assert_eq!(xor_distance(&id(5), &id(3)), id(6));
    assert_eq!(xor_distance(&id(3), &id(5)), id(6));
    assert_eq!(xor_distance(&id(3), &id(3)), [0u8; 20]);
    let entries: Vec<RoutingEntry> = [9u8, 1, 4]
        .iter()
        .map(|i| RoutingEntry { id: id(*i), addr: compact(*i), last_seen: 0, failures: 0 })
        .collect();
    let near = closest(&entries, &id(5), 2);
    assert_eq!(near.len(), 2);
    assert_eq!(near[0].id, id(4));
    assert_eq!(near[1].id, id(1));
}

#[test]
fn addresses_and_their_compact_form() {
    let addr = SocketAddr::new(IpAddr::V6([3u8; 16]), 77);
    let form = CompactAddr::from_socket(&addr);
    assert_eq!(form.to_socket(), addr);
    assert_eq!(form.port(), 77);
    assert!(!form.is_ipv4());
    assert!(!form.same(&compact(1)));
}

#[test]
fn inserted_nodes_are_found() {
    let mut table = RoutingTable::new([0u8; 20]);
    assert!(table.insert_at(id(200), compact(1), 10));
    let near = table.find_closest(&id(200), 1);
    assert_eq!(near[0].id, id(200));
    assert_eq!(near[0].last_seen, 10);
    assert_eq!(table.all_nodes().len(), table.len());
    for _ in 0..3 {
        table.mark_failed(&compact(1));
    }
    assert!(table.find_closest(&id(200), 1).is_empty());
    assert_eq!(table.evict_expired_at(20), 1);
    assert!(table.is_empty());
}

#[test]
fn a_full_bucket_refuses() {
    let mut table = RoutingTable::new([0u8; 20]);
    let mut added = 0;
    for i in 0..40u8 {
        let mut far = id(0x80);
        far[19] = i;
        if table.insert_at(far, compact(i), 10) {
            added += 1;
        }
    }
    assert_eq!(added, table.len());
    assert!(added < 40);
    assert!(added >= 20);
}

#[test]
fn full_lists_drop_the_oldest() {
    let mut store = DhtStore::new();
    let infohash = [1u8; 20];
    for i in 0..256u32 {
        let addr = CompactAddr::V4([10, 0, (i / 250) as u8, (i % 250) as u8, 0, 1]);
        store.announce_at(infohash, addr, 100 + i);
    }
    assert_eq!(store.peer_count_at(&infohash, 400), 256);
    store.announce_at(infohash, compact(99), 400);
    assert_eq!(store.peer_count_at(&infohash, 400), 256);
    let all = store.get_peers_at(&infohash, 1000, 400);
    assert!(!all.contains(&CompactAddr::V4([10, 0, 0, 0, 0, 1])));
    assert!(all.contains(&compact(99)));
    let (sample, total) = store.sample_infohashes(5);
    assert_eq!(sample, vec![infohash]);
    assert_eq!(total, 1);
}

#[test]
fn three_failures_in_the_shared_pool() {
    let mut store = GlobalNodeStore::new(3600);
    store.insert_at(id(1), compact(1), 5);
    for _ in 0..2 {
        store.mark_failure(&compact(1));
    }
    assert_eq!(store.healthy_nodes().len(), 1);
    store.mark_failure(&compact(1));
    assert!(store.healthy_nodes().is_empty());
    store.mark_success_at(&compact(1), 6);
    assert_eq!(store.healthy_nodes().len(), 1);
}

#[test]
fn tokens_outlive_one_rotation() {
    let now = Instant::now();
    let mut manager = TokenManager::with_secrets([1u8; 32], [2u8; 32], now);
    let token = manager.generate(&compact(1));
    // The first bytes of the SHA-1 digest of the address and the secret.
    assert_eq!(token.len(), 8);
    assert!(manager.verify(&compact(1), &token));
    assert!(!manager.verify(&compact(2), &token));
    manager.rotate_if_due(299, [3u8; 32], now);
    assert!(manager.verify(&compact(1), &token));
    manager.rotate_if_due(301 * 1_000_000_000, [3u8; 32], now);
    assert!(manager.verify(&compact(1), &token));
    manager.rotate_if_due(301 * 1_000_000_000, [4u8; 32], now);
    assert!(!manager.verify(&compact(1), &token));
}

#[test]
fn names_of_events() {
    for event in [AnnounceEvent::Started, AnnounceEvent::Stopped, AnnounceEvent::Completed] {
        assert_eq!(AnnounceEvent::from_name(event.as_str()), event);
    }
    assert_eq!(AnnounceEvent::from_name("rubbish"), AnnounceEvent::Regular);
}

#[test]
fn the_best_come_first() {
    let mut peers = Vec::new();
    for (port, score) in [(1u16, 5u32), (2, 50), (3, 20)] {
        let mut peer = PeerInfo::new_at(v4(1, port), PeerSource::Dht, 0);
        peer.priority_score = score;
        peers.push(peer);
    }
    let best = by_priority(peers, 2);
    let scores: Vec<u32> = best.iter().map(|p| p.priority_score).collect();
    assert_eq!(scores, vec![50, 20]);
}

#[test]
fn percentages() {
    assert_eq!(success_percent(1, 1), 100);
    assert_eq!(success_percent(0, 7), 0);
    assert_eq!(success_percent(1, 2), 50);
    assert_eq!(success_percent(2, 3), 66);
}

#[test]
fn a_map_of_entries() {
    let mut map: VecMap<u64, u8> = VecMap::new();
    map.insert(1, 10);
    map.insert(2, 20);
    map.insert(1, 11);
    assert_eq!(map.len(), 2);
    assert_eq!(map.get(&1), Some(&11));
    assert_eq!(map.remove(&1), Some(11));
    assert_eq!(map.remove(&1), None);
    assert!(!map.contains_key(&1));
}

#[test]
fn errors_of_the_dht() {
    let resp = DhtMessage::build_error_response(&[1], 203, "bad token");
    assert_eq!(resp, b"d1:eli203e9:bad tokene1:t1:\x011:y1:ee".to_vec());
}

#[test]
fn when_to_search() {
    let policy = DiscoveryPolicy::default_policy();
    assert!(policy.should_trigger_discovery(0));
    assert!(policy.should_trigger_discovery(policy.cache_hit_threshold - 1));
    assert!(!policy.should_trigger_discovery(policy.cache_hit_threshold));
}

#[test]
fn deep_nesting_is_refused() {
    let nested = |n: usize| {
        let mut data = vec![b'l'; n];
        data.extend(vec![b'e'; n]);
        data
    };
    assert!(decode(&nested(512)).is_some());
    assert!(decode(&nested(513)).is_none());
    assert!(decode(&vec![b'l'; 1_000_000]).is_none());
}
