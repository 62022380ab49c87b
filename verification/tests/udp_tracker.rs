use peer_discovery_center::config::SuperTrackerConfig;
use peer_discovery_center::cache::PeerCache;
use peer_discovery_center::data_plane::udp_tracker::{
    take_announcement_at, Answer, UdpTrackerServer,
};
use peer_discovery_center::discoverers::tracker::udp::{
    UdpTrackerClient, UdpTrackerError, ACTION_ANNOUNCE, ACTION_CONNECT, ACTION_ERROR, PROTOCOL_ID,
};
use peer_discovery_center::net::{IpAddr, SocketAddr};
use peer_discovery_center::types::{AnnounceEvent, Event, PeerInfo, PeerSource};

const SECOND: u64 = 1_000_000_000;

fn client() -> SocketAddr {
    SocketAddr::new(IpAddr::V4([10, 1, 2, 3]), 4000)
}

fn server() -> UdpTrackerServer {
    UdpTrackerServer::new(
        SocketAddr::new(IpAddr::V4([0, 0, 0, 0]), 6969),
        SuperTrackerConfig::default(),
    )
}

#[test]
fn test_protocol_constants() {
    assert_eq!(PROTOCOL_ID, 0x41727101980);
    assert_eq!(ACTION_CONNECT, 0);
    assert_eq!(ACTION_ANNOUNCE, 1);
    assert_eq!(ACTION_ERROR, 3);
}

#[test]
fn test_build_error() {
    let resp = UdpTrackerServer::build_error(12345, "test error");
    assert_eq!(resp.len(), 8 + 10);
    let action = u32::from_be_bytes(resp[0..4].try_into().unwrap());
    assert_eq!(action, ACTION_ERROR);
    let tid = u32::from_be_bytes(resp[4..8].try_into().unwrap());
    assert_eq!(tid, 12345);
}

#[test]
fn test_connect_request_parsing() {
    let mut req = Vec::new();
    req.extend_from_slice(&PROTOCOL_ID.to_be_bytes());
    req.extend_from_slice(&ACTION_CONNECT.to_be_bytes());
    req.extend_from_slice(&12345u32.to_be_bytes());

    assert_eq!(req.len(), 16);

    let connection_id = u64::from_be_bytes(req[0..8].try_into().unwrap());
    let action = u32::from_be_bytes(req[8..12].try_into().unwrap());
    let transaction_id = u32::from_be_bytes(req[12..16].try_into().unwrap());

    assert_eq!(connection_id, PROTOCOL_ID);
    assert_eq!(action, ACTION_CONNECT);
    assert_eq!(transaction_id, 12345);

    match server().handle_packet_at(&req, client(), 77, 0) {
        Answer::Reply(reply) => {
            assert_eq!(UdpTrackerClient::parse_connect_response(&reply, 12345).unwrap(), 77);
        }
        _ => panic!("a connect request is answered"),
    }
}

fn announce_bytes(connection_id: u64) -> Vec<u8> {
    let mut req = Vec::new();
    req.extend_from_slice(&connection_id.to_be_bytes());
    req.extend_from_slice(&ACTION_ANNOUNCE.to_be_bytes());
    req.extend_from_slice(&12345u32.to_be_bytes());
    req.extend_from_slice(&[1u8; 20]);
    req.extend_from_slice(&[2u8; 20]);
    req.extend_from_slice(&0u64.to_be_bytes());
    req.extend_from_slice(&1000u64.to_be_bytes());
    req.extend_from_slice(&0u64.to_be_bytes());
    req.extend_from_slice(&2u32.to_be_bytes());
    req.extend_from_slice(&0u32.to_be_bytes());
    req.extend_from_slice(&0xABCDEFu32.to_be_bytes());
    req.extend_from_slice(&(-1i32).to_be_bytes());
    req.extend_from_slice(&6881u16.to_be_bytes());
    req
}

#[test]
fn test_announce_request_parsing() {
    let req = announce_bytes(0x1234567890ABCDEF);
    assert_eq!(req.len(), 98);

    let action = u32::from_be_bytes(req[8..12].try_into().unwrap());
    assert_eq!(action, ACTION_ANNOUNCE);

    let port = u16::from_be_bytes(req[96..98].try_into().unwrap());
    assert_eq!(port, 6881);
}

#[test]
fn a_conversation() {
    let mut server = server();
    let connect = UdpTrackerClient::build_connect_request(5);
    let id = match server.handle_packet_at(&connect, client(), 99, SECOND) {
        Answer::Reply(reply) => UdpTrackerClient::parse_connect_response(&reply, 5).unwrap(),
        _ => panic!("a connect request is answered"),
    };
    assert_eq!(id, 99);
    let a = match server.handle_packet_at(&announce_bytes(id), client(), 0, 2 * SECOND) {
        Answer::Announced(a) => a,
        _ => panic!("the connection is known"),
    };
    assert_eq!(a.infohash, [1u8; 20]);
    assert_eq!(a.peer_id, [2u8; 20]);
    assert_eq!(a.left, 1000);
    assert_eq!(a.port, 6881);
    assert_eq!(a.event, AnnounceEvent::Started);
    assert_eq!(a.from, client());

    let peers = vec![SocketAddr::new(IpAddr::V4([8, 8, 4, 4]), 51413)];
    let reply = server.announce_response(&a, &peers, 3, 4);
    assert_eq!(&reply[12..16], &4u32.to_be_bytes());
    assert_eq!(&reply[16..20], &3u32.to_be_bytes());
    assert_eq!(UdpTrackerClient::parse_announce_response(&reply, 12345).unwrap(), peers);
}

fn refusal_of(server: &mut UdpTrackerServer, data: &[u8], from: SocketAddr) -> String {
    match server.handle_packet_at(data, from, 0, 0) {
        Answer::Reply(reply) => match UdpTrackerClient::parse_announce_response(&reply, 12345) {
            Err(UdpTrackerError::Tracker(text)) => text,
            _ => panic!("not a refusal"),
        },
        _ => panic!("not answered"),
    }
}

#[test]
fn refusals_give_their_reason() {
    let mut server = server();
    let connect = UdpTrackerClient::build_connect_request(5);
    server.handle_packet_at(&connect, client(), 99, 0);
    let stranger = SocketAddr::new(IpAddr::V4([10, 9, 9, 9]), 4000);
    let announce = announce_bytes(99);
    assert_eq!(refusal_of(&mut server, &announce, stranger), "invalid connection id");
    assert_eq!(refusal_of(&mut server, &announce[0..97], client()), "announce packet too short");
    let mut other = announce_bytes(99);
    other[11] = 2;
    assert_eq!(refusal_of(&mut server, &other, client()), "scrape not implemented");
    other[11] = 9;
    assert_eq!(refusal_of(&mut server, &other, client()), "invalid action");
    other[11] = 0;
    assert_eq!(refusal_of(&mut server, &other, client()), "invalid protocol id");
}

#[test]
fn unknown_connections_get_no_answer() {
    let mut server = server();
    assert!(matches!(
        server.handle_packet_at(&announce_bytes(1), client(), 0, 0),
        Answer::Silence
    ));
}

#[test]
fn short_packets_get_no_answer() {
    let mut server = server();
    assert!(matches!(server.handle_packet_at(&[0u8; 15], client(), 0, 0), Answer::Silence));
}

#[test]
fn connections_end() {
    let mut server = server();
    let connect = UdpTrackerClient::build_connect_request(5);
    server.handle_packet_at(&connect, client(), 99, 0);
    assert_eq!(server.cleanup_connections_at(119 * SECOND), 0);
    assert_eq!(server.connections.len(), 1);
    assert_eq!(server.cleanup_connections_at(121 * SECOND), 1);
    assert_eq!(server.connections.len(), 0);
}

#[test]
fn connection_ids_are_drawn() {
    let mut server = server();
    let connect = UdpTrackerClient::build_connect_request(5);
    server.handle_packet(&connect, client());
    server.handle_packet(&connect, client());
    assert_eq!(server.connections.len(), 2);
}

#[test]
fn an_announcement_is_taken() {
    let mut server = server();
    let connect = UdpTrackerClient::build_connect_request(5);
    server.handle_packet_at(&connect, client(), 99, SECOND);
    let a = match server.handle_packet_at(&announce_bytes(99), client(), 0, 2 * SECOND) {
        Answer::Announced(a) => a,
        _ => panic!("the connection is known"),
    };
    let mut cache = PeerCache::default();
    let known = SocketAddr::new(IpAddr::V4([8, 8, 4, 4]), 51413);
    cache.add_peers_at(&a.infohash, &[PeerInfo::new_at(known, PeerSource::Dht, SECOND)], SECOND);
    let own = SocketAddr::new(client().ip, 6881);
    let taken = take_announcement_at(&mut cache, &a, 10, 2 * SECOND);
    assert_eq!(taken.peers, vec![known]);
    assert!(matches!(
        taken.event,
        Event::AnnounceRequest { peer_addr, left: 1000, .. } if peer_addr == own
    ));
    assert_eq!(cache.len_for_infohash(&a.infohash), 2);
    let again = take_announcement_at(&mut cache, &a, 10, 3 * SECOND);
    assert_eq!(again.peers, vec![known]);
    let mut gone = a;
    gone.event = AnnounceEvent::Stopped;
    gone.port = 7;
    take_announcement_at(&mut cache, &gone, 10, 4 * SECOND);
    assert_eq!(cache.len(), 2);
}
