use peer_discovery_center::discoverers::pex::message::{
    BtHandshake, ExtendedMessage, ExtensionHandshake, UtPexMessage, EXTENDED_MESSAGE_ID,
};
use peer_discovery_center::net::{IpAddr, SocketAddr};

#[test]
fn test_bt_handshake_build_parse() {
    let infohash = [1u8; 20];
    let peer_id = [2u8; 20];
    let msg = BtHandshake::build(&infohash, &peer_id);
    assert_eq!(msg.len(), 68);

    let parsed = BtHandshake::parse(&msg).unwrap();
    assert_eq!(parsed.infohash, infohash);
    assert_eq!(parsed.peer_id, peer_id);
}

#[test]
fn test_bt_handshake_supports_extension() {
    let mut handshake = BtHandshake {
        infohash: [0u8; 20],
        peer_id: [0u8; 20],
        reserved: [0u8; 8],
    };
    assert!(!handshake.supports_extension());

    handshake.reserved[5] = 0x10;
    assert!(handshake.supports_extension());
}

#[test]
fn test_extended_message_build() {
    let payload = b"test payload";
    let msg = ExtendedMessage::build(1, payload);
    assert_eq!(msg.len(), 4 + 2 + payload.len());
    assert_eq!(msg[4], EXTENDED_MESSAGE_ID);
    assert_eq!(msg[5], 1);
}

#[test]
fn test_extension_handshake_build_request() {
    let peer_id = [0u8; 20];
    let msg = ExtensionHandshake::build_request(&peer_id, 6881);
    let s = String::from_utf8_lossy(&msg);
    assert!(s.contains("ut_pex"));
    assert!(s.contains("6881"));
}

#[test]
fn test_ut_pex_build_parse() {
    let addr1 = SocketAddr::new(IpAddr::V4([127, 0, 0, 1]), 6881);
    let addr2 = SocketAddr::new(IpAddr::V4([192, 168, 1, 1]), 6882);

    let msg = UtPexMessage::build(&[addr1, addr2], &[]);
    let parsed = UtPexMessage::parse(&msg).unwrap();
    assert_eq!(parsed.added.len(), 2);
    assert_eq!(parsed.added[0], addr1);
    assert_eq!(parsed.added[1], addr2);
}

#[test]
fn test_compact_peers_encode_decode() {
    let addr1 = SocketAddr::new(IpAddr::V4([127, 0, 0, 1]), 6881);
    let addr2 = SocketAddr::new(IpAddr::V4([192, 168, 1, 1]), 6882);

    let encoded = UtPexMessage::encode_compact_peers(&[addr1, addr2]);
    assert_eq!(encoded.len(), 12);

    let decoded = UtPexMessage::decode_compact_peers(&encoded);
    assert_eq!(decoded.len(), 2);
    assert_eq!(decoded[0], addr1);
    assert_eq!(decoded[1], addr2);
}

#[test]
fn an_own_handshake_is_read_back() {
    let payload = ExtensionHandshake::build_request(&[0u8; 20], 6881);
    let parsed = ExtensionHandshake::parse(&payload).unwrap();
    assert_eq!(parsed.ut_pex_id(), Some(1));
    assert_eq!(parsed.port, Some(6881));
}
