//! The messages of peer exchange: the BitTorrent handshake, the extension protocol (BEP 10) and
//! `ut_pex` (BEP 11).

use crate::bencode::{
    bytes_entry, decode, decoded, dict_meaning, encoding, entries_encoding, entries_meaning,
    entries_writable, entry, int_entry, lemma_empty_encodings, lemma_entries_push, meaning,
    tree_meaning, writable,
    writable_within, Bencode, DictWriter, Meaning, Tree, MAX_NESTING,
};
use crate::bytes::{
    be_bytes, be_value, decimal, lemma_be_bytes_len, lemma_be_round_trip,
    lemma_byte_capacity_values, low_u16, low_u8, put_be, put_bytes, put_decimal, put_text, read_be,
    same_bytes, sub_vec, take_20,
};
use crate::compact::{
    carried, compact_peers, law_compact_round_trip, peers_of, put_compact_peers, read_compact_peers,
};
use crate::net::SocketAddr;
use crate::text::text_from_utf8;
use crate::types::Infohash;
use crate::vecmap::VecMap;
use vstd::prelude::*;
use vstd::string::*;
use vstd::utf8::{encode_utf8, valid_utf8};

verus! {

/// The message type of the extension protocol.
pub const EXTENDED_MESSAGE_ID: u8 = 20;

/// The extension that the extension handshake uses.
pub const EXTENSION_HANDSHAKE_ID: u8 = 0;

/// The message type that stands for a keep-alive.
pub const KEEP_ALIVE: u8 = 255;

/// The name that a handshake starts with.
pub open spec fn protocol_name() -> Seq<u8> {
    "BitTorrent protocol".spec_bytes()
}

/// The name has 19 bytes.
pub proof fn lemma_protocol_name()
    ensures
        protocol_name().len() == 19,
{
    reveal_strlit("BitTorrent protocol");
    assert(is_ascii("BitTorrent protocol"));
}

/// A BitTorrent handshake.
pub struct BtHandshake {
    pub infohash: [u8; 20],
    pub peer_id: [u8; 20],
    pub reserved: [u8; 8],
}

/// The bytes of a handshake: the length of the name, the name, the reserved bytes, the infohash and
/// the peer id.
pub open spec fn handshake_bytes(reserved: Seq<u8>, infohash: Seq<u8>, peer_id: Seq<u8>) -> Seq<u8> {
    seq![19u8] + protocol_name() + reserved + infohash + peer_id
}

/// Eight zero bytes.
pub open spec fn no_reserved() -> Seq<u8> {
    Seq::new(8, |i: int| 0u8)
}

impl BtHandshake {
    /// The bytes of a handshake without reserved bits.
    pub fn build(infohash: &Infohash, peer_id: &[u8; 20]) -> (r: Vec<u8>)
        ensures
            r@ == handshake_bytes(no_reserved(), infohash@, peer_id@),
            r@.len() == 68,
    {
        let mut buf: Vec<u8> = Vec::with_capacity(68);
        buf.push(19);
        put_text(&mut buf, "BitTorrent protocol");
        put_bytes(&mut buf, &[0u8, 0u8, 0u8, 0u8, 0u8, 0u8, 0u8, 0u8]);
        put_bytes(&mut buf, infohash);
        put_bytes(&mut buf, peer_id);
        proof {
            lemma_protocol_name();
            assert(buf@ =~= handshake_bytes(no_reserved(), infohash@, peer_id@));
        }
        buf
    }

    /// The handshake at the start of `data`. `None` if there is none.
    pub fn parse(data: &[u8]) -> (r: Option<BtHandshake>)
        ensures
            r is Some <==> (data@.len() >= 68 && data@[0] == 19 && data@.subrange(1, 20)
                == protocol_name()),
            r matches Some(h) ==> data@.take(68) == handshake_bytes(
                h.reserved@,
                h.infohash@,
                h.peer_id@,
            ),
    {
        if data.len() < 68 {
            return None;
        }
        if data[0] != 19 {
            return None;
        }
        let name: Vec<u8> = sub_vec(data, 1, 20);
        if !same_bytes(name.as_slice(), "BitTorrent protocol".as_bytes()) {
            return None;
        }
        let reserved: [u8; 8] = [
            data[20],
            data[21],
            data[22],
            data[23],
            data[24],
            data[25],
            data[26],
            data[27],
        ];
        let infohash: [u8; 20] = take_20(data, 28);
        let peer_id: [u8; 20] = take_20(data, 48);
        proof {
            let d = data@;
            lemma_protocol_name();
            assert(reserved@ =~= d.subrange(20, 28));
            assert(d.take(68) =~= handshake_bytes(reserved@, infohash@, peer_id@));
        }
        Some(BtHandshake { infohash, peer_id, reserved })
    }

    /// Whether the sender speaks the extension protocol.
    pub fn supports_extension(&self) -> (r: bool)
        ensures
            r == (self.reserved[5] & 0x10 != 0),
    {
        self.reserved[5] & 0x10 != 0
    }
}

/// A handshake is read back as it was written.
pub proof fn law_handshake_round_trip(
    reserved: [u8; 8],
    infohash: [u8; 20],
    peer_id: [u8; 20],
    h: BtHandshake,
)
    requires
        handshake_bytes(reserved@, infohash@, peer_id@) == handshake_bytes(
            h.reserved@,
            h.infohash@,
            h.peer_id@,
        ),
    ensures
        h.reserved == reserved,
        h.infohash == infohash,
        h.peer_id == peer_id,
{
    lemma_protocol_name();
    let a = handshake_bytes(reserved@, infohash@, peer_id@);
    let b = handshake_bytes(h.reserved@, h.infohash@, h.peer_id@);
    assert(a.subrange(20, 28) =~= reserved@);
    assert(b.subrange(20, 28) =~= h.reserved@);
    assert(a.subrange(28, 48) =~= infohash@);
    assert(b.subrange(28, 48) =~= h.infohash@);
    assert(a.subrange(48, 68) =~= peer_id@);
    assert(b.subrange(48, 68) =~= h.peer_id@);
    assert(h.reserved =~= reserved);
    assert(h.infohash =~= infohash);
    assert(h.peer_id =~= peer_id);
}

/// What every written handshake has that `parse` asks for.
pub proof fn law_written_handshake_is_accepted(
    reserved: [u8; 8],
    infohash: [u8; 20],
    peer_id: [u8; 20],
)
    ensures
        handshake_bytes(reserved@, infohash@, peer_id@).len() == 68,
        handshake_bytes(reserved@, infohash@, peer_id@)[0] == 19,
        handshake_bytes(reserved@, infohash@, peer_id@).subrange(1, 20) == protocol_name(),
        handshake_bytes(reserved@, infohash@, peer_id@).take(68) == handshake_bytes(
            reserved@,
            infohash@,
            peer_id@,
        ),
{
    lemma_protocol_name();
    let a = handshake_bytes(reserved@, infohash@, peer_id@);
    assert(a.subrange(1, 20) =~= protocol_name());
    assert(a.take(68) =~= a);
}

/// A message of the extension protocol.
pub struct ExtendedMessage {
    pub extension_id: u8,
    pub payload: Vec<u8>,
}

/// The bytes of an extended message: the length of what follows, the message type, the extension
/// and the payload.
pub open spec fn extended_bytes(extension_id: u8, payload: Seq<u8>) -> Seq<u8> {
    be_bytes(2 + payload.len(), 4) + seq![EXTENDED_MESSAGE_ID, extension_id] + payload
}

/// The message type and the payload of a message body; an empty body is a keep-alive.
pub open spec fn split_body(body: Seq<u8>) -> (u8, Seq<u8>) {
    if body.len() == 0 {
        (KEEP_ALIVE, Seq::empty())
    } else {
        (body[0], body.skip(1))
    }
}

impl ExtendedMessage {
    /// The bytes of an extended message.
    pub fn build(extension_id: u8, payload: &[u8]) -> (r: Vec<u8>)
        requires
            payload@.len() + 2 <= u32::MAX,
        ensures
            r@ == extended_bytes(extension_id, payload@),
    {
        let length: u64 = 2 + payload.len() as u64;
        let mut buf: Vec<u8> = Vec::new();
        put_be(&mut buf, length, 4);
        buf.push(EXTENDED_MESSAGE_ID);
        buf.push(extension_id);
        put_bytes(&mut buf, payload);
        assert(buf@ =~= extended_bytes(extension_id, payload@));
        buf
    }

    /// The length of a message body, from the four bytes before it.
    pub fn body_length(prefix: &[u8; 4]) -> (r: u32)
        ensures
            r == be_value(prefix@),
    {
        proof {
            lemma_byte_capacity_values();
            assert(prefix@.subrange(0, 4) =~= prefix@);
        }
        read_be(prefix.as_slice(), 0, 4) as u32
    }

    /// The message type and the payload of a message body.
    pub fn split_message(body: &[u8]) -> (r: (u8, Vec<u8>))
        ensures
            (r.0, r.1@) == split_body(body@),
    {
        if body.len() == 0 {
            let none: Vec<u8> = Vec::new();
            assert(none@ =~= Seq::<u8>::empty());
            return (KEEP_ALIVE, none);
        }
        let payload: Vec<u8> = sub_vec(body, 1, body.len());
        assert(payload@ =~= body@.skip(1));
        (body[0], payload)
    }
}

/// A message that was written is taken apart into its extension and payload again.
pub proof fn law_extended_message_round_trip(extension_id: u8, payload: Seq<u8>)
    requires
        payload.len() + 2 <= u32::MAX,
    ensures
        be_value(extended_bytes(extension_id, payload).take(4)) == extended_bytes(
            extension_id,
            payload,
        ).skip(4).len(),
        split_body(extended_bytes(extension_id, payload).skip(4)) == (
            EXTENDED_MESSAGE_ID,
            seq![extension_id] + payload,
        ),
{
    let n = 2 + payload.len();
    let m = extended_bytes(extension_id, payload);
    lemma_be_bytes_len(n, 4);
    lemma_byte_capacity_values();
    lemma_be_round_trip(n, 4);
    assert(m.take(4) =~= be_bytes(n, 4));
    assert(m.skip(4) =~= seq![EXTENDED_MESSAGE_ID, extension_id] + payload);
    assert(m.skip(4).skip(1) =~= seq![extension_id] + payload);
}

/// What a peer says of itself in the extension handshake.
pub struct ExtensionHandshake {
    /// The extensions that the peer supports, with the number it uses for each.
    pub m: VecMap<String, u8>,
    /// The peer's id.
    pub peer_id: Option<[u8; 20]>,
    /// The peer's port.
    pub port: Option<u16>,
    /// The peer's software.
    pub version: Option<String>,
}

/// The number that this program uses for `ut_pex`.
pub const OWN_UT_PEX_ID: u8 = 1;

/// What this program says of its software.
pub const CLIENT_VERSION: &'static str = "PeerDiscoveryCenter/0.2";

/// Our own extension handshake: the number for `ut_pex`, the peer id, the port and the software.
pub open spec fn handshake_tree(peer_id: Seq<u8>, port: u16) -> Tree {
    Tree::Dict(
        seq![
            (
                "m".spec_bytes(),
                Tree::Dict(seq![("ut_pex".spec_bytes(), Tree::Int(OWN_UT_PEX_ID as int))]),
            ),
            ("pi".spec_bytes(), Tree::Bytes(peer_id)),
            ("port".spec_bytes(), Tree::Int(port as int)),
            ("v".spec_bytes(), Tree::Bytes(CLIENT_VERSION.spec_bytes())),
        ],
    )
}

proof fn lemma_handshake_keys()
    ensures
        "m".spec_bytes().len() == 1,
        "m".spec_bytes()[0] == 109,
        "pi".spec_bytes().len() == 2,
        "port".spec_bytes().len() == 4,
        "v".spec_bytes().len() == 1,
        "v".spec_bytes()[0] == 118,
        "ut_pex".spec_bytes().len() == 6,
{
    reveal_strlit("m");
    reveal_strlit("pi");
    reveal_strlit("port");
    reveal_strlit("v");
    reveal_strlit("ut_pex");
    assert(is_ascii("m"));
    assert(is_ascii("pi"));
    assert(is_ascii("port"));
    assert(is_ascii("v"));
    assert(is_ascii("ut_pex"));
}

/// The name of this program's software has 23 bytes.
pub proof fn lemma_client_version()
    ensures
        CLIENT_VERSION.spec_bytes().len() == 23,
{
    reveal_strlit("PeerDiscoveryCenter/0.2");
    assert(is_ascii(CLIENT_VERSION));
}

/// A dictionary without and with entries.
proof fn lemma_handshake_meaning(peer_id: Seq<u8>, port: u16)
    requires
        peer_id.len() == 20,
    ensures
        writable(handshake_tree(peer_id, port)),
        tree_meaning(handshake_tree(peer_id, port)) == Meaning::Dict(
            Map::<Seq<u8>, Meaning>::empty().insert(
                "m".spec_bytes(),
                Meaning::Dict(
                    Map::<Seq<u8>, Meaning>::empty().insert(
                        "ut_pex".spec_bytes(),
                        Meaning::Int(OWN_UT_PEX_ID as int),
                    ),
                ),
            ).insert("pi".spec_bytes(), Meaning::Bytes(peer_id)).insert(
                "port".spec_bytes(),
                Meaning::Int(port as int),
            ).insert("v".spec_bytes(), Meaning::Bytes(CLIENT_VERSION.spec_bytes())),
        ),
{
    lemma_handshake_keys();
    lemma_client_version();
    lemma_empty_encodings();
    let none = Seq::<(Seq<u8>, Tree)>::empty();
    let number = Tree::Int(OWN_UT_PEX_ID as int);
    let m1 = none.push(("ut_pex".spec_bytes(), number));
    lemma_entries_push(none, "ut_pex".spec_bytes(), number);
    assert(m1 =~= seq![("ut_pex".spec_bytes(), number)]);
    let m = Tree::Dict(m1);
    let pi = Tree::Bytes(peer_id);
    let at = Tree::Int(port as int);
    let v = Tree::Bytes(CLIENT_VERSION.spec_bytes());
    let e1 = none.push(("m".spec_bytes(), m));
    let e2 = e1.push(("pi".spec_bytes(), pi));
    let e3 = e2.push(("port".spec_bytes(), at));
    let e4 = e3.push(("v".spec_bytes(), v));
    lemma_entries_push(none, "m".spec_bytes(), m);
    lemma_entries_push(e1, "pi".spec_bytes(), pi);
    lemma_entries_push(e2, "port".spec_bytes(), at);
    lemma_entries_push(e3, "v".spec_bytes(), v);
    assert(handshake_tree(peer_id, port)->Dict_0 =~= e4);
    let n = (MAX_NESTING - 1) as nat;
    assert(entries_writable(m1, (n - 1) as nat));
    assert(writable_within(m, n));
    assert(entries_writable(e1, n));
    assert(entries_writable(e2, n));
    assert(entries_writable(e3, n));
    assert(entries_writable(e4, n));
}

/// Our own extension handshake can be written and stands for a dictionary, so it is read back.
pub proof fn law_own_handshake_is_readable(peer_id: [u8; 20], port: u16)
    ensures
        writable(handshake_tree(peer_id@, port)),
        tree_meaning(handshake_tree(peer_id@, port)) is Dict,
{
    lemma_handshake_meaning(peer_id@, port);
}

/// Whoever reads our own extension handshake learns our number for `ut_pex`, our peer id, our port and
/// our software, and nothing else.
pub proof fn law_own_handshake_is_read(peer_id: [u8; 20], port: u16, h: ExtensionHandshake)
    requires
        h.says(tree_meaning(handshake_tree(peer_id@, port))),
    ensures
        h.m@ == map!["ut_pex"@ => OWN_UT_PEX_ID],
        h.peer_id matches Some(id) && id@ == peer_id@,
        h.port == Some(port),
        h.version matches Some(v) && v@ == CLIENT_VERSION@,
{
    lemma_handshake_keys();
    lemma_handshake_meaning(peer_id@, port);
    let top = tree_meaning(handshake_tree(peer_id@, port));
    let d = Map::<Seq<u8>, Meaning>::empty().insert(
        "ut_pex".spec_bytes(),
        Meaning::Int(OWN_UT_PEX_ID as int),
    );
    assert(entry(top, "m".spec_bytes()) == Some(Meaning::Dict(d)));
    assert(bytes_entry(top, "pi".spec_bytes()) == Some(peer_id@));
    assert(int_entry(top, "port".spec_bytes()) == Some(port as int));
    assert(bytes_entry(top, "v".spec_bytes()) == Some(CLIENT_VERSION.spec_bytes()));
    assert forall|x: Seq<char>| encode_utf8(x) == "ut_pex".spec_bytes() implies x == "ut_pex"@ by {
        vstd::utf8::encode_utf8_decode_utf8(x);
        vstd::utf8::encode_utf8_decode_utf8("ut_pex"@);
    }
    assert(extension_ids(d) =~= map!["ut_pex"@ => OWN_UT_PEX_ID]);
    vstd::utf8::encode_utf8_valid_utf8(CLIENT_VERSION@);
    if let Some(v) = h.version {
        vstd::utf8::encode_utf8_decode_utf8(v@);
        vstd::utf8::encode_utf8_decode_utf8(CLIENT_VERSION@);
    }
}

/// The names with an integer, with the low-order byte of it.
pub open spec fn extension_ids(d: Map<Seq<u8>, Meaning>) -> Map<Seq<char>, u8> {
    Map::new(
        |name: Seq<char>| d.contains_key(encode_utf8(name)) && d[encode_utf8(name)] is Int,
        |name: Seq<char>| (d[encode_utf8(name)]->Int_0 % 256) as u8,
    )
}

/// The extensions that a handshake lists under `m`.
pub open spec fn listed_extensions(top: Meaning) -> Map<Seq<char>, u8> {
    match entry(top, "m".spec_bytes()) {
        Some(Meaning::Dict(d)) => extension_ids(d),
        _ => Map::empty(),
    }
}

/// The peer id under `pi`, if it has 20 bytes.
pub open spec fn listed_peer_id(top: Meaning) -> Option<Seq<u8>> {
    match bytes_entry(top, "pi".spec_bytes()) {
        Some(s) => if s.len() == 20 {
            Some(s)
        } else {
            None
        },
        None => None,
    }
}

/// The low-order 16 bits of the integer under `port`.
pub open spec fn listed_port(top: Meaning) -> Option<u16> {
    match int_entry(top, "port".spec_bytes()) {
        Some(n) => Some((n % 65536) as u16),
        None => None,
    }
}

/// The text under `v`, if it is valid UTF-8.
pub open spec fn listed_version(top: Meaning) -> Option<Seq<u8>> {
    match bytes_entry(top, "v".spec_bytes()) {
        Some(s) => if valid_utf8(s) {
            Some(s)
        } else {
            None
        },
        None => None,
    }
}

impl ExtensionHandshake {
    /// Whether this is the handshake that a bencoded value stands for.
    pub open spec fn says(&self, top: Meaning) -> bool {
        &&& self.m@ == listed_extensions(top)
        &&& match self.peer_id {
            Some(id) => listed_peer_id(top) == Some(id@),
            None => listed_peer_id(top) is None,
        }
        &&& self.port == listed_port(top)
        &&& match self.version {
            Some(v) => listed_version(top) == Some(encode_utf8(v@)),
            None => listed_version(top) is None,
        }
    }

    /// The payload of our own extension handshake.
    pub fn build_request(our_peer_id: &[u8; 20], listen_port: u16) -> (r: Vec<u8>)
        ensures
            r@ == encoding(handshake_tree(our_peer_id@, listen_port)),
    {
        let mut offers: DictWriter = DictWriter::new();
        offers.put_int("ut_pex", OWN_UT_PEX_ID as i64);
        let ghost offered = Tree::Dict(offers.entries());
        let listed: Vec<u8> = offers.finish();
        let mut top: DictWriter = DictWriter::new();
        top.put_encoded("m", listed.as_slice(), Ghost(offered));
        top.put_bytes("pi", our_peer_id);
        top.put_int("port", listen_port as i64);
        top.put_bytes("v", CLIENT_VERSION.as_bytes());
        proof {
            assert(offered->Dict_0 =~= seq![
                ("ut_pex".spec_bytes(), Tree::Int(OWN_UT_PEX_ID as int)),
            ]);
            assert(Tree::Dict(top.entries()) == handshake_tree(our_peer_id@, listen_port)) by {
                assert(top.entries() =~= handshake_tree(our_peer_id@, listen_port)->Dict_0);
            }
        }
        top.finish()
    }

    /// The extensions in a dictionary of names and numbers.
    fn read_extensions(entries: &Vec<(Vec<u8>, Bencode)>) -> (r: VecMap<String, u8>)
        ensures
            r@ == extension_ids(dict_meaning(entries@)),
    {
        let mut m: VecMap<String, u8> = VecMap::new();
        let mut i: usize = 0;
        assert(m@ =~= extension_ids(dict_meaning(entries@.take(0))));
        while i < entries.len()
            invariant
                i <= entries@.len(),
                m@ == extension_ids(dict_meaning(entries@.take(i as int))),
            decreases entries@.len() - i,
        {
            let ghost before = dict_meaning(entries@.take(i as int));
            let ghost after = dict_meaning(entries@.take(i + 1));
            let ghost m0 = m@;
            let ghost key = entries@[i as int].0@;
            proof {
                assert(entries@.take(i + 1).drop_last() =~= entries@.take(i as int));
                assert(entries@.take(i + 1).last() == entries@[i as int]);
                assert(after == before.insert(key, meaning(entries@[i as int].1)));
            }
            match text_from_utf8(entries[i].0.as_slice()) {
                Some(name) => {
                    let ghost n = name@;
                    match &entries[i].1 {
                        Bencode::Int(id) => {
                            m.insert(name, low_u8(*id));
                        },
                        _ => {
                            let _ = m.remove(&name);
                        },
                    }
                    proof {
                        assert forall|x: Seq<char>| encode_utf8(x) == key implies x == n by {
                            vstd::utf8::encode_utf8_decode_utf8(x);
                            vstd::utf8::encode_utf8_decode_utf8(n);
                        }
                        assert(m@ =~= extension_ids(after));
                    }
                },
                None => {
                    proof {
                        assert forall|x: Seq<char>| encode_utf8(x) != key by {
                            vstd::utf8::encode_utf8_valid_utf8(x);
                        }
                        assert(m@ =~= extension_ids(after));
                    }
                },
            }
            i += 1;
        }
        assert(entries@.take(i as int) =~= entries@);
        m
    }

    /// The handshake that a bencoded value stands for. `None` if it is no dictionary.
    pub fn from_value(top: &Bencode) -> (r: Option<ExtensionHandshake>)
        ensures
            r is Some <==> meaning(*top) is Dict,
            r matches Some(h) ==> h.says(meaning(*top)),
    {
        if !top.is_dict() {
            return None;
        }
        let m: VecMap<String, u8> = match top.get("m".as_bytes()) {
            Some(Bencode::Dict(entries)) => Self::read_extensions(entries),
            _ => VecMap::new(),
        };
        let peer_id: Option<[u8; 20]> = match top.get_bytes("pi".as_bytes()) {
            Some(b) => if b.len() == 20 {
                let id: [u8; 20] = take_20(b.as_slice(), 0);
                assert(id@ =~= b@);
                Some(id)
            } else {
                None
            },
            None => None,
        };
        let port: Option<u16> = match top.get_int("port".as_bytes()) {
            Some(n) => Some(low_u16(n)),
            None => None,
        };
        let version: Option<String> = match top.get_bytes("v".as_bytes()) {
            Some(b) => text_from_utf8(b.as_slice()),
            None => None,
        };
        Some(ExtensionHandshake { m, peer_id, port, version })
    }

    /// The handshake in the payload of an extension handshake message. `None` if the payload is no
    /// bencoded dictionary.
    pub fn parse(data: &[u8]) -> (r: Option<ExtensionHandshake>)
        ensures
            r is Some <==> (decoded(data@) matches Some(top) && top is Dict),
            r matches Some(h) ==> h.says(decoded(data@)->0),
            forall|t: Tree|
                data@ == #[trigger] encoding(t) && writable(t) ==> decoded(data@) == Some(
                    tree_meaning(t),
                ),
    {
        match decode(data) {
            Some(top) => Self::from_value(&top),
            None => None,
        }
    }

    /// The number that the peer uses for `ut_pex`.
    pub fn ut_pex_id(&self) -> (r: Option<u8>)
        ensures
            match r {
                Some(id) => self.m@.contains_key("ut_pex"@) && self.m@["ut_pex"@] == id,
                None => !self.m@.contains_key("ut_pex"@),
            },
    {
        let name: String = "ut_pex".to_string();
        match self.m.get(&name) {
            Some(id) => Some(*id),
            None => None,
        }
    }
}

/// A `ut_pex` message.
pub struct UtPexMessage {
    /// Peers that were added.
    pub added: Vec<SocketAddr>,
    /// A byte of flags for each of them.
    pub added_flags: Vec<u8>,
    /// Peers that were dropped.
    pub dropped: Vec<SocketAddr>,
    /// A byte of flags for each of them.
    pub dropped_flags: Vec<u8>,
}

/// `n` zero bytes.
pub open spec fn zeros(n: nat) -> Seq<u8> {
    Seq::new(n, |i: int| 0u8)
}

/// How a `ut_pex` message is written.
pub open spec fn pex_tree(added: Seq<SocketAddr>, dropped: Seq<SocketAddr>) -> Tree {
    Tree::Dict(
        seq![
            ("added".spec_bytes(), Tree::Bytes(compact_peers(added))),
            ("added.f".spec_bytes(), Tree::Bytes(zeros(added.len()))),
            ("dropped".spec_bytes(), Tree::Bytes(compact_peers(dropped))),
            ("dropped.f".spec_bytes(), Tree::Bytes(zeros(dropped.len()))),
        ],
    )
}

/// The byte string under `key`, empty if there is none.
pub open spec fn bytes_or_empty(top: Meaning, key: Seq<u8>) -> Seq<u8> {
    match bytes_entry(top, key) {
        Some(s) => s,
        None => Seq::empty(),
    }
}

proof fn lemma_pex_keys()
    ensures
        "added".spec_bytes() != "added.f".spec_bytes(),
        "added".spec_bytes() != "dropped".spec_bytes(),
        "added".spec_bytes() != "dropped.f".spec_bytes(),
        "added.f".spec_bytes() != "dropped".spec_bytes(),
        "added.f".spec_bytes() != "dropped.f".spec_bytes(),
        "dropped".spec_bytes() != "dropped.f".spec_bytes(),
{
    reveal_strlit("added");
    reveal_strlit("added.f");
    reveal_strlit("dropped");
    reveal_strlit("dropped.f");
    assert(is_ascii("added"));
    assert(is_ascii("added.f"));
    assert(is_ascii("dropped"));
    assert(is_ascii("dropped.f"));
    assert("added.f".spec_bytes()[0] == 97u8);
    assert("dropped".spec_bytes()[0] == 100u8);
}

/// What a written `ut_pex` message means.
pub proof fn lemma_pex_tree(added: Seq<SocketAddr>, dropped: Seq<SocketAddr>)
    ensures
        encoding(pex_tree(added, dropped)).len() <= usize::MAX ==> writable(
            pex_tree(added, dropped),
        ),
        tree_meaning(pex_tree(added, dropped)) is Dict,
        bytes_entry(tree_meaning(pex_tree(added, dropped)), "added".spec_bytes()) == Some(
            compact_peers(added),
        ),
        bytes_entry(tree_meaning(pex_tree(added, dropped)), "added.f".spec_bytes()) == Some(
            zeros(added.len()),
        ),
        bytes_entry(tree_meaning(pex_tree(added, dropped)), "dropped".spec_bytes()) == Some(
            compact_peers(dropped),
        ),
        bytes_entry(tree_meaning(pex_tree(added, dropped)), "dropped.f".spec_bytes()) == Some(
            zeros(dropped.len()),
        ),
{
    lemma_pex_keys();
    lemma_empty_encodings();
    let t1 = Tree::Bytes(compact_peers(added));
    let t2 = Tree::Bytes(zeros(added.len()));
    let t3 = Tree::Bytes(compact_peers(dropped));
    let t4 = Tree::Bytes(zeros(dropped.len()));
    let e0 = Seq::<(Seq<u8>, Tree)>::empty();
    let e1 = e0.push(("added".spec_bytes(), t1));
    let e2 = e1.push(("added.f".spec_bytes(), t2));
    let e3 = e2.push(("dropped".spec_bytes(), t3));
    let e4 = e3.push(("dropped.f".spec_bytes(), t4));
    assert(pex_tree(added, dropped)->Dict_0 =~= e4);
    lemma_entries_push(e0, "added".spec_bytes(), t1);
    lemma_entries_push(e1, "added.f".spec_bytes(), t2);
    lemma_entries_push(e2, "dropped".spec_bytes(), t3);
    lemma_entries_push(e3, "dropped.f".spec_bytes(), t4);
    assert(encoding(pex_tree(added, dropped)).len() == 2 + entries_encoding(e4).len());
    if encoding(pex_tree(added, dropped)).len() <= usize::MAX {
        let n = (MAX_NESTING - 1) as nat;
        assert(entries_writable(e1, n));
        assert(entries_writable(e2, n));
        assert(entries_writable(e3, n));
        assert(entries_writable(e4, n));
    }
    assert(tree_meaning(pex_tree(added, dropped)) == Meaning::Dict(entries_meaning(e4)));
}

/// `n` zero bytes.
fn zero_flags(n: usize) -> (r: Vec<u8>)
    ensures
        r@ == zeros(n as nat),
{
    let mut out: Vec<u8> = Vec::with_capacity(n);
    while out.len() < n
        invariant
            out@.len() <= n,
            forall|i: int| 0 <= i < out@.len() ==> out@[i] == 0u8,
        decreases n - out@.len(),
    {
        out.push(0);
    }
    assert(out@ =~= zeros(n as nat));
    out
}

fn copy_or_empty(v: Option<&Vec<u8>>) -> (r: Vec<u8>)
    ensures
        match v {
            Some(s) => r@ == s@,
            None => r@ == Seq::<u8>::empty(),
        },
{
    match v {
        Some(s) => {
            let r: Vec<u8> = sub_vec(s.as_slice(), 0, s.len());
            assert(r@ =~= s@);
            r
        },
        None => Vec::new(),
    }
}

impl UtPexMessage {
    /// Whether this is the message that a bencoded value stands for.
    pub open spec fn says(&self, top: Meaning) -> bool {
        &&& self.added@ == peers_of(bytes_or_empty(top, "added".spec_bytes()), false)
        &&& self.added_flags@ == bytes_or_empty(top, "added.f".spec_bytes())
        &&& self.dropped@ == peers_of(bytes_or_empty(top, "dropped".spec_bytes()), false)
        &&& self.dropped_flags@ == bytes_or_empty(top, "dropped.f".spec_bytes())
    }

    /// The payload of a `ut_pex` message. Peers that are not IPv4 are not written; each peer has a
    /// zero byte of flags.
    pub fn build(added: &[SocketAddr], dropped: &[SocketAddr]) -> (r: Vec<u8>)
        ensures
            r@ == encoding(pex_tree(added@, dropped@)),
    {
        let added_compact: Vec<u8> = Self::encode_compact_peers(added);
        let dropped_compact: Vec<u8> = Self::encode_compact_peers(dropped);
        let added_flags: Vec<u8> = zero_flags(added.len());
        let dropped_flags: Vec<u8> = zero_flags(dropped.len());
        let mut dict: DictWriter = DictWriter::new();
        dict.put_bytes("added", added_compact.as_slice());
        dict.put_bytes("added.f", added_flags.as_slice());
        dict.put_bytes("dropped", dropped_compact.as_slice());
        dict.put_bytes("dropped.f", dropped_flags.as_slice());
        assert(dict.entries() =~= pex_tree(added@, dropped@)->Dict_0);
        dict.finish()
    }

    /// The message that a bencoded value stands for. `None` if it is no dictionary.
    pub fn from_value(top: &Bencode) -> (r: Option<UtPexMessage>)
        ensures
            r is Some <==> meaning(*top) is Dict,
            r matches Some(m) ==> m.says(meaning(*top)),
    {
        if !top.is_dict() {
            return None;
        }
        let added: Vec<u8> = copy_or_empty(top.get_bytes("added".as_bytes()));
        let added_flags: Vec<u8> = copy_or_empty(top.get_bytes("added.f".as_bytes()));
        let dropped: Vec<u8> = copy_or_empty(top.get_bytes("dropped".as_bytes()));
        let dropped_flags: Vec<u8> = copy_or_empty(top.get_bytes("dropped.f".as_bytes()));
        Some(
            UtPexMessage {
                added: Self::decode_compact_peers(added.as_slice()),
                added_flags,
                dropped: Self::decode_compact_peers(dropped.as_slice()),
                dropped_flags,
            },
        )
    }

    /// The message in a payload. `None` if the payload is no bencoded dictionary. A payload that
    /// [`UtPexMessage::build`] made gives the peers back, but for those that are not IPv4 or have
    /// port zero.
    pub fn parse(data: &[u8]) -> (r: Option<UtPexMessage>)
        ensures
            r is Some <==> (decoded(data@) matches Some(top) && top is Dict),
            r matches Some(m) ==> m.says(decoded(data@)->0),
            forall|added: Seq<SocketAddr>, dropped: Seq<SocketAddr>|
                data@ == encoding(#[trigger] pex_tree(added, dropped)) ==> {
                    &&& r is Some
                    &&& (r->0).added@ == added.filter(carried(false))
                    &&& (r->0).added_flags@ == zeros(added.len())
                    &&& (r->0).dropped@ == dropped.filter(carried(false))
                    &&& (r->0).dropped_flags@ == zeros(dropped.len())
                },
    {
        let len: usize = data.len();
        let r: Option<UtPexMessage> = match decode(data) {
            Some(top) => Self::from_value(&top),
            None => None,
        };
        proof {
            assert forall|added: Seq<SocketAddr>, dropped: Seq<SocketAddr>|
                data@ == encoding(#[trigger] pex_tree(added, dropped)) implies {
                &&& r is Some
                &&& (r->0).added@ == added.filter(carried(false))
                &&& (r->0).added_flags@ == zeros(added.len())
                &&& (r->0).dropped@ == dropped.filter(carried(false))
                &&& (r->0).dropped_flags@ == zeros(dropped.len())
            } by {
                lemma_pex_tree(added, dropped);
                law_compact_round_trip(added, false);
                law_compact_round_trip(dropped, false);
                assert(data@.len() == len);
                assert(decoded(data@) == Some(tree_meaning(pex_tree(added, dropped))));
            }
        }
        r
    }

    /// The compact form of the IPv4 peers.
    pub fn encode_compact_peers(peers: &[SocketAddr]) -> (r: Vec<u8>)
        ensures
            r@ == compact_peers(peers@),
    {
        let mut buf: Vec<u8> = Vec::new();
        put_compact_peers(&mut buf, peers);
        buf
    }

    /// The peers of a compact list, without those with port zero.
    pub fn decode_compact_peers(data: &[u8]) -> (r: Vec<SocketAddr>)
        ensures
            r@ == peers_of(data@, false),
    {
        read_compact_peers(data, false)
    }
}

/// A handshake has its parts where the protocol has them: the length of the name and the name, eight
/// reserved bytes, the infohash and then the peer id.
pub proof fn law_handshake_layout(reserved: [u8; 8], infohash: [u8; 20], peer_id: [u8; 20])
    ensures
        ({
            let h = handshake_bytes(reserved@, infohash@, peer_id@);
            &&& h.len() == 68
            &&& h[0] == 19
            &&& h.subrange(1, 20) == "BitTorrent protocol".spec_bytes()
            &&& h.subrange(20, 28) == reserved@
            &&& h.subrange(28, 48) == infohash@
            &&& h.subrange(48, 68) == peer_id@
        }),
        forall|i: int| 0 <= i < 8 ==> #[trigger] no_reserved()[i] == 0,
        no_reserved().len() == 8,
{
    lemma_protocol_name();
    let h = handshake_bytes(reserved@, infohash@, peer_id@);
    assert(h.subrange(1, 20) =~= "BitTorrent protocol".spec_bytes());
    assert(h.subrange(20, 28) =~= reserved@);
    assert(h.subrange(28, 48) =~= infohash@);
    assert(h.subrange(48, 68) =~= peer_id@);
}

/// An extended message has the length of what follows in its first four bytes, then the number 20, the
/// extension and the payload. A body without bytes is a keep-alive; of any other the first byte is the
/// type.
pub proof fn law_extended_message_layout(extension_id: u8, payload: Seq<u8>, body: Seq<u8>)
    requires
        payload.len() + 2 <= u32::MAX,
    ensures
        ({
            let m = extended_bytes(extension_id, payload);
            &&& m.len() == 6 + payload.len()
            &&& be_value(m.subrange(0, 4)) == 2 + payload.len()
            &&& m[4] == 20
            &&& m[5] == extension_id
            &&& m.skip(6) == payload
        }),
        body.len() == 0 ==> split_body(body).0 == 255 && split_body(body).1.len() == 0,
        body.len() > 0 ==> split_body(body).0 == body[0] && split_body(body).1 == body.subrange(
            1,
            body.len() as int,
        ),
{
    let n = 2 + payload.len();
    let m = extended_bytes(extension_id, payload);
    lemma_be_bytes_len(n, 4);
    lemma_byte_capacity_values();
    lemma_be_round_trip(n, 4);
    assert(m.subrange(0, 4) =~= be_bytes(n, 4));
    assert(m.skip(6) =~= payload);
    if body.len() > 0 {
        assert(body.skip(1) =~= body.subrange(1, body.len() as int));
    }
}

/// Our own extension handshake offers `ut_pex` under the number 1, and has the peer id under `pi`, the
/// port under `port` and the software under `v`.
pub proof fn law_own_handshake_fields(peer_id: [u8; 20], port: u16)
    ensures
        ({
            let top = tree_meaning(handshake_tree(peer_id@, port));
            &&& entry(top, "m".spec_bytes()) matches Some(m) && int_entry(m, "ut_pex".spec_bytes())
                == Some(1int)
            &&& bytes_entry(top, "pi".spec_bytes()) == Some(peer_id@)
            &&& int_entry(top, "port".spec_bytes()) == Some(port as int)
            &&& bytes_entry(top, "v".spec_bytes()) == Some("PeerDiscoveryCenter/0.2".spec_bytes())
        }),
{
    lemma_handshake_keys();
    lemma_handshake_meaning(peer_id@, port);
}

/// A peer's extension handshake is taken at its word: the number under a name of `m` is the number of that
/// extension, the 20 bytes under `pi` are its peer id, the number under `port` its port.
pub proof fn law_extension_handshake_is_read(
    h: ExtensionHandshake,
    top: Meaning,
    m: Map<Seq<u8>, Meaning>,
    name: Seq<char>,
    n: int,
)
    requires
        h.says(top),
        entry(top, "m".spec_bytes()) == Some(Meaning::Dict(m)),
    ensures
        m.contains_key(encode_utf8(name)) && m[encode_utf8(name)] == Meaning::Int(n) && 0 <= n < 256
            ==> h.m@.contains_key(name) && h.m@[name] == n,
        h.m@.contains_key(name) ==> m.contains_key(encode_utf8(name)) && m[encode_utf8(name)] is Int,
        bytes_entry(top, "pi".spec_bytes()) matches Some(s) && s.len() == 20 ==> (h.peer_id matches Some(
            id,
        ) && id@ == bytes_entry(top, "pi".spec_bytes())->0),
        bytes_entry(top, "pi".spec_bytes()) is None ==> h.peer_id is None,
        int_entry(top, "port".spec_bytes()) == Some(n) && 0 <= n < 65536 ==> (h.port matches Some(p) && p
            == n),
        int_entry(top, "port".spec_bytes()) is None ==> h.port is None,
{
}

/// A `ut_pex` message that was written is read with just the peers that were added and dropped, each list
/// in its order, but for those that are not IPv4 or have no port, and with a zero byte of flags for each
/// peer that was given.
pub proof fn law_pex_message_is_read(
    added: Seq<SocketAddr>,
    dropped: Seq<SocketAddr>,
    m: UtPexMessage,
)
    requires
        m.says(tree_meaning(pex_tree(added, dropped))),
    ensures
        m.added@ == added.filter(|p: SocketAddr| p.ip is V4 && p.port != 0),
        m.dropped@ == dropped.filter(|p: SocketAddr| p.ip is V4 && p.port != 0),
        m.added_flags@.len() == added.len(),
        m.dropped_flags@.len() == dropped.len(),
        forall|i: int| 0 <= i < added.len() ==> #[trigger] m.added_flags@[i] == 0,
        forall|i: int| 0 <= i < dropped.len() ==> #[trigger] m.dropped_flags@[i] == 0,
        ({
            let top = tree_meaning(pex_tree(added, dropped));
            &&& bytes_entry(top, "added".spec_bytes()) == Some(compact_peers(added))
            &&& bytes_entry(top, "dropped".spec_bytes()) == Some(compact_peers(dropped))
        }),
{
    lemma_pex_tree(added, dropped);
    law_compact_round_trip(added, false);
    law_compact_round_trip(dropped, false);
    let q = |p: SocketAddr| p.ip is V4 && p.port != 0;
    assert(q =~= carried(false));
}

} // verus!
