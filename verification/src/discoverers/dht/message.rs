//! The messages of the DHT protocol (KRPC, BEP 5 and BEP 51).

use crate::bencode::{
    bytes_entry, decode, decoded, encoding, entries_meaning, entry, int_entry, items_encoding, items_meaning,
    lemma_empty_encodings, lemma_entries_push, lemma_items_push, list_meaning, meaning, put_byte_string,
    put_int, tree_meaning, writable, Bencode, DictWriter, Meaning, Tree,
};
use crate::bytes::{low_u16, put_be, put_bytes, same_bytes, sub_vec, take_20};
use crate::compact::{compact_peer, peer_at_front, peers_of, read_compact_peers};
use crate::net::{IpAddr, SocketAddr};
use crate::types::Infohash;
use vstd::prelude::*;
use vstd::string::*;

verus! {

/// A node as messages describe it.
#[derive(Debug, Clone, Copy, PartialEq, Eq)]
pub struct DhtNode {
    pub id: [u8; 20],
    pub addr: SocketAddr,
}

/// What a query asks for.
#[derive(Debug, Clone, Copy, PartialEq, Eq, Structural)]
pub enum QueryMethod {
    Ping,
    FindNode,
    GetPeers,
    AnnouncePeer,
    SampleInfohashes,
}

impl QueryMethod {
    /// The name of the method on the wire.
    pub open spec fn wire_name(self) -> Seq<u8> {
        match self {
            QueryMethod::Ping => "ping".spec_bytes(),
            QueryMethod::FindNode => "find_node".spec_bytes(),
            QueryMethod::GetPeers => "get_peers".spec_bytes(),
            QueryMethod::AnnouncePeer => "announce_peer".spec_bytes(),
            QueryMethod::SampleInfohashes => "sample_infohashes".spec_bytes(),
        }
    }

    /// The argument that names what a query is about; a ping is about nothing.
    pub open spec fn subject_key(self) -> Option<Seq<u8>> {
        match self {
            QueryMethod::Ping => None,
            QueryMethod::FindNode => Some("target".spec_bytes()),
            QueryMethod::GetPeers => Some("info_hash".spec_bytes()),
            QueryMethod::AnnouncePeer => Some("info_hash".spec_bytes()),
            QueryMethod::SampleInfohashes => Some("target".spec_bytes()),
        }
    }
}

proof fn lemma_method_names()
    ensures
        forall|a: QueryMethod, b: QueryMethod| #![trigger a.wire_name(), b.wire_name()]
            a.wire_name() == b.wire_name() ==> a == b,
{
    reveal_strlit("ping");
    reveal_strlit("find_node");
    reveal_strlit("get_peers");
    reveal_strlit("announce_peer");
    reveal_strlit("sample_infohashes");
    assert(is_ascii("ping"));
    assert(is_ascii("find_node"));
    assert(is_ascii("get_peers"));
    assert(is_ascii("announce_peer"));
    assert(is_ascii("sample_infohashes"));
    assert("find_node".spec_bytes()[0] == 102u8);
    assert("get_peers".spec_bytes()[0] == 103u8);
    assert("ping".spec_bytes().len() == 4);
    assert("find_node".spec_bytes().len() == 9);
    assert("get_peers".spec_bytes().len() == 9);
    assert("announce_peer".spec_bytes().len() == 13);
    assert("sample_infohashes".spec_bytes().len() == 17);
}

/// A message is a query with one method at most.
pub proof fn lemma_one_method(top: Meaning, a: QueryMethod, b: QueryMethod)
    requires
        is_query(top, a),
        is_query(top, b),
    ensures
        a == b,
{
    lemma_method_names();
    assert(a.wire_name() == b.wire_name());
}

/// The 20-byte string under `key`.
pub open spec fn id_entry(m: Meaning, key: Seq<u8>) -> Option<Seq<u8>> {
    match bytes_entry(m, key) {
        Some(s) => if s.len() == 20 {
            Some(s)
        } else {
            None
        },
        None => None,
    }
}

/// The 20-byte string under `key` of a dictionary that may be missing.
pub open spec fn id_entry_of(m: Option<Meaning>, key: Seq<u8>) -> Option<Seq<u8>> {
    match m {
        Some(d) => id_entry(d, key),
        None => None,
    }
}

/// Whether a message is a query with method `method`.
pub open spec fn is_query(top: Meaning, method: QueryMethod) -> bool {
    &&& bytes_entry(top, "y".spec_bytes()) == Some("q".spec_bytes())
    &&& bytes_entry(top, "t".spec_bytes()) is Some
    &&& bytes_entry(top, "q".spec_bytes()) == Some(method.wire_name())
}

/// What a query is about.
pub open spec fn query_subject(top: Meaning, method: QueryMethod) -> Option<Seq<u8>> {
    match method.subject_key() {
        Some(key) => id_entry_of(entry(top, "a".spec_bytes()), key),
        None => None,
    }
}

/// A query: its transaction, its method and what it is about.
pub struct Query {
    pub tid: Vec<u8>,
    pub method: QueryMethod,
    pub subject: Option<Infohash>,
}

impl Query {
    /// Whether this is the query that a message stands for.
    pub open spec fn says(&self, top: Meaning) -> bool {
        &&& is_query(top, self.method)
        &&& bytes_entry(top, "t".spec_bytes()) == Some(self.tid@)
        &&& match self.subject {
            Some(ih) => query_subject(top, self.method) == Some(ih@),
            None => query_subject(top, self.method) is None,
        }
    }
}

/// The arguments of an `announce_peer` query.
#[derive(Debug)]
pub struct AnnouncePeerParams {
    /// The announcing node.
    pub id: [u8; 20],
    pub info_hash: Infohash,
    /// The port that peers connect to.
    pub port: u16,
    pub token: Vec<u8>,
    /// Whether peers connect to the port that the query came from.
    pub implied_port: bool,
}

/// The port argument, zero if there is none.
pub open spec fn port_argument(args: Meaning) -> u16 {
    match int_entry(args, "port".spec_bytes()) {
        Some(n) => (n % 65536) as u16,
        None => 0,
    }
}

/// Whether the arguments ask for the port that the query came from.
pub open spec fn wants_implied_port(args: Meaning) -> bool {
    match int_entry(args, "implied_port".spec_bytes()) {
        Some(n) => n != 0,
        None => false,
    }
}

/// Whether a message is an announcement with all it needs.
pub open spec fn is_announcement(top: Meaning) -> bool {
    &&& is_query(top, QueryMethod::AnnouncePeer)
    &&& entry(top, "a".spec_bytes()) is Some
    &&& id_entry(entry(top, "a".spec_bytes())->0, "id".spec_bytes()) is Some
    &&& id_entry(entry(top, "a".spec_bytes())->0, "info_hash".spec_bytes()) is Some
    &&& bytes_entry(entry(top, "a".spec_bytes())->0, "token".spec_bytes()) is Some
}

impl AnnouncePeerParams {
    /// Whether these are the arguments `args`.
    pub open spec fn says(&self, args: Meaning) -> bool {
        &&& id_entry(args, "id".spec_bytes()) == Some(self.id@)
        &&& id_entry(args, "info_hash".spec_bytes()) == Some(self.info_hash@)
        &&& bytes_entry(args, "token".spec_bytes()) == Some(self.token@)
        &&& self.port == port_argument(args)
        &&& self.implied_port == wants_implied_port(args)
    }
}

/// A node in compact form, 26 bytes; empty for a node that is not IPv4.
pub open spec fn compact_node(node: DhtNode) -> Seq<u8> {
    match node.addr.ip {
        IpAddr::V4(_) => node.id@ + compact_peer(node.addr),
        IpAddr::V6(_) => Seq::empty(),
    }
}

/// Nodes in compact form. Nodes that are not IPv4 are left out.
pub open spec fn compact_nodes(nodes: Seq<DhtNode>) -> Seq<u8>
    decreases nodes.len(),
{
    if nodes.len() == 0 {
        Seq::empty()
    } else {
        compact_nodes(nodes.drop_last()) + compact_node(nodes.last())
    }
}

/// Whether `nodes` are the nodes of a compact list.
pub open spec fn are_nodes_of(nodes: Seq<DhtNode>, data: Seq<u8>) -> bool {
    &&& nodes.len() == data.len() / 26
    &&& forall|i: int|
        0 <= i < nodes.len() ==> (#[trigger] nodes[i]).id@ == data.subrange(26 * i, 26 * i + 20)
            && nodes[i].addr == peer_at_front(data.subrange(26 * i + 20, 26 * i + 26))
}

/// The peers among the values of a list: byte strings of six bytes with a port.
pub open spec fn peers_in(values: Seq<Meaning>) -> Seq<SocketAddr>
    decreases values.len(),
{
    if values.len() == 0 {
        Seq::empty()
    } else {
        let rest = peers_in(values.drop_last());
        match values.last() {
            Meaning::Bytes(s) => if s.len() == 6 {
                rest + peers_of(s, false)
            } else {
                rest
            },
            _ => rest,
        }
    }
}

/// The peers under `values`.
pub open spec fn listed_values(args: Meaning) -> Seq<SocketAddr> {
    match entry(args, "values".spec_bytes()) {
        Some(Meaning::List(values)) => peers_in(values),
        _ => Seq::empty(),
    }
}

/// The compact nodes under `nodes`, empty if there are none.
pub open spec fn listed_nodes(args: Meaning) -> Seq<u8> {
    match bytes_entry(args, "nodes".spec_bytes()) {
        Some(s) => s,
        None => Seq::empty(),
    }
}

/// The answer to a `get_peers` query.
pub struct GetPeersResponse {
    /// The answering node.
    pub node_id: [u8; 20],
    /// Peers of the infohash.
    pub values: Vec<SocketAddr>,
    /// Nodes that are closer to the infohash.
    pub nodes: Vec<DhtNode>,
    /// The token for an announcement.
    pub token: Option<Vec<u8>>,
}

/// Whether a message is a response of a node.
pub open spec fn is_response(top: Meaning) -> bool {
    &&& bytes_entry(top, "y".spec_bytes()) == Some("r".spec_bytes())
    &&& bytes_entry(top, "t".spec_bytes()) is Some
    &&& entry(top, "r".spec_bytes()) is Some
    &&& id_entry(entry(top, "r".spec_bytes())->0, "id".spec_bytes()) is Some
}

impl GetPeersResponse {
    /// Whether this is the answer with the values `args`.
    pub open spec fn says(&self, args: Meaning) -> bool {
        &&& id_entry(args, "id".spec_bytes()) == Some(self.node_id@)
        &&& self.values@ == listed_values(args)
        &&& are_nodes_of(self.nodes@, listed_nodes(args))
        &&& match self.token {
            Some(t) => bytes_entry(args, "token".spec_bytes()) == Some(t@),
            None => bytes_entry(args, "token".spec_bytes()) is None,
        }
    }
}

/// A query as it is written.
pub open spec fn query_tree(tid: Seq<u8>, method: QueryMethod, args: Seq<(Seq<u8>, Tree)>) -> Tree {
    Tree::Dict(
        seq![
            ("a".spec_bytes(), Tree::Dict(args)),
            ("q".spec_bytes(), Tree::Bytes(method.wire_name())),
            ("t".spec_bytes(), Tree::Bytes(tid)),
            ("y".spec_bytes(), Tree::Bytes("q".spec_bytes())),
        ],
    )
}

/// A response as it is written.
pub open spec fn response_tree(tid: Seq<u8>, values: Seq<(Seq<u8>, Tree)>) -> Tree {
    Tree::Dict(
        seq![
            ("r".spec_bytes(), Tree::Dict(values)),
            ("t".spec_bytes(), Tree::Bytes(tid)),
            ("y".spec_bytes(), Tree::Bytes("r".spec_bytes())),
        ],
    )
}

/// An error as it is written.
pub open spec fn error_tree(tid: Seq<u8>, code: int, text: Seq<u8>) -> Tree {
    Tree::Dict(
        seq![
            ("e".spec_bytes(), Tree::List(seq![Tree::Int(code), Tree::Bytes(text)])),
            ("t".spec_bytes(), Tree::Bytes(tid)),
            ("y".spec_bytes(), Tree::Bytes("e".spec_bytes())),
        ],
    )
}

/// The arguments of a ping.
pub open spec fn ping_args(id: Seq<u8>) -> Seq<(Seq<u8>, Tree)> {
    seq![("id".spec_bytes(), Tree::Bytes(id))]
}

/// The arguments of a `get_peers` query.
pub open spec fn get_peers_args(id: Seq<u8>, info_hash: Seq<u8>) -> Seq<(Seq<u8>, Tree)> {
    seq![
        ("id".spec_bytes(), Tree::Bytes(id)),
        ("info_hash".spec_bytes(), Tree::Bytes(info_hash)),
    ]
}

/// The arguments of an `announce_peer` query.
pub open spec fn announce_args(
    id: Seq<u8>,
    info_hash: Seq<u8>,
    port: int,
    token: Seq<u8>,
) -> Seq<(Seq<u8>, Tree)> {
    seq![
        ("id".spec_bytes(), Tree::Bytes(id)),
        ("info_hash".spec_bytes(), Tree::Bytes(info_hash)),
        ("port".spec_bytes(), Tree::Int(port)),
        ("token".spec_bytes(), Tree::Bytes(token)),
    ]
}

/// The values of an answer with nodes.
pub open spec fn nodes_values(id: Seq<u8>, nodes: Seq<u8>) -> Seq<(Seq<u8>, Tree)> {
    seq![("id".spec_bytes(), Tree::Bytes(id)), ("nodes".spec_bytes(), Tree::Bytes(nodes))]
}

/// Each IPv4 peer as a byte string.
pub open spec fn value_items(peers: Seq<SocketAddr>) -> Seq<Tree>
    decreases peers.len(),
{
    if peers.len() == 0 {
        Seq::empty()
    } else {
        let rest = value_items(peers.drop_last());
        if peers.last().ip is V4 {
            rest.push(Tree::Bytes(compact_peer(peers.last())))
        } else {
            rest
        }
    }
}

/// The values of an answer to `get_peers`: nodes if there are any, the token, and peers if there
/// are any.
pub open spec fn peers_values(
    id: Seq<u8>,
    token: Seq<u8>,
    peers: Seq<SocketAddr>,
    nodes: Seq<DhtNode>,
) -> Seq<(Seq<u8>, Tree)> {
    let with_id = seq![("id".spec_bytes(), Tree::Bytes(id))];
    let with_nodes = if nodes.len() > 0 {
        with_id.push(("nodes".spec_bytes(), Tree::Bytes(compact_nodes(nodes))))
    } else {
        with_id
    };
    let with_token = with_nodes.push(("token".spec_bytes(), Tree::Bytes(token)));
    if peers.len() > 0 {
        with_token.push(("values".spec_bytes(), Tree::List(value_items(peers))))
    } else {
        with_token
    }
}

/// The values of an answer to `sample_infohashes`.
pub open spec fn sample_values(id: Seq<u8>, interval: int, num: int, samples: Seq<u8>) -> Seq<
    (Seq<u8>, Tree),
> {
    seq![
        ("id".spec_bytes(), Tree::Bytes(id)),
        ("interval".spec_bytes(), Tree::Int(interval)),
        ("num".spec_bytes(), Tree::Int(num)),
        ("samples".spec_bytes(), Tree::Bytes(samples)),
    ]
}

/// Builds and parses messages.
pub struct DhtMessage;

fn finish_query(tid: &[u8], method: QueryMethod, args: DictWriter) -> (r: Vec<u8>)
    requires
        args.wf(),
    ensures
        r@ == encoding(query_tree(tid@, method, args.entries())),
{
    let ghost entries = args.entries();
    let encoded: Vec<u8> = args.finish();
    let name: &str = match method {
        QueryMethod::Ping => "ping",
        QueryMethod::FindNode => "find_node",
        QueryMethod::GetPeers => "get_peers",
        QueryMethod::AnnouncePeer => "announce_peer",
        QueryMethod::SampleInfohashes => "sample_infohashes",
    };
    let mut top: DictWriter = DictWriter::new();
    top.put_encoded("a", encoded.as_slice(), Ghost(Tree::Dict(entries)));
    top.put_bytes("q", name.as_bytes());
    top.put_bytes("t", tid);
    top.put_bytes("y", "q".as_bytes());
    assert(top.entries() =~= query_tree(tid@, method, entries)->Dict_0);
    top.finish()
}

fn finish_response(tid: &[u8], values: DictWriter) -> (r: Vec<u8>)
    requires
        values.wf(),
    ensures
        r@ == encoding(response_tree(tid@, values.entries())),
{
    let ghost entries = values.entries();
    let encoded: Vec<u8> = values.finish();
    let mut top: DictWriter = DictWriter::new();
    top.put_encoded("r", encoded.as_slice(), Ghost(Tree::Dict(entries)));
    top.put_bytes("t", tid);
    top.put_bytes("y", "r".as_bytes());
    assert(top.entries() =~= response_tree(tid@, entries)->Dict_0);
    top.finish()
}

/// The 20-byte string under `key`.
fn get_id(value: &Bencode, key: &str) -> (r: Option<[u8; 20]>)
    ensures
        match r {
            Some(id) => id_entry(meaning(*value), key.spec_bytes()) == Some(id@),
            None => id_entry(meaning(*value), key.spec_bytes()) is None,
        },
{
    match value.get_bytes(key.as_bytes()) {
        Some(b) => if b.len() == 20 {
            let id: [u8; 20] = take_20(b.as_slice(), 0);
            assert(id@ =~= b@);
            Some(id)
        } else {
            None
        },
        None => None,
    }
}

fn copy_bytes(v: &Vec<u8>) -> (r: Vec<u8>)
    ensures
        r@ == v@,
{
    let r: Vec<u8> = sub_vec(v.as_slice(), 0, v.len());
    assert(r@ =~= v@);
    r
}

impl DhtMessage {
    /// A ping.
    pub fn build_ping(tid: &[u8], id: &[u8; 20]) -> (r: Vec<u8>)
        ensures
            r@ == encoding(query_tree(tid@, QueryMethod::Ping, ping_args(id@))),
    {
        let mut args: DictWriter = DictWriter::new();
        args.put_bytes("id", id);
        assert(args.entries() =~= ping_args(id@));
        finish_query(tid, QueryMethod::Ping, args)
    }

    /// A query for the peers of an infohash.
    pub fn build_get_peers(tid: &[u8], id: &[u8; 20], info_hash: &Infohash) -> (r: Vec<u8>)
        ensures
            r@ == encoding(
                query_tree(tid@, QueryMethod::GetPeers, get_peers_args(id@, info_hash@)),
            ),
    {
        let mut args: DictWriter = DictWriter::new();
        args.put_bytes("id", id);
        args.put_bytes("info_hash", info_hash);
        assert(args.entries() =~= get_peers_args(id@, info_hash@));
        finish_query(tid, QueryMethod::GetPeers, args)
    }

    /// An announcement that peers of an infohash can connect to `port`.
    pub fn build_announce_peer(
        tid: &[u8],
        id: &[u8; 20],
        info_hash: &Infohash,
        port: u16,
        token: &[u8],
    ) -> (r: Vec<u8>)
        ensures
            r@ == encoding(
                query_tree(
                    tid@,
                    QueryMethod::AnnouncePeer,
                    announce_args(id@, info_hash@, port as int, token@),
                ),
            ),
    {
        let mut args: DictWriter = DictWriter::new();
        args.put_bytes("id", id);
        args.put_bytes("info_hash", info_hash);
        args.put_int("port", port as i64);
        args.put_bytes("token", token);
        assert(args.entries() =~= announce_args(id@, info_hash@, port as int, token@));
        finish_query(tid, QueryMethod::AnnouncePeer, args)
    }

    /// The answer to a ping.
    pub fn build_ping_response(tid: &[u8], id: &[u8; 20]) -> (r: Vec<u8>)
        ensures
            r@ == encoding(response_tree(tid@, ping_args(id@))),
    {
        let mut values: DictWriter = DictWriter::new();
        values.put_bytes("id", id);
        assert(values.entries() =~= ping_args(id@));
        finish_response(tid, values)
    }

    /// The answer to an announcement.
    pub fn build_announce_peer_response(tid: &[u8], id: &[u8; 20]) -> (r: Vec<u8>)
        ensures
            r@ == encoding(response_tree(tid@, ping_args(id@))),
    {
        Self::build_ping_response(tid, id)
    }

    /// The answer to `find_node` without nodes.
    pub fn build_find_node_response(tid: &[u8], id: &[u8; 20]) -> (r: Vec<u8>)
        ensures
            r@ == encoding(response_tree(tid@, nodes_values(id@, Seq::empty()))),
    {
        let none: Vec<u8> = Vec::new();
        let mut values: DictWriter = DictWriter::new();
        values.put_bytes("id", id);
        values.put_bytes("nodes", none.as_slice());
        assert(none@ =~= Seq::<u8>::empty());
        assert(values.entries() =~= nodes_values(id@, Seq::empty()));
        finish_response(tid, values)
    }

    /// The compact form of the IPv4 nodes.
    fn encode_nodes(nodes: &[DhtNode]) -> (r: Vec<u8>)
        ensures
            r@ == compact_nodes(nodes@),
    {
        let mut out: Vec<u8> = Vec::new();
        let mut i: usize = 0;
        while i < nodes.len()
            invariant
                i <= nodes.len(),
                out@ == compact_nodes(nodes@.take(i as int)),
            decreases nodes.len() - i,
        {
            let ghost before = out@;
            if let IpAddr::V4(ip) = nodes[i].addr.ip {
                put_bytes(&mut out, nodes[i].id.as_slice());
                put_bytes(&mut out, ip.as_slice());
                put_be(&mut out, nodes[i].addr.port as u64, 2);
            }
            proof {
                assert(nodes@.take(i + 1).drop_last() =~= nodes@.take(i as int));
                assert(nodes@.take(i + 1).last() == nodes@[i as int]);
                assert(out@ =~= before + compact_node(nodes@[i as int]));
            }
            i += 1;
        }
        assert(nodes@.take(i as int) =~= nodes@);
        out
    }

    /// The answer to `find_node` with nodes.
    pub fn build_find_node_response_with_nodes(tid: &[u8], id: &[u8; 20], nodes: &[DhtNode]) -> (r:
        Vec<u8>)
        ensures
            r@ == encoding(response_tree(tid@, nodes_values(id@, compact_nodes(nodes@)))),
    {
        let encoded: Vec<u8> = Self::encode_nodes(nodes);
        let mut values: DictWriter = DictWriter::new();
        values.put_bytes("id", id);
        values.put_bytes("nodes", encoded.as_slice());
        assert(values.entries() =~= nodes_values(id@, compact_nodes(nodes@)));
        finish_response(tid, values)
    }

    /// A list with each IPv4 peer as a byte string.
    fn encode_values(peers: &[SocketAddr]) -> (r: Vec<u8>)
        ensures
            r@ == encoding(Tree::List(value_items(peers@))),
    {
        let mut out: Vec<u8> = Vec::new();
        out.push(108);
        let mut i: usize = 0;
        proof {
            lemma_empty_encodings();
            assert(value_items(peers@.take(0)) =~= Seq::<Tree>::empty());
            assert(out@ =~= seq![108u8] + items_encoding(value_items(peers@.take(0))));
        }
        while i < peers.len()
            invariant
                i <= peers.len(),
                out@ == seq![108u8] + items_encoding(value_items(peers@.take(i as int))),
            decreases peers.len() - i,
        {
            let ghost before = out@;
            let ghost items = value_items(peers@.take(i as int));
            proof {
                assert(peers@.take(i + 1).drop_last() =~= peers@.take(i as int));
                assert(peers@.take(i + 1).last() == peers@[i as int]);
            }
            if let IpAddr::V4(ip) = peers[i].ip {
                let mut one: Vec<u8> = Vec::new();
                put_bytes(&mut one, ip.as_slice());
                put_be(&mut one, peers[i].port as u64, 2);
                assert(one@ =~= compact_peer(peers@[i as int]));
                put_byte_string(&mut out, one.as_slice());
                proof {
                    let t = Tree::Bytes(compact_peer(peers@[i as int]));
                    lemma_items_push(items, t);
                    assert(out@ =~= seq![108u8] + items_encoding(items.push(t)));
                }
            }
            i += 1;
        }
        assert(peers@.take(i as int) =~= peers@);
        out.push(101);
        assert(out@ =~= encoding(Tree::List(value_items(peers@))));
        out
    }

    /// The answer to `get_peers`: a token, and peers or nodes as far as there are any.
    pub fn build_get_peers_response_full(
        tid: &[u8],
        id: &[u8; 20],
        token: &[u8],
        peers: &[SocketAddr],
        nodes: &[DhtNode],
    ) -> (r: Vec<u8>)
        ensures
            r@ == encoding(response_tree(tid@, peers_values(id@, token@, peers@, nodes@))),
    {
        let mut values: DictWriter = DictWriter::new();
        values.put_bytes("id", id);
        if nodes.len() > 0 {
            let encoded: Vec<u8> = Self::encode_nodes(nodes);
            values.put_bytes("nodes", encoded.as_slice());
        }
        values.put_bytes("token", token);
        if peers.len() > 0 {
            let encoded: Vec<u8> = Self::encode_values(peers);
            values.put_encoded("values", encoded.as_slice(), Ghost(Tree::List(value_items(peers@))));
        }
        assert(values.entries() =~= peers_values(id@, token@, peers@, nodes@));
        finish_response(tid, values)
    }

    /// The answer to `sample_infohashes` (BEP 51).
    pub fn build_sample_infohashes_response(
        tid: &[u8],
        id: &[u8; 20],
        interval: i64,
        num: i64,
        samples: &[u8],
    ) -> (r: Vec<u8>)
        ensures
            r@ == encoding(
                response_tree(tid@, sample_values(id@, interval as int, num as int, samples@)),
            ),
    {
        let mut values: DictWriter = DictWriter::new();
        values.put_bytes("id", id);
        values.put_int("interval", interval);
        values.put_int("num", num);
        values.put_bytes("samples", samples);
        assert(values.entries() =~= sample_values(id@, interval as int, num as int, samples@));
        finish_response(tid, values)
    }

    /// An error message.
    pub fn build_error_response(tid: &[u8], code: i64, text: &str) -> (r: Vec<u8>)
        ensures
            r@ == encoding(error_tree(tid@, code as int, text.spec_bytes())),
    {
        let ghost items = seq![Tree::Int(code as int), Tree::Bytes(text.spec_bytes())];
        let mut list: Vec<u8> = Vec::new();
        list.push(108);
        put_int(&mut list, code);
        put_byte_string(&mut list, text.as_bytes());
        list.push(101);
        proof {
            let none = Seq::<Tree>::empty();
            lemma_empty_encodings();
            lemma_items_push(none, items[0]);
            lemma_items_push(none.push(items[0]), items[1]);
            assert(items =~= none.push(items[0]).push(items[1]));
            assert(list@ =~= encoding(Tree::List(items)));
        }
        let mut top: DictWriter = DictWriter::new();
        top.put_encoded("e", list.as_slice(), Ghost(Tree::List(items)));
        top.put_bytes("t", tid);
        top.put_bytes("y", "e".as_bytes());
        assert(top.entries() =~= error_tree(tid@, code as int, text.spec_bytes())->Dict_0);
        top.finish()
    }

    /// The method with a given name on the wire.
    fn method_named(name: &[u8]) -> (r: Option<QueryMethod>)
        ensures
            r matches Some(m) ==> name@ == m.wire_name(),
            r is None ==> forall|m: QueryMethod| name@ != #[trigger] m.wire_name(),
    {
        if same_bytes(name, "ping".as_bytes()) {
            Some(QueryMethod::Ping)
        } else if same_bytes(name, "find_node".as_bytes()) {
            Some(QueryMethod::FindNode)
        } else if same_bytes(name, "get_peers".as_bytes()) {
            Some(QueryMethod::GetPeers)
        } else if same_bytes(name, "announce_peer".as_bytes()) {
            Some(QueryMethod::AnnouncePeer)
        } else if same_bytes(name, "sample_infohashes".as_bytes()) {
            Some(QueryMethod::SampleInfohashes)
        } else {
            None
        }
    }

    /// Whether the text under `y` is `kind`.
    fn is_kind(top: &Bencode, kind: &str) -> (r: bool)
        ensures
            r == (bytes_entry(meaning(*top), "y".spec_bytes()) == Some(kind.spec_bytes())),
    {
        match top.get_bytes("y".as_bytes()) {
            Some(y) => same_bytes(y.as_slice(), kind.as_bytes()),
            None => false,
        }
    }

    /// The query that a bencoded value stands for. `None` if it is no query that is known.
    pub fn query_from_value(top: &Bencode) -> (r: Option<Query>)
        ensures
            r matches Some(q) ==> q.says(meaning(*top)),
            r is None ==> forall|m: QueryMethod| !#[trigger] is_query(meaning(*top), m),
    {
        if !Self::is_kind(top, "q") {
            return None;
        }
        let tid: Vec<u8> = match top.get_bytes("t".as_bytes()) {
            Some(t) => copy_bytes(t),
            None => {
                return None;
            },
        };
        let method: QueryMethod = match top.get_bytes("q".as_bytes()) {
            Some(name) => match Self::method_named(name.as_slice()) {
                Some(m) => m,
                None => {
                    return None;
                },
            },
            None => {
                return None;
            },
        };
        let subject: Option<Infohash> = match top.get("a".as_bytes()) {
            Some(args) => match method {
                QueryMethod::Ping => None,
                QueryMethod::FindNode => get_id(args, "target"),
                QueryMethod::SampleInfohashes => get_id(args, "target"),
                QueryMethod::GetPeers => get_id(args, "info_hash"),
                QueryMethod::AnnouncePeer => get_id(args, "info_hash"),
            },
            None => None,
        };
        Some(Query { tid, method, subject })
    }

    /// The query in a message: its transaction, its method and the infohash or target. `None` if
    /// the message is no query that is known.
    pub fn parse_query(data: &[u8]) -> (r: Option<(Vec<u8>, QueryMethod, Option<Infohash>)>)
        ensures
            r matches Some(q) ==> decoded(data@) is Some && (Query {
                tid: q.0,
                method: q.1,
                subject: q.2,
            }).says(decoded(data@)->0),
            r is None ==> decoded(data@) is None || forall|m: QueryMethod|
                !#[trigger] is_query(decoded(data@)->0, m),
            forall|t: Tree|
                data@ == #[trigger] encoding(t) && writable(t) ==> decoded(data@) == Some(
                    tree_meaning(t),
                ),
    {
        match decode(data) {
            Some(top) => match Self::query_from_value(&top) {
                Some(q) => Some((q.tid, q.method, q.subject)),
                None => None,
            },
            None => None,
        }
    }

    /// The announcement that a bencoded value stands for. `None` if it is none.
    pub fn announcement_from_value(top: &Bencode) -> (r: Option<(Vec<u8>, AnnouncePeerParams)>)
        ensures
            r is Some <==> is_announcement(meaning(*top)),
            r matches Some(a) ==> bytes_entry(meaning(*top), "t".spec_bytes()) == Some(a.0@)
                && a.1.says(entry(meaning(*top), "a".spec_bytes())->0),
    {
        proof {
            lemma_method_names();
        }
        let q: Query = match Self::query_from_value(top) {
            Some(q) => q,
            None => {
                return None;
            },
        };
        if q.method != QueryMethod::AnnouncePeer {
            assert(bytes_entry(meaning(*top), "q".spec_bytes()) == Some(q.method.wire_name()));
            return None;
        }
        let args: &Bencode = match top.get("a".as_bytes()) {
            Some(a) => a,
            None => {
                return None;
            },
        };
        let id: [u8; 20] = match get_id(args, "id") {
            Some(id) => id,
            None => {
                return None;
            },
        };
        let info_hash: [u8; 20] = match get_id(args, "info_hash") {
            Some(ih) => ih,
            None => {
                return None;
            },
        };
        let token: Vec<u8> = match args.get_bytes("token".as_bytes()) {
            Some(t) => copy_bytes(t),
            None => {
                return None;
            },
        };
        let port: u16 = match args.get_int("port".as_bytes()) {
            Some(p) => low_u16(p),
            None => 0,
        };
        let implied_port: bool = match args.get_int("implied_port".as_bytes()) {
            Some(n) => n != 0,
            None => false,
        };
        Some((q.tid, AnnouncePeerParams { id, info_hash, port, token, implied_port }))
    }

    /// The announcement in a message: its transaction and its arguments. `None` if the message is
    /// no announcement or lacks an argument.
    pub fn parse_announce_peer(data: &[u8]) -> (r: Option<(Vec<u8>, AnnouncePeerParams)>)
        ensures
            r is Some <==> (decoded(data@) matches Some(top) && is_announcement(top)),
            r matches Some(a) ==> bytes_entry(decoded(data@)->0, "t".spec_bytes()) == Some(a.0@)
                && a.1.says(entry(decoded(data@)->0, "a".spec_bytes())->0),
            forall|t: Tree|
                data@ == #[trigger] encoding(t) && writable(t) ==> decoded(data@) == Some(
                    tree_meaning(t),
                ),
    {
        match decode(data) {
            Some(top) => Self::announcement_from_value(&top),
            None => None,
        }
    }

    /// The peers among the values of a list.
    fn decode_values(values: &Vec<Bencode>) -> (r: Vec<SocketAddr>)
        ensures
            r@ == peers_in(list_meaning(values@)),
    {
        let mut out: Vec<SocketAddr> = Vec::new();
        let mut i: usize = 0;
        while i < values.len()
            invariant
                i <= values@.len(),
                out@ == peers_in(list_meaning(values@.take(i as int))),
            decreases values@.len() - i,
        {
            let ghost before = out@;
            proof {
                let next = list_meaning(values@.take(i + 1));
                assert(values@.take(i + 1).drop_last() =~= values@.take(i as int));
                assert(values@.take(i + 1).last() == values@[i as int]);
                assert(next.drop_last() =~= list_meaning(values@.take(i as int)));
                assert(next.last() == meaning(values@[i as int]));
            }
            if let Bencode::Bytes(b) = &values[i] {
                if b.len() == 6 {
                    let mut found: Vec<SocketAddr> = read_compact_peers(b.as_slice(), false);
                    let ghost f = found@;
                    out.append(&mut found);
                    assert(out@ =~= before + f);
                }
            }
            assert(out@ =~= peers_in(list_meaning(values@.take(i + 1))));
            i += 1;
        }
        assert(values@.take(i as int) =~= values@);
        out
    }

    /// The nodes of a compact list.
    fn decode_nodes(data: &[u8]) -> (r: Vec<DhtNode>)
        ensures
            are_nodes_of(r@, data@),
    {
        let count: usize = data.len() / 26;
        let mut out: Vec<DhtNode> = Vec::with_capacity(count);
        let mut i: usize = 0;
        while i < count
            invariant
                i <= count,
                count == data@.len() / 26,
                data@.len() == data.len(),
                out@.len() == i,
                forall|j: int|
                    0 <= j < i ==> (#[trigger] out@[j]).id@ == data@.subrange(26 * j, 26 * j + 20)
                        && out@[j].addr == peer_at_front(data@.subrange(26 * j + 20, 26 * j + 26)),
            decreases count - i,
        {
            let at: usize = 26 * i;
            let id: [u8; 20] = take_20(data, at);
            let ip: [u8; 4] = [data[at + 20], data[at + 21], data[at + 22], data[at + 23]];
            let port: u16 = data[at + 24] as u16 * 256 + data[at + 25] as u16;
            proof {
                let s = data@.subrange(26 * i + 20, 26 * i + 26);
                assert(ip =~= [s[0], s[1], s[2], s[3]]);
                let tail = s.subrange(4, 6);
                reveal_with_fuel(crate::bytes::be_value, 3);
                assert(tail.drop_last().drop_last() =~= Seq::<u8>::empty());
                assert(port == crate::bytes::be_value(tail));
            }
            out.push(DhtNode { id, addr: SocketAddr { ip: IpAddr::V4(ip), port } });
            i += 1;
        }
        out
    }

    /// The answer that a bencoded value stands for. `None` if it is no response of a node.
    pub fn response_from_value(top: &Bencode) -> (r: Option<(Vec<u8>, GetPeersResponse)>)
        ensures
            r is Some <==> is_response(meaning(*top)),
            r matches Some(a) ==> bytes_entry(meaning(*top), "t".spec_bytes()) == Some(a.0@)
                && a.1.says(entry(meaning(*top), "r".spec_bytes())->0),
    {
        if !Self::is_kind(top, "r") {
            return None;
        }
        let tid: Vec<u8> = match top.get_bytes("t".as_bytes()) {
            Some(t) => copy_bytes(t),
            None => {
                return None;
            },
        };
        let args: &Bencode = match top.get("r".as_bytes()) {
            Some(a) => a,
            None => {
                return None;
            },
        };
        let node_id: [u8; 20] = match get_id(args, "id") {
            Some(id) => id,
            None => {
                return None;
            },
        };
        let values: Vec<SocketAddr> = match args.get("values".as_bytes()) {
            Some(Bencode::List(v)) => Self::decode_values(v),
            _ => Vec::new(),
        };
        let nodes: Vec<DhtNode> = match args.get_bytes("nodes".as_bytes()) {
            Some(n) => Self::decode_nodes(n.as_slice()),
            None => Vec::new(),
        };
        let token: Option<Vec<u8>> = match args.get_bytes("token".as_bytes()) {
            Some(t) => Some(copy_bytes(t)),
            None => None,
        };
        assert(values@ =~= listed_values(meaning(*args)));
        assert(are_nodes_of(nodes@, listed_nodes(meaning(*args))));
        Some((tid, GetPeersResponse { node_id, values, nodes, token }))
    }

    /// The answer to a `get_peers` query in a message: its transaction and what it says. `None` if
    /// the message is no response of a node.
    pub fn parse_get_peers_response(data: &[u8]) -> (r: Option<(Vec<u8>, GetPeersResponse)>)
        ensures
            r is Some <==> (decoded(data@) matches Some(top) && is_response(top)),
            r matches Some(a) ==> bytes_entry(decoded(data@)->0, "t".spec_bytes()) == Some(a.0@)
                && a.1.says(entry(decoded(data@)->0, "r".spec_bytes())->0),
            forall|t: Tree|
                data@ == #[trigger] encoding(t) && writable(t) ==> decoded(data@) == Some(
                    tree_meaning(t),
                ),
    {
        match decode(data) {
            Some(top) => Self::response_from_value(&top),
            None => None,
        }
    }
}

proof fn lemma_top_keys()
    ensures
        "a".spec_bytes() != "q".spec_bytes(),
        "a".spec_bytes() != "t".spec_bytes(),
        "a".spec_bytes() != "y".spec_bytes(),
        "q".spec_bytes() != "t".spec_bytes(),
        "q".spec_bytes() != "y".spec_bytes(),
        "t".spec_bytes() != "y".spec_bytes(),
        "r".spec_bytes() != "t".spec_bytes(),
        "r".spec_bytes() != "y".spec_bytes(),
{
    reveal_strlit("a");
    reveal_strlit("q");
    reveal_strlit("r");
    reveal_strlit("t");
    reveal_strlit("y");
    assert(is_ascii("a") && is_ascii("q") && is_ascii("r") && is_ascii("t") && is_ascii("y"));
    assert("a".spec_bytes()[0] == 97u8);
    assert("q".spec_bytes()[0] == 113u8);
    assert("r".spec_bytes()[0] == 114u8);
    assert("t".spec_bytes()[0] == 116u8);
    assert("y".spec_bytes()[0] == 121u8);
}

proof fn lemma_argument_keys()
    ensures
        "id".spec_bytes() != "info_hash".spec_bytes(),
        "id".spec_bytes() != "port".spec_bytes(),
        "id".spec_bytes() != "token".spec_bytes(),
        "info_hash".spec_bytes() != "port".spec_bytes(),
        "info_hash".spec_bytes() != "token".spec_bytes(),
        "port".spec_bytes() != "token".spec_bytes(),
        "implied_port".spec_bytes() != "id".spec_bytes(),
        "implied_port".spec_bytes() != "info_hash".spec_bytes(),
        "implied_port".spec_bytes() != "port".spec_bytes(),
        "implied_port".spec_bytes() != "token".spec_bytes(),
{
    reveal_strlit("id");
    reveal_strlit("info_hash");
    reveal_strlit("port");
    reveal_strlit("token");
    reveal_strlit("implied_port");
    assert(is_ascii("id") && is_ascii("info_hash") && is_ascii("port") && is_ascii("token")
        && is_ascii("implied_port"));
    assert("id".spec_bytes().len() == 2);
    assert("info_hash".spec_bytes().len() == 9);
    assert("port".spec_bytes().len() == 4);
    assert("token".spec_bytes().len() == 5);
    assert("implied_port".spec_bytes().len() == 12);
}

/// What a query means that was written with [`query_tree`].
pub proof fn lemma_query_tree(tid: Seq<u8>, method: QueryMethod, args: Seq<(Seq<u8>, Tree)>)
    ensures
        is_query(tree_meaning(query_tree(tid, method, args)), method),
        bytes_entry(tree_meaning(query_tree(tid, method, args)), "t".spec_bytes()) == Some(tid),
        entry(tree_meaning(query_tree(tid, method, args)), "a".spec_bytes()) == Some(
            Meaning::Dict(entries_meaning(args)),
        ),
{
    lemma_top_keys();
    lemma_empty_encodings();
    let e0 = Seq::<(Seq<u8>, Tree)>::empty();
    let t1 = Tree::Dict(args);
    let t2 = Tree::Bytes(method.wire_name());
    let t3 = Tree::Bytes(tid);
    let t4 = Tree::Bytes("q".spec_bytes());
    let e1 = e0.push(("a".spec_bytes(), t1));
    let e2 = e1.push(("q".spec_bytes(), t2));
    let e3 = e2.push(("t".spec_bytes(), t3));
    let e4 = e3.push(("y".spec_bytes(), t4));
    assert(query_tree(tid, method, args)->Dict_0 =~= e4);
    lemma_entries_push(e0, "a".spec_bytes(), t1);
    lemma_entries_push(e1, "q".spec_bytes(), t2);
    lemma_entries_push(e2, "t".spec_bytes(), t3);
    lemma_entries_push(e3, "y".spec_bytes(), t4);
    assert(tree_meaning(query_tree(tid, method, args)) == Meaning::Dict(entries_meaning(e4)));
}

/// A ping that was written is read as a ping with its transaction and no subject.
pub proof fn law_ping_is_read_back(tid: Seq<u8>, id: Seq<u8>)
    ensures
        is_query(
            tree_meaning(query_tree(tid, QueryMethod::Ping, ping_args(id))),
            QueryMethod::Ping,
        ),
        bytes_entry(
            tree_meaning(query_tree(tid, QueryMethod::Ping, ping_args(id))),
            "t".spec_bytes(),
        ) == Some(tid),
        query_subject(
            tree_meaning(query_tree(tid, QueryMethod::Ping, ping_args(id))),
            QueryMethod::Ping,
        ) is None,
{
    lemma_query_tree(tid, QueryMethod::Ping, ping_args(id));
}

/// A `get_peers` query that was written is read with its transaction and infohash.
pub proof fn law_get_peers_is_read_back(tid: Seq<u8>, id: Seq<u8>, info_hash: Seq<u8>)
    requires
        info_hash.len() == 20,
    ensures
        is_query(
            tree_meaning(query_tree(tid, QueryMethod::GetPeers, get_peers_args(id, info_hash))),
            QueryMethod::GetPeers,
        ),
        bytes_entry(
            tree_meaning(query_tree(tid, QueryMethod::GetPeers, get_peers_args(id, info_hash))),
            "t".spec_bytes(),
        ) == Some(tid),
        query_subject(
            tree_meaning(query_tree(tid, QueryMethod::GetPeers, get_peers_args(id, info_hash))),
            QueryMethod::GetPeers,
        ) == Some(info_hash),
{
    let args = get_peers_args(id, info_hash);
    lemma_query_tree(tid, QueryMethod::GetPeers, args);
    lemma_argument_keys();
    lemma_empty_encodings();
    let e0 = Seq::<(Seq<u8>, Tree)>::empty();
    let e1 = e0.push(("id".spec_bytes(), Tree::Bytes(id)));
    assert(args =~= e1.push(("info_hash".spec_bytes(), Tree::Bytes(info_hash))));
    lemma_entries_push(e0, "id".spec_bytes(), Tree::Bytes(id));
    lemma_entries_push(e1, "info_hash".spec_bytes(), Tree::Bytes(info_hash));
}

/// An announcement that was written is read with its transaction and all its arguments, and asks
/// for the port that it names.
pub proof fn law_announcement_is_read_back(
    tid: Seq<u8>,
    id: Seq<u8>,
    info_hash: Seq<u8>,
    port: u16,
    token: Seq<u8>,
)
    requires
        id.len() == 20,
        info_hash.len() == 20,
    ensures
        ({
            let top = tree_meaning(
                query_tree(
                    tid,
                    QueryMethod::AnnouncePeer,
                    announce_args(id, info_hash, port as int, token),
                ),
            );
            let args = entry(top, "a".spec_bytes())->0;
            &&& is_announcement(top)
            &&& bytes_entry(top, "t".spec_bytes()) == Some(tid)
            &&& id_entry(args, "id".spec_bytes()) == Some(id)
            &&& id_entry(args, "info_hash".spec_bytes()) == Some(info_hash)
            &&& bytes_entry(args, "token".spec_bytes()) == Some(token)
            &&& port_argument(args) == port
            &&& !wants_implied_port(args)
        }),
{
    let args = announce_args(id, info_hash, port as int, token);
    lemma_query_tree(tid, QueryMethod::AnnouncePeer, args);
    lemma_argument_keys();
    lemma_empty_encodings();
    let e0 = Seq::<(Seq<u8>, Tree)>::empty();
    let e1 = e0.push(("id".spec_bytes(), Tree::Bytes(id)));
    let e2 = e1.push(("info_hash".spec_bytes(), Tree::Bytes(info_hash)));
    let e3 = e2.push(("port".spec_bytes(), Tree::Int(port as int)));
    let e4 = e3.push(("token".spec_bytes(), Tree::Bytes(token)));
    assert(args =~= e4);
    lemma_entries_push(e0, "id".spec_bytes(), Tree::Bytes(id));
    lemma_entries_push(e1, "info_hash".spec_bytes(), Tree::Bytes(info_hash));
    lemma_entries_push(e2, "port".spec_bytes(), Tree::Int(port as int));
    lemma_entries_push(e3, "token".spec_bytes(), Tree::Bytes(token));
    assert(port as int % 65536 == port);
}

/// The nodes that the compact form carries.
pub open spec fn carried_node() -> spec_fn(DhtNode) -> bool {
    |n: DhtNode| n.addr.ip is V4
}

/// Nodes that were written in compact form are read back, but for those that are not IPv4: 26 bytes
/// each.
pub proof fn law_compact_nodes_are_read(nodes: Seq<DhtNode>)
    ensures
        compact_nodes(nodes).len() == 26 * nodes.filter(carried_node()).len(),
        are_nodes_of(nodes.filter(carried_node()), compact_nodes(nodes)),
    decreases nodes.len(),
{
    reveal(Seq::filter);
    let p = carried_node();
    let data = compact_nodes(nodes);
    let kept = nodes.filter(p);
    if nodes.len() > 0 {
        let rest = nodes.drop_last();
        let n = nodes.last();
        law_compact_nodes_are_read(rest);
        let before = compact_nodes(rest);
        let count = rest.filter(p).len() as int;
        match n.addr.ip {
            IpAddr::V4(ip) => {
                crate::compact::lemma_front(ip, n.addr.port, Seq::empty());
                crate::bytes::lemma_be_bytes_len(n.addr.port as nat, 2);
                let six = compact_peer(n.addr);
                assert(six + Seq::<u8>::empty() =~= six);
                assert(data =~= before + n.id@ + six);
                assert(data.subrange(26 * count, 26 * count + 20) =~= n.id@);
                assert(data.subrange(26 * count + 20, 26 * count + 26) =~= six);
                assert forall|i: int| 0 <= i < kept.len() implies (#[trigger] kept[i]).id@
                    == data.subrange(26 * i, 26 * i + 20) && kept[i].addr == peer_at_front(
                    data.subrange(26 * i + 20, 26 * i + 26),
                ) by {
                    if i < count {
                        assert(kept[i] == rest.filter(p)[i]);
                        assert(data.subrange(26 * i, 26 * i + 20) =~= before.subrange(
                            26 * i,
                            26 * i + 20,
                        ));
                        assert(data.subrange(26 * i + 20, 26 * i + 26) =~= before.subrange(
                            26 * i + 20,
                            26 * i + 26,
                        ));
                    }
                }
            },
            IpAddr::V6(_) => {
                assert(data =~= before);
            },
        }
    }
}

/// Peers that were written as values are read back, but for those that are not IPv4 or have no port.
pub proof fn law_values_are_read(peers: Seq<SocketAddr>)
    ensures
        peers_in(items_meaning(value_items(peers))) == peers.filter(
            crate::compact::carried(false),
        ),
    decreases peers.len(),
{
    reveal(Seq::filter);
    let p = crate::compact::carried(false);
    if peers.len() > 0 {
        let rest = peers.drop_last();
        let x = peers.last();
        law_values_are_read(rest);
        let items = value_items(rest);
        if x.ip is V4 {
            let six = compact_peer(x);
            let t = Tree::Bytes(six);
            lemma_items_push(items, t);
            let one = items_meaning(items.push(t));
            assert(one.drop_last() =~= items_meaning(items));
            assert(one.last() == Meaning::Bytes(six));
            crate::compact::law_compact_round_trip(seq![x], false);
            reveal_with_fuel(crate::compact::compact_peers, 2);
            assert(seq![x].drop_first() =~= Seq::<SocketAddr>::empty());
            assert(crate::compact::compact_peers(seq![x]) =~= six);
            reveal_with_fuel(Seq::filter, 2);
            assert(seq![x].drop_last() =~= Seq::<SocketAddr>::empty());
            crate::bytes::lemma_be_bytes_len(x.port as nat, 2);
            assert(six.len() == 6);
            if p(x) {
                assert(seq![x].filter(p) =~= seq![x]);
            } else {
                assert(seq![x].filter(p) =~= Seq::<SocketAddr>::empty());
            }
            assert(peers_in(one) =~= peers.filter(p));
        }
    } else {
        lemma_empty_encodings();
        assert(value_items(peers) =~= Seq::<Tree>::empty());
        assert(peers.filter(p) =~= Seq::<SocketAddr>::empty());
    }
}

/// Whether a message is a response that its receiver reads so: with this transaction, from this node,
/// with these peers and nodes and this token.
pub open spec fn is_read_as(
    data: Seq<u8>,
    tid: Seq<u8>,
    id: Seq<u8>,
    values: Seq<SocketAddr>,
    nodes: Seq<DhtNode>,
    token: Option<Seq<u8>>,
) -> bool {
    exists|t: Tree|
        data == #[trigger] encoding(t) && ({
            let top = tree_meaning(t);
            let args = entry(top, "r".spec_bytes())->0;
            &&& is_response(top)
            &&& tid.len() <= 0xFFFF_FFFF && compact_nodes(nodes).len() <= 0xFFFF_FFFF ==> writable(t)
            &&& bytes_entry(top, "t".spec_bytes()) == Some(tid)
            &&& id_entry(args, "id".spec_bytes()) == Some(id)
            &&& listed_values(args) == values
            &&& are_nodes_of(nodes, listed_nodes(args))
            &&& bytes_entry(args, "token".spec_bytes()) == token
        })
}

/// What a response means that was written with [`response_tree`].
pub proof fn lemma_response_tree(tid: Seq<u8>, values: Seq<(Seq<u8>, Tree)>)
    ensures
        bytes_entry(tree_meaning(response_tree(tid, values)), "y".spec_bytes()) == Some(
            "r".spec_bytes(),
        ),
        bytes_entry(tree_meaning(response_tree(tid, values)), "t".spec_bytes()) == Some(tid),
        entry(tree_meaning(response_tree(tid, values)), "r".spec_bytes()) == Some(
            Meaning::Dict(entries_meaning(values)),
        ),
        tid.len() <= 0xFFFF_FFFF && crate::bencode::entries_writable(
            values,
            (crate::bencode::MAX_NESTING - 2) as nat,
        ) ==> writable(response_tree(tid, values)),
{
    lemma_top_keys();
    lemma_empty_encodings();
    let e0 = Seq::<(Seq<u8>, Tree)>::empty();
    let t1 = Tree::Dict(values);
    let t2 = Tree::Bytes(tid);
    let t3 = Tree::Bytes("r".spec_bytes());
    let e1 = e0.push(("r".spec_bytes(), t1));
    let e2 = e1.push(("t".spec_bytes(), t2));
    let e3 = e2.push(("y".spec_bytes(), t3));
    assert(response_tree(tid, values)->Dict_0 =~= e3);
    lemma_entries_push(e0, "r".spec_bytes(), t1);
    lemma_entries_push(e1, "t".spec_bytes(), t2);
    lemma_entries_push(e2, "y".spec_bytes(), t3);
    reveal_strlit("r");
    reveal_strlit("t");
    reveal_strlit("y");
    assert(is_ascii("r") && is_ascii("t") && is_ascii("y"));
    let n = (crate::bencode::MAX_NESTING - 1) as nat;
    if tid.len() <= 0xFFFF_FFFF && crate::bencode::entries_writable(values, (n - 1) as nat) {
        assert(crate::bencode::writable_within(t1, n));
        assert(crate::bencode::writable_within(t2, n));
        assert(crate::bencode::writable_within(t3, n));
        assert(crate::bencode::entries_writable(e0, n));
        assert(crate::bencode::entries_writable(e1, n));
        assert(crate::bencode::entries_writable(e2, n));
        assert(crate::bencode::entries_writable(e3, n));
        assert(crate::bencode::writable_within(Tree::Dict(e3), n + 1));
    }
}

proof fn lemma_value_keys()
    ensures
        "id".spec_bytes().len() == 2,
        "nodes".spec_bytes().len() == 5 && "nodes".spec_bytes()[0] == 110u8,
        "token".spec_bytes().len() == 5 && "token".spec_bytes()[0] == 116u8,
        "values".spec_bytes().len() == 6,
        "interval".spec_bytes().len() == 8,
        "num".spec_bytes().len() == 3,
        "samples".spec_bytes().len() == 7,
{
    reveal_strlit("id");
    reveal_strlit("nodes");
    reveal_strlit("token");
    reveal_strlit("values");
    reveal_strlit("interval");
    reveal_strlit("num");
    reveal_strlit("samples");
    assert(is_ascii("id") && is_ascii("nodes") && is_ascii("token") && is_ascii("values"));
    assert(is_ascii("interval") && is_ascii("num") && is_ascii("samples"));
}

/// The answers to a ping and to an announcement carry the transaction and the answering node.
pub proof fn law_plain_answer_is_read(tid: Seq<u8>, id: Seq<u8>)
    requires
        id.len() == 20,
    ensures
        is_read_as(
            encoding(response_tree(tid, ping_args(id))),
            tid,
            id,
            Seq::empty(),
            Seq::empty(),
            None,
        ),
{
    let values = ping_args(id);
    let t = response_tree(tid, values);
    lemma_response_tree(tid, values);
    lemma_value_keys();
    lemma_empty_encodings();
    let e0 = Seq::<(Seq<u8>, Tree)>::empty();
    assert(values =~= e0.push(("id".spec_bytes(), Tree::Bytes(id))));
    lemma_entries_push(e0, "id".spec_bytes(), Tree::Bytes(id));
}

/// The answer to `find_node` carries the transaction, the answering node, and every IPv4 node that was
/// put into it, in order.
pub proof fn law_nodes_answer_is_read(tid: Seq<u8>, id: Seq<u8>, nodes: Seq<DhtNode>)
    requires
        id.len() == 20,
    ensures
        is_read_as(
            encoding(response_tree(tid, nodes_values(id, compact_nodes(nodes)))),
            tid,
            id,
            Seq::empty(),
            nodes.filter(carried_node()),
            None,
        ),
{
    let data = compact_nodes(nodes);
    let values = nodes_values(id, data);
    let t = response_tree(tid, values);
    lemma_response_tree(tid, values);
    lemma_value_keys();
    lemma_empty_encodings();
    let e0 = Seq::<(Seq<u8>, Tree)>::empty();
    let e1 = e0.push(("id".spec_bytes(), Tree::Bytes(id)));
    assert(values =~= e1.push(("nodes".spec_bytes(), Tree::Bytes(data))));
    lemma_entries_push(e0, "id".spec_bytes(), Tree::Bytes(id));
    lemma_entries_push(e1, "nodes".spec_bytes(), Tree::Bytes(data));
    law_compact_nodes_are_read(nodes);
    law_compact_nodes_are_read(nodes.filter(carried_node()));
    lemma_filter_twice(nodes);
}

proof fn lemma_filter_twice(nodes: Seq<DhtNode>)
    ensures
        nodes.filter(carried_node()).filter(carried_node()) == nodes.filter(carried_node()),
        compact_nodes(nodes.filter(carried_node())).len() == compact_nodes(nodes).len(),
    decreases nodes.len(),
{
    reveal(Seq::filter);
    let p = carried_node();
    if nodes.len() > 0 {
        lemma_filter_twice(nodes.drop_last());
        let kept = nodes.drop_last().filter(p);
        let x = nodes.last();
        if p(x) {
            assert(kept.push(x).drop_last() =~= kept);
        }
    }
    law_compact_nodes_are_read(nodes);
    law_compact_nodes_are_read(nodes.filter(p));
}

proof fn lemma_value_items_writable(peers: Seq<SocketAddr>, n: nat)
    ensures
        crate::bencode::items_writable(value_items(peers), n),
    decreases peers.len(),
{
    lemma_empty_encodings();
    if peers.len() > 0 {
        lemma_value_items_writable(peers.drop_last(), n);
        let x = peers.last();
        if x.ip is V4 {
            crate::bytes::lemma_be_bytes_len(x.port as nat, 2);
            lemma_items_push(value_items(peers.drop_last()), Tree::Bytes(compact_peer(x)));
        }
    } else {
        assert(value_items(peers) =~= Seq::<Tree>::empty());
    }
}

/// The answer to `get_peers` carries the transaction, the answering node, the token, every IPv4 node,
/// and every IPv4 peer that has a port, in order.
pub proof fn law_peers_answer_is_read(
    tid: Seq<u8>,
    id: Seq<u8>,
    token: Seq<u8>,
    peers: Seq<SocketAddr>,
    nodes: Seq<DhtNode>,
)
    requires
        id.len() == 20,
        token.len() <= 0xFFFF_FFFF,
    ensures
        is_read_as(
            encoding(response_tree(tid, peers_values(id, token, peers, nodes))),
            tid,
            id,
            peers.filter(crate::compact::carried(false)),
            nodes.filter(carried_node()),
            Some(token),
        ),
{
    let data = compact_nodes(nodes);
    let values = peers_values(id, token, peers, nodes);
    let t = response_tree(tid, values);
    lemma_response_tree(tid, values);
    lemma_value_keys();
    lemma_empty_encodings();
    let e0 = Seq::<(Seq<u8>, Tree)>::empty();
    let e1 = e0.push(("id".spec_bytes(), Tree::Bytes(id)));
    assert(e1 =~= seq![("id".spec_bytes(), Tree::Bytes(id))]);
    lemma_entries_push(e0, "id".spec_bytes(), Tree::Bytes(id));
    let e2 = if nodes.len() > 0 {
        e1.push(("nodes".spec_bytes(), Tree::Bytes(data)))
    } else {
        e1
    };
    lemma_entries_push(e1, "nodes".spec_bytes(), Tree::Bytes(data));
    let e3 = e2.push(("token".spec_bytes(), Tree::Bytes(token)));
    lemma_entries_push(e2, "token".spec_bytes(), Tree::Bytes(token));
    let list = Tree::List(value_items(peers));
    let e4 = if peers.len() > 0 {
        e3.push(("values".spec_bytes(), list))
    } else {
        e3
    };
    lemma_entries_push(e3, "values".spec_bytes(), list);
    assert(values =~= e4);
    law_compact_nodes_are_read(nodes);
    lemma_filter_twice(nodes);
    law_values_are_read(peers);
    reveal(Seq::filter);
    let args = Meaning::Dict(entries_meaning(values));
    assert(tree_meaning(list) == Meaning::List(items_meaning(value_items(peers))));
    assert(listed_values(args) =~= peers.filter(crate::compact::carried(false)));
    if nodes.len() == 0 {
        assert(nodes.filter(carried_node()) =~= Seq::<DhtNode>::empty());
        assert(listed_nodes(args) =~= Seq::<u8>::empty());
    }
    let n = (crate::bencode::MAX_NESTING - 2) as nat;
    lemma_value_items_writable(peers, (n - 1) as nat);
    assert(crate::bencode::writable_within(list, n));
    assert(crate::bencode::writable_within(Tree::Bytes(id), n));
    assert(crate::bencode::writable_within(Tree::Bytes(token), n));
}

/// The answer to `sample_infohashes` carries the transaction, the answering node, the seconds until the
/// next sample, the number of infohashes and the sample.
pub proof fn law_sample_answer_is_read(
    tid: Seq<u8>,
    id: Seq<u8>,
    interval: int,
    num: int,
    samples: Seq<u8>,
)
    requires
        id.len() == 20,
    ensures
        ({
            let top = tree_meaning(response_tree(tid, sample_values(id, interval, num, samples)));
            let args = entry(top, "r".spec_bytes())->0;
            &&& is_response(top)
            &&& bytes_entry(top, "t".spec_bytes()) == Some(tid)
            &&& id_entry(args, "id".spec_bytes()) == Some(id)
            &&& int_entry(args, "interval".spec_bytes()) == Some(interval)
            &&& int_entry(args, "num".spec_bytes()) == Some(num)
            &&& bytes_entry(args, "samples".spec_bytes()) == Some(samples)
        }),
{
    let values = sample_values(id, interval, num, samples);
    lemma_response_tree(tid, values);
    lemma_value_keys();
    lemma_empty_encodings();
    let e0 = Seq::<(Seq<u8>, Tree)>::empty();
    let e1 = e0.push(("id".spec_bytes(), Tree::Bytes(id)));
    let e2 = e1.push(("interval".spec_bytes(), Tree::Int(interval)));
    let e3 = e2.push(("num".spec_bytes(), Tree::Int(num)));
    let e4 = e3.push(("samples".spec_bytes(), Tree::Bytes(samples)));
    assert(values =~= e4);
    lemma_entries_push(e0, "id".spec_bytes(), Tree::Bytes(id));
    lemma_entries_push(e1, "interval".spec_bytes(), Tree::Int(interval));
    lemma_entries_push(e2, "num".spec_bytes(), Tree::Int(num));
    lemma_entries_push(e3, "samples".spec_bytes(), Tree::Bytes(samples));
}

/// The methods have the names of BEP 5 and BEP 51 on the wire, and a query is about what stands under
/// `target` where it looks for nodes or a sample and under `info_hash` where it is about a torrent.
pub proof fn law_method_names()
    ensures
        QueryMethod::Ping.wire_name() == "ping".spec_bytes(),
        QueryMethod::FindNode.wire_name() == "find_node".spec_bytes(),
        QueryMethod::GetPeers.wire_name() == "get_peers".spec_bytes(),
        QueryMethod::AnnouncePeer.wire_name() == "announce_peer".spec_bytes(),
        QueryMethod::SampleInfohashes.wire_name() == "sample_infohashes".spec_bytes(),
        forall|top: Meaning| #[trigger]
            query_subject(top, QueryMethod::FindNode) == (match entry(top, "a".spec_bytes()) {
                Some(args) => match bytes_entry(args, "target".spec_bytes()) {
                    Some(s) if s.len() == 20 => Some(s),
                    _ => None,
                },
                None => None,
            }),
        forall|top: Meaning| #[trigger]
            query_subject(top, QueryMethod::GetPeers) == (match entry(top, "a".spec_bytes()) {
                Some(args) => match bytes_entry(args, "info_hash".spec_bytes()) {
                    Some(s) if s.len() == 20 => Some(s),
                    _ => None,
                },
                None => None,
            }),
{
}

/// What an announcement says of its port: it counts modulo 65536 and is zero where it is missing, and
/// the port that the query came from is meant where `implied_port` is there and not zero.
pub proof fn law_announced_port(args: Meaning, n: int)
    ensures
        int_entry(args, "port".spec_bytes()) is None ==> port_argument(args) == 0,
        int_entry(args, "port".spec_bytes()) == Some(n) && 0 <= n < 65536 ==> port_argument(args) == n,
        int_entry(args, "port".spec_bytes()) == Some(n) ==> port_argument(args) == n % 65536,
        int_entry(args, "implied_port".spec_bytes()) is None ==> !wants_implied_port(args),
        int_entry(args, "implied_port".spec_bytes()) == Some(n) ==> (wants_implied_port(args) <==> n
            != 0),
{
}

/// The queries say that they are queries, what they ask for, and who asks.
pub proof fn law_queries_tell_who_asks(tid: Seq<u8>, id: Seq<u8>, info_hash: Seq<u8>)
    ensures
        ({
            let top = tree_meaning(query_tree(tid, QueryMethod::Ping, ping_args(id)));
            &&& bytes_entry(top, "y".spec_bytes()) == Some("q".spec_bytes())
            &&& bytes_entry(top, "q".spec_bytes()) == Some("ping".spec_bytes())
            &&& bytes_entry(entry(top, "a".spec_bytes())->0, "id".spec_bytes()) == Some(id)
        }),
        ({
            let top = tree_meaning(
                query_tree(tid, QueryMethod::GetPeers, get_peers_args(id, info_hash)),
            );
            &&& bytes_entry(top, "y".spec_bytes()) == Some("q".spec_bytes())
            &&& bytes_entry(top, "q".spec_bytes()) == Some("get_peers".spec_bytes())
            &&& bytes_entry(entry(top, "a".spec_bytes())->0, "id".spec_bytes()) == Some(id)
            &&& bytes_entry(entry(top, "a".spec_bytes())->0, "info_hash".spec_bytes()) == Some(
                info_hash,
            )
        }),
{
    let args = get_peers_args(id, info_hash);
    lemma_query_tree(tid, QueryMethod::GetPeers, args);
    lemma_query_tree(tid, QueryMethod::Ping, ping_args(id));
    lemma_argument_keys();
    lemma_empty_encodings();
    let e0 = Seq::<(Seq<u8>, Tree)>::empty();
    let e1 = e0.push(("id".spec_bytes(), Tree::Bytes(id)));
    assert(ping_args(id) =~= e1);
    assert(args =~= e1.push(("info_hash".spec_bytes(), Tree::Bytes(info_hash))));
    lemma_entries_push(e0, "id".spec_bytes(), Tree::Bytes(id));
    lemma_entries_push(e1, "info_hash".spec_bytes(), Tree::Bytes(info_hash));
}

/// A response says that it is one and names the node that answers.
pub proof fn law_what_makes_a_response(top: Meaning)
    ensures
        is_response(top) ==> bytes_entry(top, "y".spec_bytes()) == Some("r".spec_bytes()) && entry(
            top,
            "r".spec_bytes(),
        ) is Some,
        bytes_entry(top, "y".spec_bytes()) == Some("r".spec_bytes()) && bytes_entry(
            top,
            "t".spec_bytes(),
        ) is Some && entry(top, "r".spec_bytes()) is Some && id_entry(
            entry(top, "r".spec_bytes())->0,
            "id".spec_bytes(),
        ) is Some ==> is_response(top),
{
}

/// An error says that it is one, which query it is about, and carries its number and its text, in this
/// order.
pub proof fn law_error_is_read(tid: Seq<u8>, code: int, text: Seq<u8>)
    ensures
        ({
            let top = tree_meaning(error_tree(tid, code, text));
            &&& bytes_entry(top, "y".spec_bytes()) == Some("e".spec_bytes())
            &&& bytes_entry(top, "t".spec_bytes()) == Some(tid)
            &&& entry(top, "e".spec_bytes()) == Some(
                Meaning::List(seq![Meaning::Int(code), Meaning::Bytes(text)]),
            )
        }),
{
    lemma_top_keys();
    lemma_empty_encodings();
    reveal_strlit("e");
    reveal_strlit("t");
    reveal_strlit("y");
    assert(is_ascii("e") && is_ascii("t") && is_ascii("y"));
    let i0 = Seq::<Tree>::empty();
    let i1 = i0.push(Tree::Int(code));
    let items = i1.push(Tree::Bytes(text));
    assert(seq![Tree::Int(code), Tree::Bytes(text)] =~= items);
    lemma_items_push(i0, Tree::Int(code));
    lemma_items_push(i1, Tree::Bytes(text));
    assert(items_meaning(items) =~= seq![Meaning::Int(code), Meaning::Bytes(text)]);
    let t1 = Tree::List(items);
    let t2 = Tree::Bytes(tid);
    let t3 = Tree::Bytes("e".spec_bytes());
    let e0 = Seq::<(Seq<u8>, Tree)>::empty();
    let e1 = e0.push(("e".spec_bytes(), t1));
    let e2 = e1.push(("t".spec_bytes(), t2));
    let e3 = e2.push(("y".spec_bytes(), t3));
    assert(error_tree(tid, code, text)->Dict_0 =~= e3);
    lemma_entries_push(e0, "e".spec_bytes(), t1);
    lemma_entries_push(e1, "t".spec_bytes(), t2);
    lemma_entries_push(e2, "y".spec_bytes(), t3);
    assert("e".spec_bytes()[0] == 101 && "t".spec_bytes()[0] == 116 && "y".spec_bytes()[0] == 121);
    assert(tree_meaning(t1) == Meaning::List(items_meaning(items)));
    assert(tree_meaning(error_tree(tid, code, text)) == Meaning::Dict(entries_meaning(e3)));
}

/// A node takes 26 bytes: its identifier, its four address bytes, and the high and the low byte of its
/// port.
pub proof fn law_layout_of_a_node(id: [u8; 20], ip: [u8; 4], port: u16)
    ensures
        ({
            let c = compact_node(
                DhtNode { id, addr: SocketAddr { ip: IpAddr::V4(ip), port } },
            );
            &&& c.len() == 26
            &&& c.take(20) == id@
            &&& c[20] == ip[0] && c[21] == ip[1] && c[22] == ip[2] && c[23] == ip[3]
            &&& c[24] == port / 256
            &&& c[25] == port % 256
        }),
{
    crate::compact::law_compact_layout(ip, port);
    let addr = SocketAddr { ip: IpAddr::V4(ip), port };
    let c = compact_node(DhtNode { id, addr });
    assert(c.take(20) =~= id@);
}

/// An answer lists its nodes in one byte string under "nodes" and its peers in a list of byte strings
/// under "values"; one without them lists none.
pub proof fn law_where_an_answer_lists(args: Meaning, s: Seq<u8>, values: Seq<Meaning>)
    ensures
        bytes_entry(args, "nodes".spec_bytes()) == Some(s) ==> listed_nodes(args) == s,
        bytes_entry(args, "nodes".spec_bytes()) is None ==> listed_nodes(args).len() == 0,
        entry(args, "values".spec_bytes()) is None ==> listed_values(args).len() == 0,
        entry(args, "values".spec_bytes()) == Some(Meaning::List(values)) ==> listed_values(args)
            == peers_in(values),
        s.len() == 6 ==> peers_in(values.push(Meaning::Bytes(s))) == peers_in(values) + peers_of(
            s,
            false,
        ),
        s.len() != 6 ==> peers_in(values.push(Meaning::Bytes(s))) == peers_in(values),
        peers_in(Seq::empty()).len() == 0,
{
    assert(values.push(Meaning::Bytes(s)).drop_last() =~= values);
}

} // verus!
