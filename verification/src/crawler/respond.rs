//! What a DHT node answers to a query.

use crate::bencode::{bytes_entry, decoded, encoding, entry, int_entry, tree_meaning, Meaning, Tree};
use crate::bytes::put_bytes;
use crate::discoverers::dht::distance::{are_closest, closest_of, distance, law_closest_values, Identified};
use crate::discoverers::dht::message::{
    carried_node, compact_nodes, id_entry, is_announcement, is_query, is_read_as, is_response,
    law_nodes_answer_is_read, law_peers_answer_is_read, law_plain_answer_is_read,
    law_sample_answer_is_read, nodes_values, peers_values, ping_args, port_argument, query_subject,
    response_tree, sample_values, wants_implied_port, AnnouncePeerParams, DhtMessage, DhtNode, QueryMethod,
};
use crate::discoverers::dht::routing_table::{
    all_entries, compact_of, is_well, CompactAddr, RoutingEntry, RoutingTable,
};
use crate::discoverers::dht::store::{addrs_of, fresh, list_of, DhtStore, PeerEntry};
use crate::discoverers::dht::token::{Token, TokenManager};
use crate::net::SocketAddr;
use crate::seqs::at_most;
use crate::types::Infohash;
use vstd::prelude::*;
use vstd::string::*;

verus! {

/// How many nodes an answer holds.
pub const ANSWER_NODES: usize = 8;

/// How many peers an answer holds.
pub const ANSWER_PEERS: usize = 50;

/// How many infohashes a sample holds.
pub const ANSWER_SAMPLES: usize = 64;

/// Seconds after which a node may ask for another sample.
pub const SAMPLE_INTERVAL: i64 = 30;

/// The identifier with the given bytes.
pub open spec fn id_of(s: Seq<u8>) -> [u8; 20] {
    choose|a: [u8; 20]| a@ == s
}

/// An identifier is the one with its bytes.
pub proof fn lemma_id_of(a: [u8; 20])
    ensures
        id_of(a@) == a,
{
    let b = id_of(a@);
    assert(b@ == a@);
    assert(b =~= a);
}

/// The identifier that a query without a target is taken to ask for.
pub open spec fn zero_id() -> [u8; 20] {
    id_of(Seq::new(20, |i: int| 0u8))
}

/// Nodes of a routing table as messages describe them.
pub open spec fn nodes_of(entries: Seq<RoutingEntry>) -> Seq<DhtNode> {
    entries.map_values(|e: RoutingEntry| DhtNode { id: e.id, addr: e.addr.socket() })
}

/// The nodes that an answer about `target` holds.
pub open spec fn closest_nodes(table: RoutingTable, target: [u8; 20]) -> Seq<DhtNode> {
    nodes_of(
        closest_of(all_entries(table.buckets()).filter(is_well()), target, ANSWER_NODES as int),
    )
}

/// The peers that an answer about an infohash holds.
pub open spec fn answer_peers(store: DhtStore, infohash: Seq<u8>, now: u32) -> Seq<SocketAddr> {
    let found = addrs_of(list_of(store.peers(), infohash).filter(fresh(now)));
    found.take(at_most(ANSWER_PEERS as int, found.len() as int)).map_values(
        |a: CompactAddr| a.socket(),
    )
}

/// The answer to a ping and to an announcement.
pub open spec fn id_reply(tid: Seq<u8>, id: [u8; 20]) -> Seq<u8> {
    encoding(response_tree(tid, ping_args(id@)))
}

/// The answer to `find_node`.
pub open spec fn find_node_reply(
    tid: Seq<u8>,
    id: [u8; 20],
    table: RoutingTable,
    target: [u8; 20],
) -> Seq<u8> {
    encoding(response_tree(tid, nodes_values(id@, compact_nodes(closest_nodes(table, target)))))
}

/// The answer to `get_peers`: peers if any are known, else nodes.
pub open spec fn get_peers_reply(
    tid: Seq<u8>,
    id: [u8; 20],
    token: Seq<u8>,
    table: RoutingTable,
    store: DhtStore,
    infohash: Infohash,
    now: u32,
) -> Seq<u8> {
    let peers = answer_peers(store, infohash@, now);
    let nodes = if peers.len() > 0 {
        Seq::<DhtNode>::empty()
    } else {
        closest_nodes(table, infohash)
    };
    encoding(response_tree(tid, peers_values(id@, token, peers, nodes)))
}

/// Infohashes one after the other.
pub open spec fn joined(samples: Seq<Infohash>) -> Seq<u8>
    decreases samples.len(),
{
    if samples.len() == 0 {
        Seq::empty()
    } else {
        joined(samples.drop_last()) + samples.last()@
    }
}

/// The answer to `sample_infohashes`.
pub open spec fn sample_reply(
    tid: Seq<u8>,
    id: [u8; 20],
    samples: Seq<Infohash>,
    total: usize,
) -> Seq<u8> {
    encoding(
        response_tree(
            tid,
            sample_values(id@, SAMPLE_INTERVAL as int, (total as i64) as int, joined(samples)),
        ),
    )
}

/// Where the peer of an announcement listens.
pub open spec fn announced_addr(args: Meaning, from: SocketAddr) -> SocketAddr {
    SocketAddr {
        ip: from.ip,
        port: if wants_implied_port(args) {
            from.port
        } else {
            port_argument(args)
        },
    }
}

/// The arguments of a query.
pub open spec fn args_of(top: Meaning) -> Meaning {
    entry(top, "a".spec_bytes())->0
}

/// Whether a message is an announcement that comes with a token for its sender.
pub open spec fn announces(tokens: TokenManager, data: Seq<u8>, from: SocketAddr) -> bool {
    &&& decoded(data) matches Some(top)
    &&& is_announcement(top)
    &&& tokens.accepts(compact_of(from), bytes_entry(args_of(top), "token".spec_bytes())->0)
}

/// The infohash that a message is about.
pub open spec fn infohash_in(data: Seq<u8>) -> Option<Seq<u8>> {
    match decoded(data) {
        Some(top) => if is_query(top, QueryMethod::GetPeers) {
            query_subject(top, QueryMethod::GetPeers)
        } else if is_announcement(top) {
            id_entry(args_of(top), "info_hash".spec_bytes())
        } else {
            None
        },
        None => None,
    }
}

/// The nodes that an answer about `target` holds.
pub fn nodes_near(table: &RoutingTable, target: &[u8; 20]) -> (r: Vec<DhtNode>)
    ensures
        r@ == closest_nodes(*table, *target),
{
    let closest: Vec<RoutingEntry> = table.find_closest(target, ANSWER_NODES);
    let mut out: Vec<DhtNode> = Vec::with_capacity(closest.len());
    let mut i: usize = 0;
    while i < closest.len()
        invariant
            i <= closest@.len(),
            out@ == nodes_of(closest@.take(i as int)),
        decreases closest@.len() - i,
    {
        out.push(DhtNode { id: closest[i].id, addr: closest[i].addr.to_socket() });
        i += 1;
        assert(out@ =~= nodes_of(closest@.take(i as int)));
    }
    assert(closest@.take(i as int) =~= closest@);
    out
}

/// The answer to `find_node`.
pub fn answer_find_node(tid: &[u8], id: &[u8; 20], table: &RoutingTable, target: &[u8; 20]) -> (r:
    Vec<u8>)
    ensures
        r@ == find_node_reply(tid@, *id, *table, *target),
{
    let nodes: Vec<DhtNode> = nodes_near(table, target);
    if nodes.len() == 0 {
        assert(compact_nodes(nodes@) =~= Seq::<u8>::empty());
        DhtMessage::build_find_node_response(tid, id)
    } else {
        DhtMessage::build_find_node_response_with_nodes(tid, id, nodes.as_slice())
    }
}

/// The answer to `get_peers` at time `now` of the store.
pub fn answer_get_peers(
    tid: &[u8],
    id: &[u8; 20],
    token: &Token,
    table: &RoutingTable,
    store: &DhtStore,
    infohash: &Infohash,
    now: u32,
) -> (r: Vec<u8>)
    ensures
        r@ == get_peers_reply(tid@, *id, token@, *table, *store, *infohash, now),
{
    let stored: Vec<CompactAddr> = store.get_peers_at(infohash, ANSWER_PEERS, now);
    let mut peers: Vec<SocketAddr> = Vec::with_capacity(stored.len());
    let mut i: usize = 0;
    while i < stored.len()
        invariant
            i <= stored@.len(),
            peers@ == stored@.take(i as int).map_values(|a: CompactAddr| a.socket()),
        decreases stored@.len() - i,
    {
        peers.push(stored[i].to_socket());
        i += 1;
        assert(peers@ =~= stored@.take(i as int).map_values(|a: CompactAddr| a.socket()));
    }
    proof {
        assert(stored@.take(i as int) =~= stored@);
        assert(peers@ =~= answer_peers(*store, infohash@, now));
    }
    let nodes: Vec<DhtNode> = if peers.len() > 0 {
        Vec::new()
    } else {
        nodes_near(table, infohash)
    };
    proof {
        if peers@.len() > 0 {
            assert(nodes@ =~= Seq::<DhtNode>::empty());
        }
    }
    DhtMessage::build_get_peers_response_full(tid, id, token, peers.as_slice(), nodes.as_slice())
}

/// The answer to `sample_infohashes` with the given sample out of `total` infohashes.
pub fn answer_sample(tid: &[u8], id: &[u8; 20], samples: &Vec<Infohash>, total: usize) -> (r: Vec<
    u8,
>)
    ensures
        r@ == sample_reply(tid@, *id, samples@, total),
{
    let mut bytes: Vec<u8> = Vec::new();
    let mut i: usize = 0;
    while i < samples.len()
        invariant
            i <= samples@.len(),
            bytes@ == joined(samples@.take(i as int)),
        decreases samples@.len() - i,
    {
        put_bytes(&mut bytes, samples[i].as_slice());
        i += 1;
        proof {
            assert(samples@.take(i as int).drop_last() =~= samples@.take(i - 1));
        }
    }
    assert(samples@.take(i as int) =~= samples@);
    #[verifier::truncate]
    let num: i64 = total as i64;
    DhtMessage::build_sample_infohashes_response(tid, id, SAMPLE_INTERVAL, num, bytes.as_slice())
}

/// Where the peer of an announcement listens.
pub fn listening_addr(params: &AnnouncePeerParams, from: &SocketAddr) -> (r: SocketAddr)
    ensures
        r.ip == from.ip,
        r.port == if params.implied_port {
            from.port
        } else {
            params.port
        },
{
    let port: u16 = if params.implied_port {
        from.port
    } else {
        params.port
    };
    SocketAddr::new(from.ip, port)
}

/// The healthy nodes of a table: those that failed fewer than three times in a row.
pub open spec fn healthy_entries(table: RoutingTable) -> Seq<RoutingEntry> {
    all_entries(table.buckets()).filter(|e: RoutingEntry| e.failures < 3)
}

/// Nodes as their receivers read them: the IPv4 ones, each with its identifier and its address.
pub open spec fn as_read(picked: Seq<RoutingEntry>) -> Seq<DhtNode> {
    picked.map_values(|e: RoutingEntry| DhtNode { id: e.id, addr: e.addr.socket() }).filter(
        |n: DhtNode| n.addr.ip is V4,
    )
}

proof fn lemma_closest_nodes(table: RoutingTable, target: [u8; 20])
    ensures
        exists|picked: Seq<RoutingEntry>| #[trigger]
            are_closest(healthy_entries(table), target, 8, picked) && as_read(picked)
                == closest_nodes(table, target).filter(carried_node()),
{
    let all = all_entries(table.buckets());
    let p = |e: RoutingEntry| e.failures < 3;
    assert(p =~= is_well());
    let well = healthy_entries(table);
    assert(well == all.filter(is_well()));
    law_closest_values(well, target, 8);
    let picked = closest_of(well, target, 8);
    assert(nodes_of(picked) =~= picked.map_values(
        |e: RoutingEntry| DhtNode { id: e.id, addr: e.addr.socket() },
    ));
    let q = |n: DhtNode| n.addr.ip is V4;
    assert(q =~= carried_node());
    assert(are_closest(well, target, 8, picked));
}

/// The answer to `find_node` is read as one with the transaction of the query and the answering node's
/// identifier, and with the eight healthy nodes of the table closest to the target, or all of them where
/// there are fewer; those that are not IPv4 are left out.
pub proof fn law_find_node_is_answered_with_the_closest(
    tid: Seq<u8>,
    id: [u8; 20],
    table: RoutingTable,
    target: [u8; 20],
)
    ensures
        exists|picked: Seq<RoutingEntry>| #[trigger]
            are_closest(healthy_entries(table), target, 8, picked) && is_read_as(
                find_node_reply(tid, id, table, target),
                tid,
                id@,
                Seq::empty(),
                as_read(picked),
                None,
            ),
{
    lemma_closest_nodes(table, target);
    let picked = choose|picked: Seq<RoutingEntry>| #[trigger]
        are_closest(healthy_entries(table), target, 8, picked) && as_read(picked) == closest_nodes(
            table,
            target,
        ).filter(carried_node());
    law_nodes_answer_is_read(tid, id@, closest_nodes(table, target));
    assert(are_closest(healthy_entries(table), target, 8, picked));
}

/// Where all healthy nodes of a table are IPv4, an answer to `find_node` is read with as many nodes as
/// there are healthy ones, eight at most; each is a healthy node of the table, and no healthy node that is
/// left out is nearer to the target than one that is given.
pub proof fn law_find_node_gives_healthy_nodes(
    tid: Seq<u8>,
    id: [u8; 20],
    table: RoutingTable,
    target: [u8; 20],
)
    requires
        forall|i: int|
            0 <= i < healthy_entries(table).len() ==> (#[trigger] healthy_entries(table)[i]).addr is V4,
    ensures
        exists|nodes: Seq<DhtNode>|
            #![trigger nodes.len()]
            is_read_as(
                find_node_reply(tid, id, table, target),
                tid,
                id@,
                Seq::empty(),
                nodes,
                None,
            ) && ({
                let well = healthy_entries(table);
                &&& nodes.len() == if well.len() < 8 {
                    well.len()
                } else {
                    8
                }
                &&& forall|i: int|
                    0 <= i < nodes.len() ==> exists|k: int|
                        0 <= k < well.len() && (#[trigger] well[k]).id == (#[trigger] nodes[i]).id
                            && well[k].addr.socket() == nodes[i].addr
                &&& forall|k: int, i: int|
                    #![trigger well[k], nodes[i]]
                    0 <= k < well.len() && 0 <= i < nodes.len() && (forall|j: int|
                        0 <= j < nodes.len() ==> (#[trigger] nodes[j]).id != well[k].id) ==> distance(
                        nodes[i].id,
                        target,
                    ) <= distance(well[k].id, target)
            }),
{
    law_find_node_is_answered_with_the_closest(tid, id, table, target);
    let well = healthy_entries(table);
    let picked = choose|picked: Seq<RoutingEntry>| #[trigger]
        are_closest(healthy_entries(table), target, 8, picked) && is_read_as(
            find_node_reply(tid, id, table, target),
            tid,
            id@,
            Seq::empty(),
            as_read(picked),
            None,
        );
    let plain = picked.map_values(|e: RoutingEntry| DhtNode { id: e.id, addr: e.addr.socket() });
    let v4 = |n: DhtNode| n.addr.ip is V4;
    assert forall|i: int| 0 <= i < plain.len() implies v4(#[trigger] plain[i]) by {
        assert(well.contains(picked[i]));
        let k = choose|k: int| 0 <= k < well.len() && well[k] == picked[i];
        assert(well[k].addr is V4);
    }
    crate::seqs::lemma_filter_all(plain, v4);
    let nodes = as_read(picked);
    assert(nodes == plain);
    assert forall|i: int| 0 <= i < nodes.len() implies exists|k: int|
        0 <= k < well.len() && (#[trigger] well[k]).id == (#[trigger] nodes[i]).id
            && well[k].addr.socket() == nodes[i].addr by {
        assert(well.contains(picked[i]));
        let k = choose|k: int| 0 <= k < well.len() && well[k] == picked[i];
        assert(well[k].id == nodes[i].id);
    }
    assert forall|k: int, i: int|
        #![trigger well[k], nodes[i]]
        0 <= k < well.len() && 0 <= i < nodes.len() && (forall|j: int|
            0 <= j < nodes.len() ==> (#[trigger] nodes[j]).id != well[k].id) implies distance(
        nodes[i].id,
        target,
    ) <= distance(well[k].id, target) by {
        if picked.contains(well[k]) {
            let j = choose|j: int| 0 <= j < picked.len() && picked[j] == well[k];
            assert(nodes[j].id == well[k].id);
        }
        assert(nodes[i].id == picked[i].ident());
    }
    assert(nodes.len() == picked.len());
}

/// The announcements of an infohash that are no more than half an hour old at time `now`.
pub open spec fn live_announcements(store: DhtStore, infohash: Seq<u8>, now: u32) -> Seq<PeerEntry> {
    (if store.peers().contains_key(infohash) {
        store.peers()[infohash]
    } else {
        Seq::empty()
    }).filter(|e: PeerEntry| now <= e.last_seen + 1800)
}

/// The answer to `get_peers` is read as one with the transaction of the query, the answering node's
/// identifier and the token. If the infohash has announcements that have not expired, it holds the first
/// fifty of those peers, as far as they are IPv4 and have a port, and no nodes; else the eight healthy
/// nodes of the table closest to the infohash.
pub proof fn law_get_peers_is_answered(
    tid: Seq<u8>,
    id: [u8; 20],
    token: Seq<u8>,
    table: RoutingTable,
    store: DhtStore,
    infohash: Infohash,
    now: u32,
)
    requires
        token.len() <= 0xFFFF_FFFF,
    ensures
        ({
            let reply = get_peers_reply(tid, id, token, table, store, infohash, now);
            let live = live_announcements(store, infohash@, now);
            let count = if live.len() < 50 {
                live.len() as int
            } else {
                50
            };
            if live.len() > 0 {
                is_read_as(
                    reply,
                    tid,
                    id@,
                    live.take(count).map_values(|e: PeerEntry| e.addr.socket()).filter(
                        |a: SocketAddr| a.ip is V4 && a.port != 0,
                    ),
                    Seq::empty(),
                    Some(token),
                )
            } else {
                exists|picked: Seq<RoutingEntry>| #[trigger]
                    are_closest(healthy_entries(table), infohash, 8, picked) && is_read_as(
                        reply,
                        tid,
                        id@,
                        Seq::empty(),
                        as_read(picked),
                        Some(token),
                    )
            }
        }),
{
    let list = list_of(store.peers(), infohash@);
    let p = |e: PeerEntry| now <= e.last_seen + 1800;
    assert(p =~= fresh(now)) by {
        assert forall|e: PeerEntry| #[trigger] p(e) == fresh(now)(e) by {}
    }
    let live = live_announcements(store, infohash@, now);
    assert(live == list.filter(fresh(now)));
    let peers = answer_peers(store, infohash@, now);
    let count = if live.len() < 50 {
        live.len() as int
    } else {
        50
    };
    assert(peers =~= live.take(count).map_values(|e: PeerEntry| e.addr.socket()));
    let q = |a: SocketAddr| a.ip is V4 && a.port != 0;
    assert(q =~= crate::compact::carried(false));
    let nodes = if peers.len() > 0 {
        Seq::<DhtNode>::empty()
    } else {
        closest_nodes(table, infohash)
    };
    law_peers_answer_is_read(tid, id@, token, peers, nodes);
    reveal(Seq::filter);
    if live.len() > 0 {
        assert(nodes.filter(carried_node()) =~= Seq::<DhtNode>::empty());
    } else {
        assert(peers.filter(q) =~= Seq::<SocketAddr>::empty());
        lemma_closest_nodes(table, infohash);
        let picked = choose|picked: Seq<RoutingEntry>| #[trigger]
            are_closest(healthy_entries(table), infohash, 8, picked) && as_read(picked)
                == closest_nodes(table, infohash).filter(carried_node());
        assert(are_closest(healthy_entries(table), infohash, 8, picked));
    }
}

/// The answers to a ping and to an announcement are read as ones with the transaction of the query and
/// the answering node's identifier.
pub proof fn law_ping_is_answered(tid: Seq<u8>, id: [u8; 20])
    ensures
        is_read_as(id_reply(tid, id), tid, id@, Seq::empty(), Seq::empty(), None),
{
    law_plain_answer_is_read(tid, id@);
}

/// The answer to `sample_infohashes` says that there may be another sample in 30 seconds and how many
/// infohashes there are, and holds the sample, 20 bytes each.
pub proof fn law_sample_is_answered(
    tid: Seq<u8>,
    id: [u8; 20],
    samples: Seq<Infohash>,
    total: usize,
)
    requires
        total <= i64::MAX,
    ensures
        exists|t: Tree|
            sample_reply(tid, id, samples, total) == #[trigger] encoding(t) && ({
                let top = tree_meaning(t);
                let args = entry(top, "r".spec_bytes())->0;
                &&& is_response(top)
                &&& bytes_entry(top, "t".spec_bytes()) == Some(tid)
                &&& id_entry(args, "id".spec_bytes()) == Some(id@)
                &&& int_entry(args, "interval".spec_bytes()) == Some(30int)
                &&& int_entry(args, "num".spec_bytes()) == Some(total as int)
                &&& bytes_entry(args, "samples".spec_bytes()) matches Some(s) && s.len() == 20
                    * samples.len() && forall|i: int|
                    0 <= i < samples.len() ==> s.subrange(20 * i, 20 * i + 20) == (
                    #[trigger] samples[i])@
            }),
{
    let num = (total as i64) as int;
    assert(num == total);
    let values = sample_values(id@, SAMPLE_INTERVAL as int, num, joined(samples));
    law_sample_answer_is_read(tid, id@, SAMPLE_INTERVAL as int, num, joined(samples));
    lemma_joined(samples);
    assert(sample_reply(tid, id, samples, total) == encoding(response_tree(tid, values)));
}

proof fn lemma_joined(samples: Seq<Infohash>)
    ensures
        joined(samples).len() == 20 * samples.len(),
        forall|i: int|
            0 <= i < samples.len() ==> joined(samples).subrange(20 * i, 20 * i + 20) == (
            #[trigger] samples[i])@,
    decreases samples.len(),
{
    if samples.len() > 0 {
        let rest = samples.drop_last();
        lemma_joined(rest);
        let all = joined(samples);
        assert forall|i: int| 0 <= i < samples.len() implies all.subrange(20 * i, 20 * i + 20) == (
        #[trigger] samples[i])@ by {
            if i < rest.len() {
                assert(rest[i] == samples[i]);
                assert(all.subrange(20 * i, 20 * i + 20) =~= joined(rest).subrange(
                    20 * i,
                    20 * i + 20,
                ));
            } else {
                assert(all.subrange(20 * i, 20 * i + 20) =~= samples[i]@);
            }
        }
    }
}

/// A peer that is announced is reached at the address that the announcement came from, and at the port
/// that it names unless it asks for the one that it came from.
pub proof fn law_announced_address(args: Meaning, from: SocketAddr, n: int)
    ensures
        announced_addr(args, from).ip == from.ip,
        int_entry(args, "implied_port".spec_bytes()) == Some(n) && n != 0 ==> announced_addr(
            args,
            from,
        ) == from,
        int_entry(args, "implied_port".spec_bytes()) is None && int_entry(args, "port".spec_bytes())
            == Some(n) && 0 <= n < 65536 ==> announced_addr(args, from).port == n,
        int_entry(args, "implied_port".spec_bytes()) == Some(0int) && int_entry(
            args,
            "port".spec_bytes(),
        ) == Some(n) && 0 <= n < 65536 ==> announced_addr(args, from).port == n,
{
}

} // verus!
