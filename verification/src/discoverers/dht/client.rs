//! Finding peers by iterative lookups in the DHT.
//!
//! The network is asked by the caller: [`DhtDiscoverer::next_round`] says which nodes to query,
//! [`DhtDiscoverer::absorb`] takes what each of them answered, and [`DhtDiscoverer::finish`] gives
//! the peers when no round is left.

use crate::addrset::{with_addrs, AddrSet};
use crate::bencode::{decoded, encoding, entry};
use crate::bytes::be_value;
use crate::clock::{
    instant_now, nanos_between, nanos_of, nanos_since, unix_nanos, NANOS_PER_SEC,
};
use crate::config::hosts;
use crate::discoverers::dht::distance::{
    are_closest, closest, closest_of, distance, distance_less, law_closest, law_closest_values, xor_bytes,
    xor_distance, Identified,
};
use crate::discoverers::dht::message::{
    announce_args, are_nodes_of, get_peers_args, is_response, listed_nodes, listed_values, query_tree,
    DhtMessage, DhtNode, GetPeersResponse, QueryMethod,
};
use crate::discoverers::dht::DHT_BOOTSTRAP_NODES;
use crate::net::SocketAddr;
use crate::random::{random_bytes, random_id};
use crate::seqs::{at_most, lemma_filter_step};
use crate::sort::views;
use crate::traits::{no_requests, AnnounceEvent, DiscovererStats, DiscovererType, PeerDiscoverer};
use crate::types::{fresh_models, fresh_peers, Infohash, PeerInfo, PeerSource};
use crate::vecmap::{lemma_map_of, VecMap};
use std::time::Instant;
use vstd::prelude::*;
use vstd::string::*;

verus! {

/// How many nodes the table holds before new ones are turned away.
pub const TABLE_LIMIT: usize = 1000;

/// Of how many nearest nodes a round picks those to query.
pub const ROUND_CANDIDATES: usize = 20;

/// How many nodes an announcement goes to.
pub const ANNOUNCE_NODES: usize = 5;

/// After how many rounds without a nearer node a lookup ends.
pub const MAX_STALLED_ROUNDS: usize = 2;

/// The DHT node's settings.
pub struct DhtConfig {
    pub bootstrap_nodes: Vec<(String, u16)>,
    pub listen_port: u16,
    pub node_id: [u8; 20],
    /// Where the routing table is kept.
    pub persistence_path: Option<String>,
    pub refresh_interval_secs: u64,
    pub node_ttl_secs: u64,
    pub request_timeout_secs: u64,
    /// How many nodes are queried at once.
    pub max_concurrent_requests: usize,
    pub max_query_rounds: usize,
    pub enabled: bool,
}

/// The nodes that a DHT node starts from.
pub open spec fn bootstrap_hosts() -> Seq<(Seq<char>, u16)> {
    DHT_BOOTSTRAP_NODES@.map_values(|h: (&'static str, u16)| (h.0@, h.1))
}

/// The nodes that a DHT node starts from.
fn bootstrap_list() -> (r: Vec<(String, u16)>)
    ensures
        hosts(r@) == bootstrap_hosts(),
{
    let all: [(&'static str, u16); 8] = DHT_BOOTSTRAP_NODES;
    let mut out: Vec<(String, u16)> = Vec::new();
    let mut i: usize = 0;
    while i < 8
        invariant
            i <= 8,
            all == DHT_BOOTSTRAP_NODES,
            hosts(out@) == bootstrap_hosts().take(i as int),
        decreases 8 - i,
    {
        let ghost before = hosts(out@);
        out.push((all[i].0.to_string(), all[i].1));
        i += 1;
        proof {
            assert(hosts(out@) =~= before.push(bootstrap_hosts()[i - 1]));
            assert(hosts(out@) =~= bootstrap_hosts().take(i as int));
        }
    }
    assert(bootstrap_hosts().take(8) =~= bootstrap_hosts());
    out
}

/// Whether all settings but the port are the usual ones.
pub open spec fn has_usual_settings(c: DhtConfig) -> bool {
    &&& hosts(c.bootstrap_nodes@) == bootstrap_hosts()
    &&& c.persistence_path is None
    &&& c.refresh_interval_secs == 300
    &&& c.node_ttl_secs == 3600
    &&& c.request_timeout_secs == 8
    &&& c.max_concurrent_requests == 3
    &&& c.max_query_rounds == 5
    &&& c.enabled
}

impl Default for DhtConfig {
    /// The usual settings, with a random identifier.
    fn default() -> (r: DhtConfig)
        ensures
            r.listen_port == 6881,
            has_usual_settings(r),
    {
        DhtConfig {
            bootstrap_nodes: bootstrap_list(),
            listen_port: 6881,
            node_id: random_id(),
            persistence_path: None,
            refresh_interval_secs: 300,
            node_ttl_secs: 3600,
            request_timeout_secs: 8,
            max_concurrent_requests: 3,
            max_query_rounds: 5,
            enabled: true,
        }
    }
}

/// A node of the table.
#[derive(Debug, Clone, Copy)]
pub struct RoutingNode {
    pub id: [u8; 20],
    pub addr: SocketAddr,
    pub last_active: Instant,
    pub consecutive_failures: u32,
    pub is_bootstrap: bool,
}

impl RoutingNode {
    /// Whether the node has failed fewer than three times in a row.
    pub open spec fn healthy(&self) -> bool {
        self.consecutive_failures < 3
    }

    /// Whether the node has failed fewer than three times in a row.
    pub fn is_healthy(&self) -> (r: bool)
        ensures
            r == self.healthy(),
    {
        self.consecutive_failures < 3
    }
}

impl Identified for RoutingNode {
    open spec fn ident(&self) -> [u8; 20] {
        self.id
    }

    fn get_ident(&self) -> (r: [u8; 20]) {
        self.id
    }
}

/// What a node answered to a query for peers.
pub struct QueryResult {
    pub peers: Vec<SocketAddr>,
    pub nodes: Vec<DhtNode>,
    pub responder_id: [u8; 20],
}

impl QueryResult {
    /// Whether this is what the message `data` answers: what a response says, and nothing for any
    /// other message.
    pub open spec fn answers(&self, data: Seq<u8>) -> bool {
        if decoded(data) is Some && is_response(decoded(data)->0) {
            exists|token: Option<Vec<u8>>| #[trigger]
                (GetPeersResponse {
                    node_id: self.responder_id,
                    values: self.peers,
                    nodes: self.nodes,
                    token,
                }).says(entry(decoded(data)->0, "r".spec_bytes())->0)
        } else {
            &&& self.peers@.len() == 0
            &&& self.nodes@.len() == 0
            &&& self.responder_id@ == Seq::new(20, |i: int| 0u8)
        }
    }
}

/// The healthy nodes.
pub open spec fn node_well() -> spec_fn(RoutingNode) -> bool {
    |n: RoutingNode| n.healthy()
}

/// The nodes that are not in `queried`.
pub open spec fn not_in(queried: Seq<SocketAddr>) -> spec_fn(RoutingNode) -> bool {
    |n: RoutingNode| !queried.contains(n.addr)
}

/// The addresses of nodes.
pub open spec fn addrs_of_nodes(nodes: Seq<RoutingNode>) -> Seq<SocketAddr> {
    nodes.map_values(|n: RoutingNode| n.addr)
}

/// The nodes of a table in the order in which they are kept.
pub open spec fn known(table: VecMap<SocketAddr, RoutingNode>) -> Seq<RoutingNode> {
    table.seq().map_values(|e: (SocketAddr, RoutingNode)| e.1)
}

/// The table after a node was told of at time `now`: a new one is added if there is room.
pub open spec fn table_with_node(
    m: Map<SocketAddr, RoutingNode>,
    node: DhtNode,
    now: Instant,
) -> Map<SocketAddr, RoutingNode> {
    if m.len() < TABLE_LIMIT && !m.contains_key(node.addr) {
        m.insert(
            node.addr,
            RoutingNode {
                id: node.id,
                addr: node.addr,
                last_active: now,
                consecutive_failures: 0,
                is_bootstrap: false,
            },
        )
    } else {
        m
    }
}

/// The table after several nodes were told of; those that were queried are passed over.
pub open spec fn table_with_nodes(
    m: Map<SocketAddr, RoutingNode>,
    nodes: Seq<DhtNode>,
    queried: Seq<SocketAddr>,
    now: Instant,
) -> Map<SocketAddr, RoutingNode>
    decreases nodes.len(),
{
    if nodes.len() == 0 {
        m
    } else {
        let rest = table_with_nodes(m, nodes.drop_last(), queried, now);
        if queried.contains(nodes.last().addr) {
            rest
        } else {
            table_with_node(rest, nodes.last(), now)
        }
    }
}

/// The table after a node answered.
pub open spec fn table_answered(
    m: Map<SocketAddr, RoutingNode>,
    addr: SocketAddr,
    id: [u8; 20],
    now: Instant,
) -> Map<SocketAddr, RoutingNode> {
    if m.contains_key(addr) {
        m.insert(
            addr,
            RoutingNode { id, last_active: now, consecutive_failures: 0, ..m[addr] },
        )
    } else {
        m
    }
}

/// The table after a node did not answer.
pub open spec fn table_unanswered(m: Map<SocketAddr, RoutingNode>, addr: SocketAddr) -> Map<
    SocketAddr,
    RoutingNode,
> {
    if m.contains_key(addr) {
        m.insert(
            addr,
            RoutingNode {
                consecutive_failures: (m[addr].consecutive_failures + 1) as u32,
                ..m[addr]
            },
        )
    } else {
        m
    }
}

/// The table after a queried node answered or, with `None`, did not.
pub open spec fn table_absorbed(
    m: Map<SocketAddr, RoutingNode>,
    queried: Seq<SocketAddr>,
    addr: SocketAddr,
    answer: Option<QueryResult>,
    now: Instant,
) -> Map<SocketAddr, RoutingNode> {
    match answer {
        Some(qr) => table_answered(
            table_with_nodes(m, qr.nodes@, queried, now),
            addr,
            qr.responder_id,
            now,
        ),
        None => table_unanswered(m, addr),
    }
}

/// The table after bootstrap nodes were resolved. Their identifiers are not known; `ids` stand for
/// them.
pub open spec fn table_bootstrapped(
    m: Map<SocketAddr, RoutingNode>,
    resolved: Seq<SocketAddr>,
    ids: Seq<[u8; 20]>,
    now: Instant,
) -> Map<SocketAddr, RoutingNode>
    decreases resolved.len(),
{
    if resolved.len() == 0 {
        m
    } else {
        table_bootstrapped(m, resolved.drop_last(), ids, now).insert(
            resolved.last(),
            RoutingNode {
                id: ids[resolved.len() - 1],
                addr: resolved.last(),
                last_active: now,
                consecutive_failures: 0,
                is_bootstrap: true,
            },
        )
    }
}

/// A lookup under way.
pub struct Lookup {
    pub infohash: Infohash,
    /// How many peers are wanted.
    pub limit: usize,
    /// The peers found.
    pub peers: AddrSet,
    /// The nodes queried.
    pub queried: AddrSet,
    /// The distance of the nearest node queried.
    pub closest_distance: [u8; 20],
    pub rounds_without_improvement: usize,
    /// The rounds begun.
    pub rounds: usize,
}

impl Lookup {
    /// A lookup that has not begun.
    pub fn new(infohash: Infohash, limit: usize) -> (r: Lookup)
        ensures
            r.infohash == infohash,
            r.limit == limit,
            r.peers@ == Seq::<SocketAddr>::empty(),
            r.queried@ == Seq::<SocketAddr>::empty(),
            r.closest_distance@ == Seq::new(20, |i: int| 255u8),
            r.rounds_without_improvement == 0,
            r.rounds == 0,
    {
        let closest_distance: [u8; 20] = [0xFFu8; 20];
        assert(closest_distance@ =~= Seq::new(20, |i: int| 255u8));
        Lookup {
            infohash,
            limit,
            peers: AddrSet::new(),
            queried: AddrSet::new(),
            closest_distance,
            rounds_without_improvement: 0,
            rounds: 0,
        }
    }

    /// Whether a round that starts with a node at distance `d` gets nearer.
    pub open spec fn gets_nearer(&self, d: nat) -> bool {
        d < be_value(self.closest_distance@)
    }
}

/// The DHT as a source of peers.
pub struct DhtDiscoverer {
    pub config: DhtConfig,
    pub routing_table: VecMap<SocketAddr, RoutingNode>,
    pub request_stats: DiscovererStats,
    pub initialized: bool,
    /// When the nodes that had expired were last dropped.
    pub refreshed: Option<Instant>,
}

/// Whether a node stays when the table is refreshed at time `now`: it was active in the last
/// `ttl_secs` seconds, or the search can start from it.
pub open spec fn is_current(n: RoutingNode, ttl_secs: u64, now: Instant) -> bool {
    n.is_bootstrap || nanos_since(n.last_active, now) <= ttl_secs * NANOS_PER_SEC
}

/// A table without the nodes that have expired at time `now`.
pub open spec fn table_refreshed(
    table: Map<SocketAddr, RoutingNode>,
    ttl_secs: u64,
    now: Instant,
) -> Map<SocketAddr, RoutingNode> {
    Map::new(
        |a: SocketAddr| table.contains_key(a) && is_current(table[a], ttl_secs, now),
        |a: SocketAddr| table[a],
    )
}

/// Whether the table is to be refreshed at time `now`.
pub open spec fn refresh_due(d: DhtDiscoverer, now: Instant) -> bool {
    match d.refreshed {
        Some(t) => nanos_since(t, now) >= d.config.refresh_interval_secs * NANOS_PER_SEC,
        None => true,
    }
}

/// The nodes that a round of a lookup picks: of the nearest healthy nodes the first that were not
/// queried yet.
pub open spec fn round_nodes(d: DhtDiscoverer, lookup: Lookup) -> Seq<RoutingNode> {
    let open = closest_of(
        known(d.routing_table).filter(node_well()),
        lookup.infohash,
        ROUND_CANDIDATES as int,
    ).filter(not_in(lookup.queried@));
    open.take(at_most(d.config.max_concurrent_requests as int, open.len() as int))
}

/// Whether the next round of a lookup gets nearer to the infohash.
pub open spec fn round_improves(d: DhtDiscoverer, lookup: Lookup) -> bool {
    lookup.gets_nearer(distance(round_nodes(d, lookup)[0].id, lookup.infohash))
}

/// Whether a lookup has come to its end: the rounds are used up, there are enough peers, no node is
/// left to query, or the rounds no longer get nearer.
pub open spec fn is_over(d: DhtDiscoverer, lookup: Lookup) -> bool {
    ||| lookup.rounds >= d.config.max_query_rounds
    ||| lookup.rounds > 0 && lookup.peers@.len() >= lookup.limit
    ||| round_nodes(d, lookup).len() == 0
    ||| !round_improves(d, lookup) && lookup.rounds_without_improvement + 1 >= MAX_STALLED_ROUNDS
}

impl DhtDiscoverer {
    /// A discoverer that knows no node yet.
    pub fn new(config: DhtConfig) -> (r: DhtDiscoverer)
        ensures
            r.config == config,
            r.routing_table@ == Map::<SocketAddr, RoutingNode>::empty(),
            r.request_stats == no_requests(),
            !r.initialized,
            r.refreshed is None,
    {
        DhtDiscoverer {
            config,
            routing_table: VecMap::new(),
            request_stats: DiscovererStats::default(),
            initialized: false,
            refreshed: None,
        }
    }

    /// A discoverer with the usual settings.
    pub fn with_default_config() -> (r: DhtDiscoverer)
        ensures
            has_usual_settings(r.config),
            r.config.listen_port == 6881,
            r.request_stats == no_requests(),
            r.routing_table@ == Map::<SocketAddr, RoutingNode>::empty(),
            !r.initialized,
            r.refreshed is None,
    {
        Self::new(DhtConfig::default())
    }

    /// Takes the addresses that the bootstrap nodes resolved to, with the given identifiers. A
    /// discoverer that has done so before stays as it is.
    pub fn init_at(&mut self, resolved: &Vec<SocketAddr>, ids: &Vec<[u8; 20]>, now: Instant)
        requires
            ids@.len() == resolved@.len(),
        ensures
            final(self).config == old(self).config,
            final(self).request_stats == old(self).request_stats,
            final(self).initialized,
            final(self).refreshed == old(self).refreshed,
            final(self).routing_table@ == if old(self).initialized {
                old(self).routing_table@
            } else {
                table_bootstrapped(old(self).routing_table@, resolved@, ids@, now)
            },
    {
        if self.initialized {
            return;
        }
        let ghost before = self.routing_table@;
        let mut i: usize = 0;
        assert(table_bootstrapped(before, resolved@.take(0), ids@, now) == before);
        while i < resolved.len()
            invariant
                i <= resolved@.len() == ids@.len(),
                self.config == old(self).config,
                self.request_stats == old(self).request_stats,
                self.refreshed == old(self).refreshed,
                self.routing_table@ == table_bootstrapped(
                    before,
                    resolved@.take(i as int),
                    ids@,
                    now,
                ),
            decreases resolved@.len() - i,
        {
            self.routing_table.insert(
                resolved[i],
                RoutingNode {
                    id: ids[i],
                    addr: resolved[i],
                    last_active: now,
                    consecutive_failures: 0,
                    is_bootstrap: true,
                },
            );
            i += 1;
            assert(resolved@.take(i as int).drop_last() =~= resolved@.take(i - 1));
        }
        assert(resolved@.take(i as int) =~= resolved@);
        self.initialized = true;
    }

    /// Takes the addresses that the bootstrap nodes resolved to. Their identifiers are not known
    /// yet, so random ones stand for them.
    pub fn init(&mut self, resolved: &Vec<SocketAddr>)
        ensures
            final(self).config == old(self).config,
            final(self).request_stats == old(self).request_stats,
            final(self).initialized,
            final(self).refreshed == old(self).refreshed,
            old(self).initialized ==> final(self).routing_table@ == old(self).routing_table@,
            !old(self).initialized ==> exists|ids: Seq<[u8; 20]>, now: Instant|
                ids.len() == resolved@.len() && final(self).routing_table@
                    == #[trigger] table_bootstrapped(
                    old(self).routing_table@,
                    resolved@,
                    ids,
                    now,
                ),
    {
        let mut ids: Vec<[u8; 20]> = Vec::with_capacity(resolved.len());
        while ids.len() < resolved.len()
            invariant
                ids@.len() <= resolved@.len(),
            decreases resolved@.len() - ids@.len(),
        {
            ids.push(random_id());
        }
        self.init_at(resolved, &ids, instant_now());
    }

    /// Drops the nodes that have expired, if that is due at time `now`. Returns whether it was.
    pub fn refresh_at(&mut self, now: Instant) -> (r: bool)
        ensures
            final(self).config == old(self).config,
            final(self).request_stats == old(self).request_stats,
            final(self).initialized == old(self).initialized,
            r == refresh_due(*old(self), now),
            final(self).refreshed == if r {
                Some(now)
            } else {
                old(self).refreshed
            },
            final(self).routing_table@ == if r {
                table_refreshed(old(self).routing_table@, old(self).config.node_ttl_secs, now)
            } else {
                old(self).routing_table@
            },
    {
        let due: bool = match &self.refreshed {
            Some(t) => nanos_between(t, &now) as u128 >= nanos_of(
                self.config.refresh_interval_secs,
            ),
            None => true,
        };
        if !due {
            return false;
        }
        let ttl_secs: u64 = self.config.node_ttl_secs;
        let ttl: u128 = nanos_of(ttl_secs);
        let n: usize = self.routing_table.len();
        let ghost entries = self.routing_table.seq();
        let ghost before = self.routing_table@;
        let mut keep: Vec<bool> = Vec::with_capacity(n);
        let mut i: usize = 0;
        while i < n
            invariant
                i <= n == entries.len(),
                entries == self.routing_table.seq(),
                ttl == ttl_secs * NANOS_PER_SEC,
                keep@.len() == i,
                forall|j: int|
                    0 <= j < i ==> #[trigger] keep@[j] == is_current(entries[j].1, ttl_secs, now),
            decreases n - i,
        {
            let node: &RoutingNode = self.routing_table.value_at(i);
            keep.push(node.is_bootstrap || nanos_between(&node.last_active, &now) as u128 <= ttl);
            i += 1;
        }
        proof {
            lemma_map_of(entries);
        }
        self.routing_table.retain(&keep);
        self.refreshed = Some(now);
        proof {
            let after = self.routing_table@;
            let wanted = table_refreshed(before, ttl_secs, now);
            assert forall|a: SocketAddr| after.contains_key(a) <==> wanted.contains_key(a) by {
                if before.contains_key(a) {
                    let j = choose|j: int|
                        0 <= j < entries.len() && (#[trigger] entries[j]).0@ == a;
                    assert(after.contains_key(entries[j].0@) == keep@[j]);
                }
            }
            assert(after =~= wanted);
        }
        true
    }

    /// Drops the nodes that have expired, if that is due. Returns whether it was.
    pub fn refresh(&mut self) -> (r: bool)
        ensures
            final(self).config == old(self).config,
            final(self).request_stats == old(self).request_stats,
            final(self).initialized == old(self).initialized,
            exists|now: Instant|
                r == #[trigger] refresh_due(*old(self), now) && final(self).refreshed == (if r {
                    Some(now)
                } else {
                    old(self).refreshed
                }) && final(self).routing_table@ == (if r {
                    table_refreshed(old(self).routing_table@, old(self).config.node_ttl_secs, now)
                } else {
                    old(self).routing_table@
                }),
    {
        self.refresh_at(instant_now())
    }

    /// The healthy nodes, in the order in which they are kept.
    pub fn healthy_nodes(&self) -> (r: Vec<RoutingNode>)
        ensures
            r@ == known(self.routing_table).filter(node_well()),
    {
        let n: usize = self.routing_table.len();
        let ghost nodes = known(self.routing_table);
        let mut out: Vec<RoutingNode> = Vec::new();
        let mut i: usize = 0;
        assert(nodes.take(0).filter(node_well()) =~= Seq::empty()) by {
            reveal(Seq::filter);
        }
        while i < n
            invariant
                i <= n == nodes.len(),
                nodes == known(self.routing_table),
                out@ == nodes.take(i as int).filter(node_well()),
            decreases n - i,
        {
            proof {
                lemma_filter_step(nodes, i as int, node_well());
            }
            let node: &RoutingNode = self.routing_table.value_at(i);
            if node.is_healthy() {
                out.push(*node);
            }
            i += 1;
        }
        assert(nodes.take(i as int) =~= nodes);
        out
    }

    /// The `count` healthy nodes closest to `target`, nearest first.
    pub fn nearest_nodes(&self, target: &[u8; 20], count: usize) -> (r: Vec<RoutingNode>)
        ensures
            r@ == closest_of(
                known(self.routing_table).filter(node_well()),
                *target,
                count as int,
            ),
    {
        let healthy: Vec<RoutingNode> = self.healthy_nodes();
        closest(&healthy, target, count)
    }

    /// Adds a node at time `now` unless it is known or the table is full.
    pub fn add_node_at(&mut self, node: &DhtNode, now: Instant)
        ensures
            final(self).config == old(self).config,
            final(self).request_stats == old(self).request_stats,
            final(self).initialized == old(self).initialized,
            final(self).refreshed == old(self).refreshed,
            final(self).routing_table@ == table_with_node(old(self).routing_table@, *node, now),
    {
        if self.routing_table.len() < TABLE_LIMIT && !self.routing_table.contains_key(&node.addr) {
            self.routing_table.insert(
                node.addr,
                RoutingNode {
                    id: node.id,
                    addr: node.addr,
                    last_active: now,
                    consecutive_failures: 0,
                    is_bootstrap: false,
                },
            );
        }
    }

    /// Adds a node unless it is known or the table is full.
    pub fn add_node(&mut self, node: &DhtNode)
        ensures
            final(self).config == old(self).config,
            final(self).request_stats == old(self).request_stats,
            final(self).initialized == old(self).initialized,
            final(self).refreshed == old(self).refreshed,
            exists|now: Instant|
                final(self).routing_table@ == #[trigger] table_with_node(
                    old(self).routing_table@,
                    *node,
                    now,
                ),
    {
        self.add_node_at(node, instant_now());
    }

    /// Notes that a node did not answer.
    pub fn mark_node_failure(&mut self, addr: &SocketAddr)
        requires
            old(self).routing_table@.contains_key(*addr)
                ==> old(self).routing_table@[*addr].consecutive_failures < u32::MAX,
        ensures
            final(self).config == old(self).config,
            final(self).request_stats == old(self).request_stats,
            final(self).initialized == old(self).initialized,
            final(self).refreshed == old(self).refreshed,
            final(self).routing_table@ == table_unanswered(old(self).routing_table@, *addr),
    {
        let found: Option<RoutingNode> = match self.routing_table.get(addr) {
            Some(n) => Some(*n),
            None => None,
        };
        if let Some(n) = found {
            self.routing_table.insert(
                *addr,
                RoutingNode {
                    id: n.id,
                    addr: n.addr,
                    last_active: n.last_active,
                    consecutive_failures: n.consecutive_failures + 1,
                    is_bootstrap: n.is_bootstrap,
                },
            );
        }
    }

    /// Notes that a node answered at time `now` and gave its identifier.
    pub fn mark_node_success_at(&mut self, addr: &SocketAddr, id: [u8; 20], now: Instant)
        ensures
            final(self).config == old(self).config,
            final(self).request_stats == old(self).request_stats,
            final(self).initialized == old(self).initialized,
            final(self).refreshed == old(self).refreshed,
            final(self).routing_table@ == table_answered(
                old(self).routing_table@,
                *addr,
                id,
                now,
            ),
    {
        let found: Option<RoutingNode> = match self.routing_table.get(addr) {
            Some(n) => Some(*n),
            None => None,
        };
        if let Some(n) = found {
            self.routing_table.insert(
                *addr,
                RoutingNode {
                    id,
                    addr: n.addr,
                    last_active: now,
                    consecutive_failures: 0,
                    is_bootstrap: n.is_bootstrap,
                },
            );
        }
    }

    /// The query for peers of an infohash with the given transaction.
    pub fn query_message(&self, infohash: &Infohash, tid: &[u8]) -> (r: Vec<u8>)
        ensures
            r@ == encoding(
                query_tree(
                    tid@,
                    QueryMethod::GetPeers,
                    get_peers_args(self.config.node_id@, infohash@),
                ),
            ),
    {
        DhtMessage::build_get_peers(tid, &self.config.node_id, infohash)
    }

    /// The query for peers of an infohash, with a random transaction of two bytes.
    pub fn query_request(&self, infohash: &Infohash) -> (r: Vec<u8>)
        ensures
            exists|tid: Seq<u8>|
                tid.len() == 2 && r@ == encoding(
                    #[trigger] query_tree(
                        tid,
                        QueryMethod::GetPeers,
                        get_peers_args(self.config.node_id@, infohash@),
                    ),
                ),
    {
        let tid: Vec<u8> = random_bytes(2);
        self.query_message(infohash, tid.as_slice())
    }

    /// What a node answered to a query for peers. A message that is no response counts as an empty
    /// answer.
    pub fn read_answer(data: &[u8]) -> (r: QueryResult)
        ensures
            r.answers(data@),
    {
        match DhtMessage::parse_get_peers_response(data) {
            Some((_, response)) => {
                let ghost token = response.token;
                let r: QueryResult = QueryResult {
                    peers: response.values,
                    nodes: response.nodes,
                    responder_id: response.node_id,
                };
                assert((GetPeersResponse {
                    node_id: r.responder_id,
                    values: r.peers,
                    nodes: r.nodes,
                    token,
                }).says(entry(decoded(data@)->0, "r".spec_bytes())->0));
                r
            },
            None => {
                let responder_id: [u8; 20] = [0u8; 20];
                assert(responder_id@ =~= Seq::new(20, |i: int| 0u8));
                QueryResult { peers: Vec::new(), nodes: Vec::new(), responder_id }
            },
        }
    }

    /// The nodes to query next, none when the lookup is over.
    pub fn next_round(&self, lookup: &mut Lookup) -> (r: Vec<RoutingNode>)
        requires
            old(lookup).rounds < usize::MAX,
        ensures
            if is_over(*self, *old(lookup)) {
                &&& r@.len() == 0
                &&& *final(lookup) == *old(lookup)
            } else {
                &&& r@ == round_nodes(*self, *old(lookup))
                &&& r@.len() > 0
                &&& final(lookup).infohash == old(lookup).infohash
                &&& final(lookup).limit == old(lookup).limit
                &&& final(lookup).peers == old(lookup).peers
                &&& final(lookup).queried@ == with_addrs(old(lookup).queried@, addrs_of_nodes(r@))
                &&& final(lookup).rounds == old(lookup).rounds + 1
                &&& if round_improves(*self, *old(lookup)) {
                    &&& final(lookup).closest_distance@ == xor_bytes(
                        r@[0].id@,
                        old(lookup).infohash@,
                    )
                    &&& final(lookup).rounds_without_improvement == 0
                } else {
                    &&& final(lookup).closest_distance == old(lookup).closest_distance
                    &&& final(lookup).rounds_without_improvement == old(
                        lookup,
                    ).rounds_without_improvement + 1
                }
            },
    {
        let none: Vec<RoutingNode> = Vec::new();
        if lookup.rounds >= self.config.max_query_rounds {
            return none;
        }
        if lookup.rounds > 0 && lookup.peers.len() >= lookup.limit {
            return none;
        }
        let candidates: Vec<RoutingNode> = self.nearest_nodes(&lookup.infohash, ROUND_CANDIDATES);
        let nodes: Vec<RoutingNode> = take_open(
            &candidates,
            &lookup.queried,
            self.config.max_concurrent_requests,
        );
        assert(nodes@ == round_nodes(*self, *lookup));
        if nodes.len() == 0 {
            return none;
        }
        let dist: [u8; 20] = xor_distance(&nodes[0].id, &lookup.infohash);
        if distance_less(&dist, &lookup.closest_distance) {
            lookup.closest_distance = dist;
            lookup.rounds_without_improvement = 0;
        } else {
            if lookup.rounds_without_improvement >= MAX_STALLED_ROUNDS - 1 {
                return none;
            }
            lookup.rounds_without_improvement = lookup.rounds_without_improvement + 1;
        }
        lookup.rounds = lookup.rounds + 1;
        let mut i: usize = 0;
        assert(with_addrs(lookup.queried@, addrs_of_nodes(nodes@.take(0))) == lookup.queried@);
        let ghost queried = lookup.queried@;
        let ghost mid = *lookup;
        while i < nodes.len()
            invariant
                i <= nodes@.len(),
                lookup.queried@ == with_addrs(queried, addrs_of_nodes(nodes@.take(i as int))),
                *lookup == (Lookup { queried: lookup.queried, ..mid }),
            decreases nodes@.len() - i,
        {
            let _ = lookup.queried.insert(nodes[i].addr);
            i += 1;
            assert(addrs_of_nodes(nodes@.take(i as int)).drop_last() =~= addrs_of_nodes(
                nodes@.take(i - 1),
            ));
            assert(addrs_of_nodes(nodes@.take(i as int)).last() == nodes@[i - 1].addr);
        }
        assert(nodes@.take(i as int) =~= nodes@);
        nodes
    }

    /// Takes what a queried node answered at time `now`, `None` if it did not.
    pub fn absorb_at(
        &mut self,
        lookup: &mut Lookup,
        addr: &SocketAddr,
        answer: Option<QueryResult>,
        now: Instant,
    )
        requires
            answer is None && old(self).routing_table@.contains_key(*addr)
                ==> old(self).routing_table@[*addr].consecutive_failures < u32::MAX,
        ensures
            final(self).config == old(self).config,
            final(self).request_stats == old(self).request_stats,
            final(self).initialized == old(self).initialized,
            final(self).refreshed == old(self).refreshed,
            final(lookup).peers@ == match answer {
                Some(qr) => with_addrs(old(lookup).peers@, qr.peers@),
                None => old(lookup).peers@,
            },
            *final(lookup) == (Lookup { peers: final(lookup).peers, ..*old(lookup) }),
            final(self).routing_table@ == table_absorbed(
                old(self).routing_table@,
                old(lookup).queried@,
                *addr,
                answer,
                now,
            ),
    {
        match answer {
            Some(qr) => {
                lookup.peers.insert_all(&qr.peers);
                let ghost before = self.routing_table@;
                let mut i: usize = 0;
                assert(table_with_nodes(before, qr.nodes@.take(0), lookup.queried@, now) == before);
                while i < qr.nodes.len()
                    invariant
                        i <= qr.nodes@.len(),
                        self.config == old(self).config,
                        self.request_stats == old(self).request_stats,
                        self.initialized == old(self).initialized,
                        self.refreshed == old(self).refreshed,
                        self.routing_table@ == table_with_nodes(
                            before,
                            qr.nodes@.take(i as int),
                            lookup.queried@,
                            now,
                        ),
                    decreases qr.nodes@.len() - i,
                {
                    if !lookup.queried.contains(&qr.nodes[i].addr) {
                        self.add_node_at(&qr.nodes[i], now);
                    }
                    i += 1;
                    assert(qr.nodes@.take(i as int).drop_last() =~= qr.nodes@.take(i - 1));
                }
                assert(qr.nodes@.take(i as int) =~= qr.nodes@);
                self.mark_node_success_at(addr, qr.responder_id, now);
            },
            None => {
                self.mark_node_failure(addr);
            },
        }
    }

    /// Takes what a queried node answered, `None` if it did not.
    pub fn absorb(&mut self, lookup: &mut Lookup, addr: &SocketAddr, answer: Option<QueryResult>)
        requires
            answer is None && old(self).routing_table@.contains_key(*addr)
                ==> old(self).routing_table@[*addr].consecutive_failures < u32::MAX,
        ensures
            final(self).config == old(self).config,
            final(self).request_stats == old(self).request_stats,
            final(self).initialized == old(self).initialized,
            final(self).refreshed == old(self).refreshed,
            final(lookup).peers@ == match answer {
                Some(qr) => with_addrs(old(lookup).peers@, qr.peers@),
                None => old(lookup).peers@,
            },
            *final(lookup) == (Lookup { peers: final(lookup).peers, ..*old(lookup) }),
            exists|now: Instant|
                final(self).routing_table@ == #[trigger] table_absorbed(
                    old(self).routing_table@,
                    old(lookup).queried@,
                    *addr,
                    answer,
                    now,
                ),
    {
        let now: Instant = instant_now();
        self.absorb_at(lookup, addr, answer, now);
    }

    /// The peers that a lookup found, as many as are wanted, learned of at time `now`. Counts the
    /// request.
    pub fn finish_at(&mut self, lookup: &Lookup, now: u64) -> (r: Vec<PeerInfo>)
        requires
            old(self).request_stats.total_requests < u64::MAX,
            old(self).request_stats.success_requests < u64::MAX,
            old(self).request_stats.total_peers_discovered + lookup.peers@.len() <= u64::MAX,
        ensures
            views(r@) == fresh_models(
                lookup.peers@.take(at_most(lookup.limit as int, lookup.peers@.len() as int)),
                PeerSource::Dht,
                now,
            ),
            *final(self) == (DhtDiscoverer {
                request_stats: DiscovererStats {
                    total_requests: (old(self).request_stats.total_requests + 1) as u64,
                    success_requests: (old(self).request_stats.success_requests + 1) as u64,
                    total_peers_discovered: (old(self).request_stats.total_peers_discovered
                        + r@.len()) as u64,
                    last_success_at: Some(now),
                    ..old(self).request_stats
                },
                ..*old(self)
            }),
    {
        let found: Vec<SocketAddr> = addr_list(&lookup.peers);
        let peers: Vec<PeerInfo> = fresh_peers(
            found.as_slice(),
            lookup.limit,
            PeerSource::Dht,
            now,
        );
        assert(views(peers@).len() == peers@.len());
        self.request_stats.record_success_at(peers.len(), now);
        peers
    }

    /// The peers that a lookup found, as many as are wanted. Counts the request.
    pub fn finish(&mut self, lookup: &Lookup) -> (r: Vec<PeerInfo>)
        requires
            old(self).request_stats.total_requests < u64::MAX,
            old(self).request_stats.success_requests < u64::MAX,
            old(self).request_stats.total_peers_discovered + lookup.peers@.len() <= u64::MAX,
        ensures
            exists|now: u64|
                views(r@) == #[trigger] fresh_models(
                    lookup.peers@.take(at_most(lookup.limit as int, lookup.peers@.len() as int)),
                    PeerSource::Dht,
                    now,
                ),
            final(self).config == old(self).config,
            final(self).initialized == old(self).initialized,
            final(self).refreshed == old(self).refreshed,
            final(self).routing_table == old(self).routing_table,
            final(self).request_stats.total_requests == old(self).request_stats.total_requests + 1,
            final(self).request_stats.success_requests == old(self).request_stats.success_requests
                + 1,
            final(self).request_stats.failed_requests == old(self).request_stats.failed_requests,
            final(self).request_stats.total_peers_discovered == old(
                self,
            ).request_stats.total_peers_discovered + r@.len(),
    {
        let now: u64 = unix_nanos();
        let r: Vec<PeerInfo> = self.finish_at(lookup, now);
        assert(views(r@).len() == r@.len());
        r
    }

    /// The nodes that an announcement goes to. The DHT has no way to take an announcement back, so
    /// a stop goes to none.
    pub fn announce_nodes(&self, infohash: &Infohash, event: AnnounceEvent) -> (r: Vec<RoutingNode>)
        ensures
            r@ == if event == AnnounceEvent::Stopped {
                Seq::empty()
            } else {
                closest_of(
                    known(self.routing_table).filter(node_well()),
                    *infohash,
                    5,
                )
            },
    {
        if event == AnnounceEvent::Stopped {
            let none: Vec<RoutingNode> = Vec::new();
            assert(none@ =~= Seq::<RoutingNode>::empty());
            return none;
        }
        self.nearest_nodes(infohash, ANNOUNCE_NODES)
    }

    /// The token in an answer to a query for peers.
    pub fn token_of_answer(data: &[u8]) -> (r: Option<Vec<u8>>)
        ensures
            match r {
                Some(t) => decoded(data@) is Some && is_response(decoded(data@)->0)
                    && crate::bencode::bytes_entry(
                    entry(decoded(data@)->0, "r".spec_bytes())->0,
                    "token".spec_bytes(),
                ) == Some(t@),
                None => decoded(data@) is None || !is_response(decoded(data@)->0)
                    || crate::bencode::bytes_entry(
                    entry(decoded(data@)->0, "r".spec_bytes())->0,
                    "token".spec_bytes(),
                ) is None,
            },
    {
        match DhtMessage::parse_get_peers_response(data) {
            Some((_, response)) => response.token,
            None => None,
        }
    }

    /// The announcement to a node with the token that it gave and the given transaction.
    pub fn announce_message(&self, infohash: &Infohash, port: u16, token: &[u8], tid: &[u8]) -> (r:
        Vec<u8>)
        ensures
            r@ == encoding(
                query_tree(
                    tid@,
                    QueryMethod::AnnouncePeer,
                    announce_args(self.config.node_id@, infohash@, port as int, token@),
                ),
            ),
    {
        DhtMessage::build_announce_peer(tid, &self.config.node_id, infohash, port, token)
    }

    /// The announcement to a node with the token that it gave, with a random transaction of two
    /// bytes.
    pub fn announce_request(&self, infohash: &Infohash, port: u16, token: &[u8]) -> (r: Vec<u8>)
        ensures
            exists|tid: Seq<u8>|
                tid.len() == 2 && r@ == encoding(
                    #[trigger] query_tree(
                        tid,
                        QueryMethod::AnnouncePeer,
                        announce_args(self.config.node_id@, infohash@, port as int, token@),
                    ),
                ),
    {
        let tid: Vec<u8> = random_bytes(2);
        self.announce_message(infohash, port, token, tid.as_slice())
    }

    /// Whether a healthy node is known.
    pub open spec fn is_healthy(&self) -> bool {
        known(self.routing_table).filter(node_well()).len() > 0
    }

    /// Whether a healthy node is known.
    pub fn health_check(&self) -> (r: bool)
        ensures
            r == self.is_healthy(),
    {
        self.healthy_nodes().len() > 0
    }

    /// The request counts.
    pub fn stats(&self) -> (r: DiscovererStats)
        ensures
            r == self.request_stats,
    {
        self.request_stats
    }
}

/// The first `count` nodes that are not in `queried`.
fn take_open(nodes: &Vec<RoutingNode>, queried: &AddrSet, count: usize) -> (r: Vec<RoutingNode>)
    ensures
        r@ == nodes@.filter(not_in(queried@)).take(
            at_most(count as int, nodes@.filter(not_in(queried@)).len() as int),
        ),
{
    let ghost p = not_in(queried@);
    let mut open: Vec<RoutingNode> = Vec::new();
    let mut i: usize = 0;
    assert(nodes@.take(0).filter(p) =~= Seq::empty()) by {
        reveal(Seq::filter);
    }
    while i < nodes.len()
        invariant
            i <= nodes@.len(),
            p == not_in(queried@),
            open@ == nodes@.take(i as int).filter(p),
        decreases nodes@.len() - i,
    {
        proof {
            lemma_filter_step(nodes@, i as int, p);
        }
        if !queried.contains(&nodes[i].addr) {
            open.push(nodes[i]);
        }
        i += 1;
    }
    assert(nodes@.take(i as int) =~= nodes@);
    if count < open.len() {
        open.truncate(count);
    }
    assert(open@ =~= nodes@.filter(p).take(at_most(count as int, nodes@.filter(p).len() as int)));
    open
}

/// The addresses of a set in their order.
fn addr_list(set: &AddrSet) -> (r: Vec<SocketAddr>)
    ensures
        r@ == set@,
{
    let mut out: Vec<SocketAddr> = Vec::with_capacity(set.len());
    let mut i: usize = 0;
    while i < set.len()
        invariant
            i <= set@.len(),
            out@ == set@.take(i as int),
        decreases set@.len() - i,
    {
        out.push(set.at(i));
        i += 1;
        assert(out@ =~= set@.take(i as int));
    }
    assert(set@.take(i as int) =~= set@);
    out
}

/// A round queries healthy nodes of the table only, none of them a second time, and no more at once
/// than the settings allow.
pub proof fn law_round_asks_new_healthy_nodes(d: DhtDiscoverer, lookup: Lookup)
    ensures
        round_nodes(d, lookup).len() <= d.config.max_concurrent_requests,
        forall|i: int|
            0 <= i < round_nodes(d, lookup).len() ==> {
                let n = #[trigger] round_nodes(d, lookup)[i];
                n.healthy() && !lookup.queried@.contains(n.addr) && known(d.routing_table).contains(n)
            },
{
    let all = known(d.routing_table);
    let well = all.filter(node_well());
    let near = closest_of(well, lookup.infohash, ROUND_CANDIDATES as int);
    let open = near.filter(not_in(lookup.queried@));
    let r = round_nodes(d, lookup);
    law_closest(well, lookup.infohash, ROUND_CANDIDATES as nat);
    assert forall|i: int| 0 <= i < r.len() implies {
        let n = #[trigger] r[i];
        n.healthy() && !lookup.queried@.contains(n.addr) && all.contains(n)
    } by {
        assert(r[i] == open[i]);
        near.lemma_filter_pred(not_in(lookup.queried@), i);
        near.lemma_filter_contains_rev(not_in(lookup.queried@), open[i]);
        let j = choose|j: int| 0 <= j < near.len() && near[j] == r[i];
        assert(well.contains(near[j]));
        let k = choose|k: int| 0 <= k < well.len() && well[k] == r[i];
        all.lemma_filter_pred(node_well(), k);
        all.lemma_filter_contains_rev(node_well(), well[k]);
    }
}

/// What nodes tell of never makes the table grow beyond its limit, and never changes a node that is
/// known.
pub proof fn law_table_stays_bounded(
    m: Map<SocketAddr, RoutingNode>,
    nodes: Seq<DhtNode>,
    queried: Seq<SocketAddr>,
    now: Instant,
)
    requires
        m.dom().finite(),
        m.len() <= TABLE_LIMIT,
    ensures
        table_with_nodes(m, nodes, queried, now).dom().finite(),
        table_with_nodes(m, nodes, queried, now).len() <= TABLE_LIMIT,
        forall|a: SocketAddr| #[trigger]
            m.contains_key(a) ==> table_with_nodes(m, nodes, queried, now).contains_key(a)
                && table_with_nodes(m, nodes, queried, now)[a] == m[a],
    decreases nodes.len(),
{
    if nodes.len() > 0 {
        law_table_stays_bounded(m, nodes.drop_last(), queried, now);
    }
}

/// A node that failed three times in a row is not healthy until it answers.
pub proof fn law_three_failures_make_unhealthy(
    m: Map<SocketAddr, RoutingNode>,
    addr: SocketAddr,
    id: [u8; 20],
    now: Instant,
)
    requires
        m.contains_key(addr),
        m[addr].consecutive_failures < u32::MAX - 3,
    ensures
        !table_unanswered(table_unanswered(table_unanswered(m, addr), addr), addr)[addr].healthy(),
        table_answered(m, addr, id, now)[addr].healthy(),
{
}

/// What nodes tell of changes no node that is known, brings in none that was queried or not told of,
/// and while there is room brings in every other one as it was told of first.
proof fn lemma_told_nodes(
    m: Map<SocketAddr, RoutingNode>,
    nodes: Seq<DhtNode>,
    queried: Seq<SocketAddr>,
    now: Instant,
)
    requires
        m.dom().finite(),
    ensures
        ({
            let after = table_with_nodes(m, nodes, queried, now);
            &&& after.dom().finite()
            &&& m.len() <= after.len()
            &&& forall|a: SocketAddr| #[trigger]
                m.contains_key(a) ==> after.contains_key(a) && after[a] == m[a]
            &&& forall|a: SocketAddr| #[trigger]
                after.contains_key(a) ==> m.contains_key(a) || exists|i: int|
                    0 <= i < nodes.len() && (#[trigger] nodes[i]).addr == a && !queried.contains(a)
            &&& after.len() < 1000 ==> forall|i: int|
                0 <= i < nodes.len() && !queried.contains((#[trigger] nodes[i]).addr)
                    ==> after.contains_key(nodes[i].addr)
            &&& forall|a: SocketAddr| #[trigger]
                after.contains_key(a) && !m.contains_key(a) ==> exists|i: int|
                    0 <= i < nodes.len() && after[a] == (RoutingNode {
                        id: (#[trigger] nodes[i]).id,
                        addr: a,
                        last_active: now,
                        consecutive_failures: 0,
                        is_bootstrap: false,
                    }) && nodes[i].addr == a && (after.len() < 1000 ==> forall|j: int|
                        0 <= j < i ==> (#[trigger] nodes[j]).addr != a)
        }),
    decreases nodes.len(),
{
    if nodes.len() > 0 {
        let rest = nodes.drop_last();
        lemma_told_nodes(m, rest, queried, now);
        let mid = table_with_nodes(m, rest, queried, now);
        let after = table_with_nodes(m, nodes, queried, now);
        let last = nodes.len() - 1;
        assert(nodes[last] == nodes.last());
        assert forall|a: SocketAddr| #[trigger] after.contains_key(a) implies m.contains_key(a)
            || exists|i: int|
            0 <= i < nodes.len() && (#[trigger] nodes[i]).addr == a && !queried.contains(a) by {
            if mid.contains_key(a) && !m.contains_key(a) {
                let i = choose|i: int|
                    0 <= i < rest.len() && (#[trigger] rest[i]).addr == a && !queried.contains(a);
                assert(nodes[i].addr == a);
            }
        }
        assert forall|i: int|
            after.len() < 1000 && 0 <= i < nodes.len() && !queried.contains(
                (#[trigger] nodes[i]).addr,
            ) implies after.contains_key(nodes[i].addr) by {
            if i < last {
                assert(rest[i] == nodes[i]);
            }
        }
        assert forall|a: SocketAddr| #[trigger]
            after.contains_key(a) && !m.contains_key(a) implies exists|i: int|
            0 <= i < nodes.len() && after[a] == (RoutingNode {
                id: (#[trigger] nodes[i]).id,
                addr: a,
                last_active: now,
                consecutive_failures: 0,
                is_bootstrap: false,
            }) && nodes[i].addr == a && (after.len() < 1000 ==> forall|j: int|
                0 <= j < i ==> (#[trigger] nodes[j]).addr != a) by {
            if mid.contains_key(a) {
                let i = choose|i: int|
                    0 <= i < rest.len() && mid[a] == (RoutingNode {
                        id: (#[trigger] rest[i]).id,
                        addr: a,
                        last_active: now,
                        consecutive_failures: 0,
                        is_bootstrap: false,
                    }) && rest[i].addr == a && (mid.len() < 1000 ==> forall|j: int|
                        0 <= j < i ==> (#[trigger] rest[j]).addr != a);
                assert(nodes[i] == rest[i]);
                assert forall|j: int| after.len() < 1000 && 0 <= j < i implies (
                #[trigger] nodes[j]).addr != a by {
                    assert(rest[j] == nodes[j]);
                }
            } else {
                assert(a == nodes[last].addr && !queried.contains(a));
                assert forall|j: int| after.len() < 1000 && 0 <= j < last implies (
                #[trigger] nodes[j]).addr != a by {
                    assert(rest[j] == nodes[j]);
                }
                assert(after[a].id == nodes[last].id);
            }
        }
    }
}

/// After an answer every node that it tells of is known, unless it was queried already or a thousand
/// nodes are known: a new one with the identifier that was told for it first, as one that never
/// failed. Nobody else comes in, nobody goes, and nobody changes but the node that answered, which now
/// has the identifier that it gave and no failures.
pub proof fn law_told_nodes_become_known(
    m: Map<SocketAddr, RoutingNode>,
    queried: Seq<SocketAddr>,
    addr: SocketAddr,
    qr: QueryResult,
    now: Instant,
)
    requires
        m.dom().finite(),
    ensures
        ({
            let after = table_absorbed(m, queried, addr, Some(qr), now);
            &&& after.len() < 1000 ==> forall|i: int|
                0 <= i < qr.nodes@.len() && !queried.contains((#[trigger] qr.nodes@[i]).addr)
                    ==> after.contains_key(qr.nodes@[i].addr)
            &&& after.len() < 1000 ==> forall|i: int|
                0 <= i < qr.nodes@.len() && !queried.contains((#[trigger] qr.nodes@[i]).addr)
                    && !m.contains_key(qr.nodes@[i].addr) && qr.nodes@[i].addr != addr && (forall|
                    j: int,
                | 0 <= j < i ==> (#[trigger] qr.nodes@[j]).addr != qr.nodes@[i].addr)
                    ==> after[qr.nodes@[i].addr] == (RoutingNode {
                    id: qr.nodes@[i].id,
                    addr: qr.nodes@[i].addr,
                    last_active: now,
                    consecutive_failures: 0,
                    is_bootstrap: false,
                })
            &&& forall|a: SocketAddr| #[trigger]
                m.contains_key(a) ==> after.contains_key(a) && (a != addr ==> after[a] == m[a])
            &&& forall|a: SocketAddr| #[trigger]
                after.contains_key(a) ==> m.contains_key(a) || exists|i: int|
                    0 <= i < qr.nodes@.len() && (#[trigger] qr.nodes@[i]).addr == a
                        && !queried.contains(a)
            &&& after.contains_key(addr) ==> after[addr].id == qr.responder_id
                && after[addr].consecutive_failures == 0 && after[addr].last_active == now
            &&& m.contains_key(addr) ==> after[addr].addr == m[addr].addr
                && after[addr].is_bootstrap == m[addr].is_bootstrap
        }),
{
    lemma_told_nodes(m, qr.nodes@, queried, now);
    let nodes = qr.nodes@;
    let mid = table_with_nodes(m, nodes, queried, now);
    let after = table_absorbed(m, queried, addr, Some(qr), now);
    assert(after.dom() =~= mid.dom());
    assert forall|i: int|
        after.len() < 1000 && 0 <= i < nodes.len() && !queried.contains((#[trigger] nodes[i]).addr)
            && !m.contains_key(nodes[i].addr) && nodes[i].addr != addr && (forall|j: int|
            0 <= j < i ==> (#[trigger] nodes[j]).addr != nodes[i].addr) implies after[nodes[i].addr]
        == (RoutingNode {
        id: nodes[i].id,
        addr: nodes[i].addr,
        last_active: now,
        consecutive_failures: 0,
        is_bootstrap: false,
    }) by {
        let a = nodes[i].addr;
        assert(mid.contains_key(a));
        let k = choose|k: int|
            0 <= k < nodes.len() && mid[a] == (RoutingNode {
                id: (#[trigger] nodes[k]).id,
                addr: a,
                last_active: now,
                consecutive_failures: 0,
                is_bootstrap: false,
            }) && nodes[k].addr == a && (mid.len() < 1000 ==> forall|j: int|
                0 <= j < k ==> (#[trigger] nodes[j]).addr != a);
        assert(k == i);
    }
}

/// A node that did not answer has one more failure to its name, and nothing else changes.
pub proof fn law_silence_counts_against_a_node(
    m: Map<SocketAddr, RoutingNode>,
    queried: Seq<SocketAddr>,
    addr: SocketAddr,
    now: Instant,
)
    requires
        m.contains_key(addr) ==> m[addr].consecutive_failures < u32::MAX,
    ensures
        ({
            let after = table_absorbed(m, queried, addr, None, now);
            &&& forall|a: SocketAddr| #[trigger] after.contains_key(a) <==> m.contains_key(a)
            &&& forall|a: SocketAddr| #[trigger]
                m.contains_key(a) && a != addr ==> after[a] == m[a]
            &&& m.contains_key(addr) ==> {
                &&& after[addr].consecutive_failures == m[addr].consecutive_failures + 1
                &&& after[addr].id == m[addr].id
                &&& after[addr].addr == m[addr].addr
                &&& after[addr].last_active == m[addr].last_active
                &&& after[addr].is_bootstrap == m[addr].is_bootstrap
            }
        }),
{
}

/// The bootstrap nodes that resolved are all known afterwards, as nodes to start from that never failed;
/// nobody else comes in and nobody goes.
pub proof fn law_bootstrap_nodes_are_known(
    m: Map<SocketAddr, RoutingNode>,
    resolved: Seq<SocketAddr>,
    ids: Seq<[u8; 20]>,
    now: Instant,
)
    requires
        ids.len() >= resolved.len(),
    ensures
        ({
            let after = table_bootstrapped(m, resolved, ids, now);
            &&& forall|i: int|
                0 <= i < resolved.len() ==> after.contains_key(#[trigger] resolved[i]) && {
                    let n = after[resolved[i]];
                    n.addr == resolved[i] && n.is_bootstrap && n.consecutive_failures == 0
                        && n.last_active == now && exists|k: int|
                        0 <= k < resolved.len() && n.id == #[trigger] ids[k]
                }
            &&& forall|a: SocketAddr| #[trigger]
                after.contains_key(a) <==> m.contains_key(a) || resolved.contains(a)
            &&& forall|a: SocketAddr| #[trigger]
                m.contains_key(a) && !resolved.contains(a) ==> after[a] == m[a]
        }),
    decreases resolved.len(),
{
    let after = table_bootstrapped(m, resolved, ids, now);
    if resolved.len() > 0 {
        let rest = resolved.drop_last();
        let last = resolved.len() - 1;
        law_bootstrap_nodes_are_known(m, rest, ids, now);
        let mid = table_bootstrapped(m, rest, ids, now);
        assert(after[resolved[last]].id == ids[last]);
        assert forall|i: int| 0 <= i < resolved.len() implies after.contains_key(
            #[trigger] resolved[i],
        ) && {
            let n = after[resolved[i]];
            n.addr == resolved[i] && n.is_bootstrap && n.consecutive_failures == 0
                && n.last_active == now && exists|k: int|
                0 <= k < resolved.len() && n.id == #[trigger] ids[k]
        } by {
            if resolved[i] != resolved[last] {
                assert(rest[i] == resolved[i]);
                let k = choose|k: int|
                    0 <= k < rest.len() && mid[resolved[i]].id == #[trigger] ids[k];
                assert(after[resolved[i]].id == ids[k]);
            }
        }
        assert forall|a: SocketAddr| #[trigger] resolved.contains(a) <==> rest.contains(a) || a
            == resolved[last] by {
            if resolved.contains(a) {
                let i = choose|i: int| 0 <= i < resolved.len() && resolved[i] == a;
                if i < last {
                    assert(rest[i] == a);
                }
            }
            if rest.contains(a) {
                let i = choose|i: int| 0 <= i < rest.len() && rest[i] == a;
                assert(resolved[i] == a);
            }
        }
        assert forall|a: SocketAddr| #[trigger] after.contains_key(a) <==> m.contains_key(a)
            || resolved.contains(a) by {
            assert(mid.contains_key(a) <==> m.contains_key(a) || rest.contains(a));
            assert(resolved.contains(a) <==> rest.contains(a) || a == resolved[last]);
        }
        assert forall|a: SocketAddr| #[trigger]
            m.contains_key(a) && !resolved.contains(a) implies after[a] == m[a] by {
            assert(resolved.contains(a) <==> rest.contains(a) || a == resolved[last]);
        }
    }
}

/// The nodes that have not failed three times in a row.
pub open spec fn usable_nodes(d: DhtDiscoverer) -> Seq<RoutingNode> {
    known(d.routing_table).filter(|n: RoutingNode| n.consecutive_failures <= 2)
}

/// A round asks, of the twenty healthy nodes nearest to the infohash, the nearest that were not asked
/// yet, as many as may be asked at once.
pub proof fn law_round_asks_the_nearest(d: DhtDiscoverer, lookup: Lookup)
    ensures
        exists|near: Seq<RoutingNode>| #[trigger]
            are_closest(usable_nodes(d), lookup.infohash, 20, near) && ({
                let open = near.filter(|n: RoutingNode| !lookup.queried@.contains(n.addr));
                &&& round_nodes(d, lookup).len() == if open.len()
                    < d.config.max_concurrent_requests {
                    open.len() as int
                } else {
                    d.config.max_concurrent_requests as int
                }
                &&& forall|i: int|
                    0 <= i < round_nodes(d, lookup).len() ==> #[trigger] round_nodes(d, lookup)[i]
                        == open[i]
            }),
{
    let p = |n: RoutingNode| n.consecutive_failures <= 2;
    assert(p =~= node_well());
    let q = |n: RoutingNode| !lookup.queried@.contains(n.addr);
    assert(q =~= not_in(lookup.queried@));
    let healthy = known(d.routing_table).filter(node_well());
    law_closest_values(healthy, lookup.infohash, 20);
    let near = closest_of(healthy, lookup.infohash, 20);
    assert(are_closest(usable_nodes(d), lookup.infohash, 20, near));
}

/// A lookup goes on while rounds are left, fewer peers were found than are wanted (the first round is
/// made in any case), there is somebody to ask, and the last rounds came nearer to the infohash: one
/// that does not may stand, a second in a row ends the lookup.
pub proof fn law_when_a_lookup_goes_on(d: DhtDiscoverer, lookup: Lookup)
    ensures
        !is_over(d, lookup) <==> {
            &&& lookup.rounds < d.config.max_query_rounds
            &&& lookup.rounds == 0 || lookup.peers@.len() < lookup.limit
            &&& round_nodes(d, lookup).len() > 0
            &&& distance(round_nodes(d, lookup)[0].id, lookup.infohash) < be_value(
                lookup.closest_distance@,
            ) || lookup.rounds_without_improvement == 0
        },
{
}

/// A refresh drops just the nodes that were not active for too long and are not those that the search
/// starts from, and is made when it was never made or the interval has passed.
pub proof fn law_refresh_drops_the_expired(d: DhtDiscoverer, now: Instant, a: SocketAddr)
    ensures
        ({
            let table = d.routing_table@;
            let after = table_refreshed(table, d.config.node_ttl_secs, now);
            &&& after.contains_key(a) <==> table.contains_key(a) && (table[a].is_bootstrap
                || nanos_since(table[a].last_active, now) <= 1_000_000_000 * d.config.node_ttl_secs)
            &&& after.contains_key(a) ==> after[a] == table[a]
        }),
        d.refreshed is None ==> refresh_due(d, now),
        d.refreshed is Some ==> (refresh_due(d, now) <==> nanos_since(d.refreshed->0, now)
            >= 1_000_000_000 * d.config.refresh_interval_secs),
{
}

/// A discoverer is healthy if and only if it knows a node that has not failed three times in a row.
pub proof fn law_one_healthy_node_is_enough(d: DhtDiscoverer)
    ensures
        d.is_healthy() <==> exists|i: int|
            0 <= i < known(d.routing_table).len() && (#[trigger] known(
                d.routing_table,
            )[i]).consecutive_failures <= 2,
{
    let all = known(d.routing_table);
    let well = all.filter(node_well());
    if well.len() > 0 {
        all.lemma_filter_pred(node_well(), 0);
        assert(well.contains(well[0]));
        all.lemma_filter_contains_rev(node_well(), well[0]);
        let i = choose|i: int| 0 <= i < all.len() && all[i] == well[0];
        assert(all[i].consecutive_failures <= 2);
    }
    if exists|i: int| 0 <= i < all.len() && (#[trigger] all[i]).consecutive_failures <= 2 {
        let i = choose|i: int| 0 <= i < all.len() && (#[trigger] all[i]).consecutive_failures <= 2;
        assert(node_well()(all[i]));
        all.lemma_filter_contains(node_well(), i);
    }
}

/// An answer is taken as it was given: who answered, all peers and all nodes that it lists. What is no
/// response gives nothing.
pub proof fn law_answer_is_taken_as_given(qr: QueryResult, data: Seq<u8>)
    requires
        qr.answers(data),
    ensures
        decoded(data) is Some && is_response(decoded(data)->0) ==> ({
            let args = entry(decoded(data)->0, "r".spec_bytes())->0;
            &&& crate::bencode::bytes_entry(args, "id".spec_bytes()) == Some(qr.responder_id@)
            &&& qr.peers@ == listed_values(args)
            &&& are_nodes_of(qr.nodes@, listed_nodes(args))
        }),
        decoded(data) is None || !is_response(decoded(data)->0) ==> qr.peers@.len() == 0
            && qr.nodes@.len() == 0,
{
}

impl PeerDiscoverer for DhtDiscoverer {
    open spec fn label(&self) -> Seq<char> {
        "dht"@
    }

    open spec fn kind(&self) -> DiscovererType {
        DiscovererType::Dht
    }

    open spec fn enabled(&self) -> bool {
        self.config.enabled
    }

    fn name(&self) -> (r: &str) {
        "dht"
    }

    fn discoverer_type(&self) -> (r: DiscovererType) {
        DiscovererType::Dht
    }

    fn is_enabled(&self) -> (r: bool) {
        self.config.enabled
    }
}

} // verus!
