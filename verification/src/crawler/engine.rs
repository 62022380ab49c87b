//! The crawler: a full node of the DHT that listens, answers queries and collects infohashes.

use crate::bencode::{bytes_entry, decoded, encoding, entry};
use crate::bloom::{positions, BloomFilter};
use crate::bytes::{append_decimal, decimal_text};
use crate::clock::{instant_now, nanos_between, nanos_since, secs_since, unix_nanos, NANOS_PER_SEC};
use crate::config::CrawlerConfig;
use crate::crawler::respond::{
    announced_addr, announces, answer_find_node, answer_get_peers, answer_peers, answer_sample,
    args_of, as_read, find_node_reply, get_peers_reply, healthy_entries, id_of, id_reply, infohash_in,
    law_find_node_is_answered_with_the_closest, law_get_peers_is_answered, law_ping_is_answered,
    lemma_id_of, listening_addr, live_announcements, sample_reply, zero_id, ANSWER_PEERS,
    ANSWER_SAMPLES,
};
use crate::crawler::Crawler;
use crate::discoverers::dht::distance::are_closest;
use crate::discoverers::dht::message::{
    id_entry, is_announcement, is_query, is_read_as, law_method_names, lemma_one_method, ping_args, query_subject, query_tree,
    DhtMessage, Query, QueryMethod,
};
use crate::discoverers::dht::routing_table::{
    all_entries, compact_of, evicted, knows, law_eviction, law_heard_node_is_fresh,
    law_insert_keeps_valid, law_touching_keeps_the_number, lemma_compact_of,
    node_total, table_touched, table_with, valid_buckets, BucketModel, CompactAddr, RoutingEntry,
    RoutingTable,
};
use crate::discoverers::dht::store::{
    addrs_of, fresh, law_announced_peer_is_found, law_announcement_is_noted, law_cleanup_of_the_store, lemma_store_lists, list_of, list_with, peer_total,
    without_expired, DhtStore, PeerEntry, PEER_TTL_SECS,
};
use crate::discoverers::dht::token::{token_of, Token, TokenManager};
use crate::net::SocketAddr;
use crate::random::{random_bytes, random_id};
use crate::seqs::at_most;
use crate::types::{Event, Infohash};
use std::time::Instant;
use vstd::prelude::*;
use vstd::string::*;

verus! {

/// Seconds between two rounds of pings to the bootstrap nodes.
pub const BOOTSTRAP_INTERVAL_SECS: u64 = 300;

/// After how many new infohashes progress is told.
pub const PROGRESS_STEP: u64 = 100;

/// How far the crawler has got.
#[derive(Debug, Clone, Copy)]
pub struct CrawlerState {
    pub running: bool,
    pub nodes_crawled: u64,
    pub infohashes_collected: u64,
    pub peers_collected: u64,
    pub started_at: Option<Instant>,
    /// When the last new infohash was seen.
    pub last_crawl_at: Option<Instant>,
    pub errors: u64,
    pub messages_received: u64,
    /// The number of nodes in the routing table.
    pub routing_table_size: usize,
    pub stored_peers: usize,
    pub stored_infohashes: usize,
}

impl CrawlerState {
    /// Whether this is the state of a crawler that never ran.
    pub open spec fn is_initial(self) -> bool {
        self == (CrawlerState {
            running: false,
            nodes_crawled: 0,
            infohashes_collected: 0,
            peers_collected: 0,
            started_at: None,
            last_crawl_at: None,
            errors: 0,
            messages_received: 0,
            routing_table_size: 0,
            stored_peers: 0,
            stored_infohashes: 0,
        })
    }
}

impl Default for CrawlerState {
    fn default() -> (r: CrawlerState)
        ensures
            r.is_initial(),
    {
        CrawlerState {
            running: false,
            nodes_crawled: 0,
            infohashes_collected: 0,
            peers_collected: 0,
            started_at: None,
            last_crawl_at: None,
            errors: 0,
            messages_received: 0,
            routing_table_size: 0,
            stored_peers: 0,
            stored_infohashes: 0,
        }
    }
}

/// What a message leads to.
pub struct Handled {
    /// What is sent back.
    pub reply: Option<Vec<u8>>,
    /// The infohash that the message is about.
    pub infohash: Option<Infohash>,
}

/// What the crawler has to do on a tick.
#[derive(Debug, Clone, Copy, PartialEq, Eq, Structural)]
pub struct Due {
    /// Ping the bootstrap nodes.
    pub bootstrap: bool,
    /// Drop what has expired and change the token secret.
    pub maintenance: bool,
}

/// What is due after the given nanoseconds since the last pings and the last maintenance, for a
/// crawler with the given seconds between two rounds of maintenance.
pub fn due_after(since_bootstrap: u64, since_maintenance: u64, crawl_interval_secs: u64) -> (r: Due)
    ensures
        r.bootstrap == (since_bootstrap >= 300_000_000_000),
        r.maintenance == (since_maintenance >= crawl_interval_secs * 1_000_000_000),
{
    Due {
        bootstrap: since_bootstrap >= BOOTSTRAP_INTERVAL_SECS * NANOS_PER_SEC,
        maintenance: since_maintenance as u128 >= crawl_interval_secs as u128
            * NANOS_PER_SEC as u128,
    }
}

/// When the crawler last did what it does from time to time.
pub struct CrawlSchedule {
    pub last_bootstrap: Instant,
    pub last_maintenance: Instant,
    /// Seconds between two rounds of maintenance.
    pub crawl_interval_secs: u64,
}

impl CrawlSchedule {
    /// A schedule on which everything was done at a point in time.
    pub fn new(now: Instant, crawl_interval_secs: u64) -> (r: CrawlSchedule)
        ensures
            r.last_bootstrap == now,
            r.last_maintenance == now,
            r.crawl_interval_secs == crawl_interval_secs,
    {
        CrawlSchedule { last_bootstrap: now, last_maintenance: now, crawl_interval_secs }
    }

    /// What is due at a point in time.
    pub fn due(&self, now: Instant) -> (r: Due)
        ensures
            r.bootstrap == (nanos_since(self.last_bootstrap, now) >= 300_000_000_000),
            r.maintenance == (nanos_since(self.last_maintenance, now) >= self.crawl_interval_secs
                * 1_000_000_000),
    {
        due_after(
            nanos_between(&self.last_bootstrap, &now),
            nanos_between(&self.last_maintenance, &now),
            self.crawl_interval_secs,
        )
    }

    /// Notes that the bootstrap nodes were pinged at a point in time.
    pub fn bootstrapped(&mut self, now: Instant)
        ensures
            *final(self) == (CrawlSchedule { last_bootstrap: now, ..*old(self) }),
    {
        self.last_bootstrap = now;
    }

    /// Notes that maintenance was done at a point in time.
    pub fn maintained(&mut self, now: Instant)
        ensures
            *final(self) == (CrawlSchedule { last_maintenance: now, ..*old(self) }),
    {
        self.last_maintenance = now;
    }
}

/// The crawler.
pub struct CrawlerEngine {
    pub config: CrawlerConfig,
    pub state: CrawlerState,
    /// The infohashes that were seen.
    pub seen_infohashes: BloomFilter,
    /// The crawler's own identifier.
    pub node_id: [u8; 20],
    pub routing_table: RoutingTable,
    pub peer_store: DhtStore,
    pub token_manager: TokenManager,
}

/// What the crawler answers to a message. `store_now` is the time of the store; `samples` is the
/// sample drawn for a query that asks for one.
pub open spec fn reply_to(
    engine: CrawlerEngine,
    data: Seq<u8>,
    from: SocketAddr,
    store_now: u32,
    samples: Seq<Infohash>,
) -> Option<Seq<u8>> {
    match decoded(data) {
        Some(top) => {
            let tid = bytes_entry(top, "t".spec_bytes())->0;
            if is_query(top, QueryMethod::Ping) {
                Some(id_reply(tid, engine.node_id))
            } else if is_query(top, QueryMethod::FindNode) {
                let target = match query_subject(top, QueryMethod::FindNode) {
                    Some(s) => id_of(s),
                    None => zero_id(),
                };
                Some(find_node_reply(tid, engine.node_id, engine.routing_table, target))
            } else if is_query(top, QueryMethod::GetPeers) {
                match query_subject(top, QueryMethod::GetPeers) {
                    Some(s) => Some(
                        get_peers_reply(
                            tid,
                            engine.node_id,
                            token_of(compact_of(from), engine.token_manager.current()),
                            engine.routing_table,
                            engine.peer_store,
                            id_of(s),
                            store_now,
                        ),
                    ),
                    None => None,
                }
            } else if is_query(top, QueryMethod::AnnouncePeer) {
                if is_announcement(top) {
                    Some(id_reply(tid, engine.node_id))
                } else {
                    None
                }
            } else if is_query(top, QueryMethod::SampleInfohashes) {
                Some(
                    sample_reply(
                        tid,
                        engine.node_id,
                        samples,
                        engine.peer_store.peers().len() as usize,
                    ),
                )
            } else {
                None
            }
        },
        None => None,
    }
}

/// The peers after a message, at time `now` of the store.
pub open spec fn peers_after(engine: CrawlerEngine, data: Seq<u8>, from: SocketAddr, now: u32) -> Map<
    Seq<u8>,
    Seq<PeerEntry>,
> {
    let peers = engine.peer_store.peers();
    if announces(engine.token_manager, data, from) {
        let args = args_of(decoded(data)->0);
        let infohash = id_entry(args, "info_hash".spec_bytes())->0;
        peers.insert(
            infohash,
            list_with(list_of(peers, infohash), compact_of(announced_addr(args, from)), now),
        )
    } else {
        peers
    }
}

/// The buckets of a crawler after it heard from a node: the node comes in while there are fewer than
/// `max_nodes`, else one that is known is noted as seen and no other comes in.
pub open spec fn crawled(
    buckets: Seq<BucketModel>,
    own: [u8; 20],
    e: RoutingEntry,
    max_nodes: usize,
) -> Seq<BucketModel> {
    if node_total(buckets) < max_nodes {
        table_with(buckets, own, e).0
    } else {
        table_touched(buckets, e.addr, e.last_seen)
    }
}

/// However often it hears from nodes, a crawler has no more of them than it may have, or than it had
/// already.
pub proof fn law_crawler_keeps_within_its_nodes(
    buckets: Seq<BucketModel>,
    own: [u8; 20],
    e: RoutingEntry,
    max_nodes: usize,
)
    requires
        valid_buckets(buckets),
    ensures
        node_total(crawled(buckets, own, e, max_nodes)) <= max_nodes || node_total(
            crawled(buckets, own, e, max_nodes),
        ) == node_total(buckets),
{
    law_insert_keeps_valid(buckets, own, e);
    law_touching_keeps_the_number(buckets, e.addr, e.last_seen);
}

/// The routing table after a message, at time `now` of the table.
pub open spec fn buckets_after(
    engine: CrawlerEngine,
    data: Seq<u8>,
    from: SocketAddr,
    now: u32,
) -> Seq<BucketModel> {
    if announces(engine.token_manager, data, from) {
        let id = id_of(id_entry(args_of(decoded(data)->0), "id".spec_bytes())->0);
        crawled(
            engine.routing_table.buckets(),
            engine.routing_table.own(),
            RoutingEntry { id, addr: compact_of(from), last_seen: now, failures: 0 },
            engine.config.max_nodes,
        )
    } else {
        engine.routing_table.buckets()
    }
}

/// The state after a message.
pub open spec fn state_after(engine: CrawlerEngine, data: Seq<u8>, from: SocketAddr) -> CrawlerState {
    CrawlerState {
        messages_received: (engine.state.messages_received + 1) as u64,
        peers_collected: if announces(engine.token_manager, data, from) {
            (engine.state.peers_collected + 1) as u64
        } else {
            engine.state.peers_collected
        },
        ..engine.state
    }
}

/// Whether `handled` is what a message leads to and `after` is the crawler after it.
pub open spec fn follows(
    before: CrawlerEngine,
    after: CrawlerEngine,
    handled: Handled,
    data: Seq<u8>,
    from: SocketAddr,
    table_now: u32,
    store_now: u32,
    samples: Seq<Infohash>,
) -> bool {
    &&& match handled.reply {
        Some(bytes) => reply_to(before, data, from, store_now, samples) == Some(bytes@),
        None => reply_to(before, data, from, store_now, samples) is None,
    }
    &&& match handled.infohash {
        Some(ih) => infohash_in(data) == Some(ih@),
        None => infohash_in(data) is None,
    }
    &&& after.config == before.config
    &&& after.seen_infohashes == before.seen_infohashes
    &&& after.node_id == before.node_id
    &&& after.token_manager == before.token_manager
    &&& after.state == state_after(before, data, from)
    &&& after.peer_store.peers() == peers_after(before, data, from, store_now)
    &&& after.routing_table.buckets() == buckets_after(before, data, from, table_now)
    &&& after.routing_table.own() == before.routing_table.own()
}

/// Whether a message asks for a sample of infohashes.
pub open spec fn asks_for_sample(data: Seq<u8>) -> bool {
    decoded(data) matches Some(top) && is_query(top, QueryMethod::SampleInfohashes)
}

/// Whether `samples` is a sample of the infohashes of a store.
pub open spec fn is_sample(store: DhtStore, samples: Seq<Infohash>) -> bool {
    &&& samples.len() == at_most(
        ANSWER_SAMPLES as int,
        store.peers().len() as int,
    )
    &&& samples.no_duplicates()
    &&& forall|i: int| 0 <= i < samples.len() ==> store.peers().contains_key((#[trigger] samples[i])@)
}

/// The text of a progress report.
pub open spec fn progress_text(state: CrawlerState, table_size: usize) -> Seq<char> {
    "已收集 "@ + decimal_text(state.infohashes_collected as nat) + " infohash, "@ + decimal_text(
        state.peers_collected as nat,
    ) + " peers, 路由表 "@ + decimal_text(table_size as nat) + " 节点"@
}

/// Whether `after` is the crawler after a message was about an infohash at the given times, and
/// `events` tell of it: that it was seen, and after every hundredth one how far the crawler has got.
/// An infohash that was seen before is no news, and once the crawler has all that it may collect, none
/// is.
pub open spec fn noted(
    before: CrawlerEngine,
    after: CrawlerEngine,
    events: Seq<Event>,
    infohash: Infohash,
    now: Instant,
    seen_at: u64,
) -> bool {
    &&& after.config == before.config
    &&& after.node_id == before.node_id
    &&& after.routing_table == before.routing_table
    &&& after.peer_store == before.peer_store
    &&& after.token_manager == before.token_manager
    &&& if before.state.infohashes_collected >= before.config.max_infohashes
        || before.seen_infohashes.may_contain(infohash) {
        &&& after.seen_infohashes == before.seen_infohashes
        &&& after.state == before.state
        &&& events.len() == 0
    } else {
        let count = before.state.infohashes_collected + 1;
        &&& after.seen_infohashes.size() == before.seen_infohashes.size()
        &&& after.seen_infohashes.hashes() == before.seen_infohashes.hashes()
        &&& after.seen_infohashes.set_bits() == before.seen_infohashes.set_bits().union(
            positions(infohash, before.seen_infohashes.hashes(), before.seen_infohashes.size()),
        )
        &&& after.seen_infohashes.insertions() == before.seen_infohashes.insertions() + 1
        &&& after.state == (CrawlerState {
            infohashes_collected: count as u64,
            last_crawl_at: Some(now),
            ..before.state
        })
        &&& events.len() == if count % 100 == 0 {
            2nat
        } else {
            1
        }
        &&& events[0] matches Event::InfohashSeen { infohash: i, source: s, seen_at: t } && i
            == infohash && s@ == "dht-crawler"@ && t == seen_at
        &&& count % 100 == 0 ==> (events[1] matches Event::CrawlProgress {
            nodes_crawled,
            infohashes_collected,
            peers_collected,
            message,
        } && nodes_crawled == before.state.messages_received && infohashes_collected == count
            && peers_collected == before.state.peers_collected && message@ == progress_text(
            after.state,
            node_total(before.routing_table.buckets()) as usize,
        ))
    }
}

impl CrawlerEngine {
    /// What holds of every crawler.
    pub open spec fn wf(&self) -> bool {
        &&& self.seen_infohashes.wf()
        &&& self.routing_table.wf()
        &&& self.peer_store.wf()
    }

    /// Whether another message can be counted.
    pub open spec fn has_room(&self) -> bool {
        &&& self.state.messages_received < u64::MAX
        &&& self.state.peers_collected < u64::MAX
        &&& node_total(self.routing_table.buckets()) < usize::MAX
        &&& peer_total(self.peer_store.peers()) < usize::MAX
    }

    /// A crawler with a random identifier that knows nothing yet.
    pub fn new(config: CrawlerConfig) -> (r: CrawlerEngine)
        ensures
            r.wf(),
            r.config == config,
            r.state.is_initial(),
            r.routing_table.own() == r.node_id,
            node_total(r.routing_table.buckets()) == 0,
            r.peer_store.peers() == Map::<Seq<u8>, Seq<PeerEntry>>::empty(),
            r.seen_infohashes.set_bits() == Set::<int>::empty(),
            r.seen_infohashes.insertions() == 0,
    {
        let node_id: [u8; 20] = Self::generate_node_id();
        let routing_table: RoutingTable = RoutingTable::new(node_id);
        proof {
            reveal_with_fuel(node_total, 3);
            assert(routing_table.buckets().drop_last() =~= Seq::empty());
        }
        Self::with_shared_state(
            config,
            routing_table,
            DhtStore::new(),
            TokenManager::new(),
            node_id,
        )
    }

    /// A crawler that goes on with what another node of the DHT knows.
    pub fn with_shared_state(
        config: CrawlerConfig,
        routing_table: RoutingTable,
        peer_store: DhtStore,
        token_manager: TokenManager,
        node_id: [u8; 20],
    ) -> (r: CrawlerEngine)
        requires
            routing_table.wf(),
            peer_store.wf(),
        ensures
            r.wf(),
            r.config == config,
            r.state.is_initial(),
            r.node_id == node_id,
            r.routing_table == routing_table,
            r.peer_store == peer_store,
            r.token_manager == token_manager,
            r.seen_infohashes.set_bits() == Set::<int>::empty(),
            r.seen_infohashes.insertions() == 0,
    {
        CrawlerEngine {
            config,
            state: CrawlerState::default(),
            seen_infohashes: BloomFilter::default(),
            node_id,
            routing_table,
            peer_store,
            token_manager,
        }
    }

    /// A random identifier: the crawler does not know its own address.
    fn generate_node_id() -> [u8; 20] {
        random_id()
    }

    /// The ping to a bootstrap node with the given transaction.
    pub fn bootstrap_message(&self, tid: &[u8]) -> (r: Vec<u8>)
        ensures
            r@ == encoding(
                query_tree(tid@, QueryMethod::Ping, ping_args(self.node_id@)),
            ),
    {
        DhtMessage::build_ping(tid, &self.node_id)
    }

    /// The ping to a bootstrap node, with a random transaction of two bytes.
    pub fn bootstrap_ping(&self) -> (r: Vec<u8>)
        ensures
            exists|tid: Seq<u8>|
                tid.len() == 2 && r@ == encoding(
                    #[trigger] query_tree(tid, QueryMethod::Ping, ping_args(self.node_id@)),
                ),
    {
        let tid: Vec<u8> = random_bytes(2);
        self.bootstrap_message(tid.as_slice())
    }

    /// Notes a bootstrap node that was pinged. Its identifier is not known yet, so a random one
    /// stands for it.
    pub fn add_bootstrap_node(&mut self, addr: &SocketAddr)
        requires
            old(self).wf(),
            old(self).has_room(),
        ensures
            final(self).wf(),
            exists|id: [u8; 20], now: Instant|
                final(self).routing_table.buckets() == #[trigger] crawled(
                    old(self).routing_table.buckets(),
                    old(self).routing_table.own(),
                    RoutingEntry {
                        id,
                        addr: compact_of(*addr),
                        last_seen: secs_since(old(self).routing_table.start(), now),
                        failures: 0,
                    },
                    old(self).config.max_nodes,
                ),
            final(self).routing_table.own() == old(self).routing_table.own(),
            final(self).routing_table.start() == old(self).routing_table.start(),
            final(self).peer_store == old(self).peer_store,
            final(self).state == old(self).state,
            final(self).token_manager == old(self).token_manager,
            final(self).seen_infohashes == old(self).seen_infohashes,
            final(self).node_id == old(self).node_id,
            final(self).config == old(self).config,
    {
        let id: [u8; 20] = random_id();
        let now: u32 = self.routing_table.now_secs();
        self.hear_from(id, CompactAddr::from_socket(addr), now);
    }

    /// Notes a node that was heard from.
    fn hear_from(&mut self, id: [u8; 20], addr: CompactAddr, now: u32)
        requires
            old(self).wf(),
            node_total(old(self).routing_table.buckets()) < usize::MAX,
        ensures
            final(self).wf(),
            final(self).routing_table.buckets() == crawled(
                old(self).routing_table.buckets(),
                old(self).routing_table.own(),
                RoutingEntry { id, addr, last_seen: now, failures: 0 },
                old(self).config.max_nodes,
            ),
            final(self).routing_table.own() == old(self).routing_table.own(),
            final(self).routing_table.start() == old(self).routing_table.start(),
            final(self).peer_store == old(self).peer_store,
            final(self).state == old(self).state,
            final(self).token_manager == old(self).token_manager,
            final(self).seen_infohashes == old(self).seen_infohashes,
            final(self).node_id == old(self).node_id,
            final(self).config == old(self).config,
    {
        if self.routing_table.len() < self.config.max_nodes {
            let _ = self.routing_table.insert_at(id, addr, now);
        } else {
            let _ = self.routing_table.touch_at(&addr, now);
        }
    }

    /// Stores an announcement whose token is good.
    fn store_announcement(
        &mut self,
        id: [u8; 20],
        infohash: Infohash,
        peer: CompactAddr,
        node: CompactAddr,
        table_now: u32,
        store_now: u32,
    )
        requires
            old(self).wf(),
            old(self).state.peers_collected < u64::MAX,
            node_total(old(self).routing_table.buckets()) < usize::MAX,
            peer_total(old(self).peer_store.peers()) < usize::MAX,
        ensures
            final(self).wf(),
            final(self).config == old(self).config,
            final(self).seen_infohashes == old(self).seen_infohashes,
            final(self).node_id == old(self).node_id,
            final(self).token_manager == old(self).token_manager,
            final(self).state == (CrawlerState {
                peers_collected: (old(self).state.peers_collected + 1) as u64,
                ..old(self).state
            }),
            final(self).peer_store.peers() == old(self).peer_store.peers().insert(
                infohash@,
                list_with(list_of(old(self).peer_store.peers(), infohash@), peer, store_now),
            ),
            final(self).routing_table.own() == old(self).routing_table.own(),
            final(self).routing_table.buckets() == crawled(
                old(self).routing_table.buckets(),
                old(self).routing_table.own(),
                RoutingEntry { id, addr: node, last_seen: table_now, failures: 0 },
                old(self).config.max_nodes,
            ),
    {
        self.peer_store.announce_at(infohash, peer, store_now);
        self.hear_from(id, node, table_now);
        self.state.peers_collected = self.state.peers_collected + 1;
    }

    /// Answers a query that was parsed from `data`.
    fn answer(
        &mut self,
        data: &[u8],
        query: Query,
        from: &SocketAddr,
        table_now: u32,
        store_now: u32,
        samples: &Vec<Infohash>,
    ) -> (r: Handled)
        requires
            old(self).wf(),
            old(self).has_room(),
            decoded(data@) matches Some(top) && query.says(top),
        ensures
            final(self).wf(),
            follows(
                *old(self),
                *final(self),
                r,
                data@,
                *from,
                table_now,
                store_now,
                samples@,
            ),
    {
        let ghost before = *self;
        let ghost top = decoded(data@)->0;
        self.state.messages_received = self.state.messages_received + 1;
        proof {
            assert forall|m: QueryMethod| #[trigger] is_query(top, m) implies m == query.method by {
                lemma_one_method(top, m, query.method);
            }
        }
        let from_compact: CompactAddr = CompactAddr::from_socket(from);
        match query.method {
            QueryMethod::Ping => {
                let reply: Vec<u8> = DhtMessage::build_ping_response(
                    query.tid.as_slice(),
                    &self.node_id,
                );
                Handled { reply: Some(reply), infohash: None }
            },
            QueryMethod::FindNode => {
                let target: [u8; 20] = match query.subject {
                    Some(target) => target,
                    None => [0u8; 20],
                };
                proof {
                    lemma_id_of(target);
                    if query.subject is None {
                        assert(target@ =~= Seq::new(20, |i: int| 0u8));
                    }
                }
                let reply: Vec<u8> = answer_find_node(
                    query.tid.as_slice(),
                    &self.node_id,
                    &self.routing_table,
                    &target,
                );
                Handled { reply: Some(reply), infohash: None }
            },
            QueryMethod::GetPeers => {
                let ih: Infohash = match query.subject {
                    Some(ih) => ih,
                    None => {
                        return Handled { reply: None, infohash: None };
                    },
                };
                proof {
                    lemma_id_of(ih);
                }
                let token: Token = self.token_manager.generate(&from_compact);
                let reply: Vec<u8> = answer_get_peers(
                    query.tid.as_slice(),
                    &self.node_id,
                    &token,
                    &self.routing_table,
                    &self.peer_store,
                    &ih,
                    store_now,
                );
                Handled { reply: Some(reply), infohash: Some(ih) }
            },
            QueryMethod::AnnouncePeer => {
                match DhtMessage::parse_announce_peer(data) {
                    Some((tid, params)) => {
                        let reply: Vec<u8> = DhtMessage::build_announce_peer_response(
                            tid.as_slice(),
                            &self.node_id,
                        );
                        if self.token_manager.verify(&from_compact, params.token.as_slice()) {
                            let peer: SocketAddr = listening_addr(&params, from);
                            proof {
                                lemma_id_of(params.id);
                                assert(peer == announced_addr(args_of(top), *from));
                            }
                            let peer_compact: CompactAddr = CompactAddr::from_socket(&peer);
                            self.store_announcement(
                                params.id,
                                params.info_hash,
                                peer_compact,
                                from_compact,
                                table_now,
                                store_now,
                            );
                            assert(announces(before.token_manager, data@, *from));
                        } else {
                            assert(!announces(before.token_manager, data@, *from));
                        }
                        Handled { reply: Some(reply), infohash: Some(params.info_hash) }
                    },
                    None => Handled { reply: None, infohash: None },
                }
            },
            QueryMethod::SampleInfohashes => {
                let reply: Vec<u8> = answer_sample(
                    query.tid.as_slice(),
                    &self.node_id,
                    samples,
                    self.peer_store.total_infohashes(),
                );
                Handled { reply: Some(reply), infohash: None }
            },
        }
    }

    /// Handles a message at the given times of the routing table and the store, with the given
    /// sample for a query that asks for one.
    pub fn handle_message_at(
        &mut self,
        data: &[u8],
        from: &SocketAddr,
        table_now: u32,
        store_now: u32,
        samples: &Vec<Infohash>,
    ) -> (r: Handled)
        requires
            old(self).wf(),
            old(self).has_room(),
        ensures
            final(self).wf(),
            follows(
                *old(self),
                *final(self),
                r,
                data@,
                *from,
                table_now,
                store_now,
                samples@,
            ),
    {
        match DhtMessage::parse_query(data) {
            Some((tid, method, subject)) => {
                let query: Query = Query { tid, method, subject };
                self.answer(data, query, from, table_now, store_now, samples)
            },
            None => {
                self.state.messages_received = self.state.messages_received + 1;
                proof {
                    if let Some(top) = decoded(data@) {
                        assert(!is_query(top, QueryMethod::AnnouncePeer));
                    }
                }
                Handled { reply: None, infohash: None }
            },
        }
    }

    /// Handles a message. The clock and the sample drawn are up to chance.
    pub fn handle_message(&mut self, data: &[u8], from: &SocketAddr) -> (r: Handled)
        requires
            old(self).wf(),
            old(self).has_room(),
        ensures
            final(self).wf(),
            exists|now: Instant, samples: Seq<Infohash>| #[trigger]
                follows(
                    *old(self),
                    *final(self),
                    r,
                    data@,
                    *from,
                    secs_since(old(self).routing_table.start(), now),
                    secs_since(old(self).peer_store.start(), now),
                    samples,
                ) && (asks_for_sample(data@) ==> is_sample(old(self).peer_store, samples)),
    {
        let now: Instant = instant_now();
        let table_now: u32 = self.routing_table.secs_at(&now);
        let store_now: u32 = self.peer_store.secs_at(&now);
        match DhtMessage::parse_query(data) {
            Some((tid, method, subject)) => {
                let samples: Vec<Infohash> = if method == QueryMethod::SampleInfohashes {
                    self.peer_store.sample_infohashes(ANSWER_SAMPLES).0
                } else {
                    Vec::new()
                };
                let query: Query = Query { tid, method, subject };
                proof {
                    let top = decoded(data@)->0;
                    assert(query.says(top));
                    if asks_for_sample(data@) {
                        lemma_one_method(top, QueryMethod::SampleInfohashes, method);
                    }
                }
                self.answer(data, query, from, table_now, store_now, &samples)
            },
            None => {
                assert(!asks_for_sample(data@));
                self.handle_message_at(data, from, table_now, store_now, &Vec::new())
            },
        }
    }

    /// Notes an infohash that a message was about, at the given times. If it was not seen before,
    /// returns the events that tell of it: that it was seen, and after every hundredth one how far
    /// the crawler has got.
    pub fn note_infohash_at(&mut self, infohash: Infohash, now: Instant, seen_at: u64) -> (r: Vec<
        Event,
    >)
        requires
            old(self).wf(),
            old(self).state.infohashes_collected < u64::MAX,
            old(self).seen_infohashes.insertions() < usize::MAX,
        ensures
            final(self).wf(),
            old(self).state.infohashes_collected < old(self).config.max_infohashes
                ==> final(self).seen_infohashes.may_contain(infohash),
            noted(*old(self), *final(self), r@, infohash, now, seen_at),
    {
        let mut events: Vec<Event> = Vec::new();
        if self.state.infohashes_collected >= self.config.max_infohashes as u64
            || self.seen_infohashes.contains(&infohash) {
            return events;
        }
        self.seen_infohashes.insert(&infohash);
        self.state.infohashes_collected = self.state.infohashes_collected + 1;
        self.state.last_crawl_at = Some(now);
        events.push(Event::InfohashSeen { infohash, source: "dht-crawler".to_string(), seen_at });
        if self.state.infohashes_collected % PROGRESS_STEP == 0 {
            let state: CrawlerState = self.snapshot();
            let mut message: String = "已收集 ".to_string();
            append_decimal(&mut message, state.infohashes_collected);
            message.append(" infohash, ");
            append_decimal(&mut message, state.peers_collected);
            message.append(" peers, 路由表 ");
            append_decimal(&mut message, state.routing_table_size as u64);
            message.append(" 节点");
            assert(message@ =~= progress_text(self.state, state.routing_table_size));
            events.push(
                Event::CrawlProgress {
                    nodes_crawled: state.messages_received,
                    infohashes_collected: state.infohashes_collected,
                    peers_collected: state.peers_collected,
                    message,
                },
            );
        }
        events
    }

    /// Notes an infohash that a message was about, as of now. Returns the events that tell of it,
    /// none if it was seen before.
    pub fn note_infohash(&mut self, infohash: Infohash) -> (r: Vec<Event>)
        requires
            old(self).wf(),
            old(self).state.infohashes_collected < u64::MAX,
            old(self).seen_infohashes.insertions() < usize::MAX,
        ensures
            final(self).wf(),
            old(self).state.infohashes_collected < old(self).config.max_infohashes
                ==> final(self).seen_infohashes.may_contain(infohash),
            exists|now: Instant, seen_at: u64| #[trigger]
                noted(*old(self), *final(self), r@, infohash, now, seen_at),
    {
        let now: Instant = instant_now();
        self.note_infohash_at(infohash, now, unix_nanos())
    }

    /// Notes that a message could not be received.
    pub fn note_receive_error(&mut self)
        requires
            old(self).state.errors < u64::MAX,
        ensures
            *final(self) == (CrawlerEngine {
                state: CrawlerState {
                    errors: (old(self).state.errors + 1) as u64,
                    ..old(self).state
                },
                ..*old(self)
            }),
    {
        self.state.errors = self.state.errors + 1;
    }

    /// Notes that the port to listen on could not be had: the crawler does not run.
    pub fn note_bind_error(&mut self)
        requires
            old(self).state.errors < u64::MAX,
        ensures
            *final(self) == (CrawlerEngine {
                state: CrawlerState {
                    running: false,
                    errors: (old(self).state.errors + 1) as u64,
                    ..old(self).state
                },
                ..*old(self)
            }),
    {
        self.state.running = false;
        self.state.errors = self.state.errors + 1;
    }

    /// Whether this is what maintenance makes of `before`: nodes and peers that have expired at the
    /// given times of the table and the store are gone, and the token secret has changed to `fresh` if
    /// that was due at `now`.
    pub open spec fn is_maintained(
        &self,
        before: CrawlerEngine,
        table_now: u32,
        store_now: u32,
        fresh: [u8; 32],
        now: Instant,
    ) -> bool {
        &&& self.routing_table.buckets() == evicted(before.routing_table.buckets(), table_now)
        &&& self.routing_table.own() == before.routing_table.own()
        &&& self.routing_table.start() == before.routing_table.start()
        &&& self.peer_store.peers() == without_expired(before.peer_store.peers(), store_now)
        &&& self.peer_store.start() == before.peer_store.start()
        &&& before.token_manager.rotates_to(
            self.token_manager,
            nanos_since(before.token_manager.rotated_at(), now),
            fresh,
            now,
        )
        &&& self.config == before.config
        &&& self.state == before.state
        &&& self.node_id == before.node_id
        &&& self.seen_infohashes == before.seen_infohashes
    }

    /// Drops nodes and peers that have expired at the given times of the table and the store, and
    /// changes the token secret to `fresh` if that is due at `now`.
    pub fn maintain_at(&mut self, table_now: u32, store_now: u32, fresh: [u8; 32], now: Instant)
        requires
            old(self).wf(),
        ensures
            final(self).wf(),
            final(self).is_maintained(*old(self), table_now, store_now, fresh, now),
    {
        let _ = self.routing_table.evict_expired_at(table_now);
        let _ = self.peer_store.evict_expired_at(store_now);
        self.token_manager.rotate_at(fresh, now);
    }

    /// Drops nodes and peers that have expired, and changes the token secret if that is due.
    pub fn maintain(&mut self)
        requires
            old(self).wf(),
        ensures
            final(self).wf(),
            exists|fresh: [u8; 32], now: Instant| #[trigger]
                final(self).is_maintained(
                    *old(self),
                    secs_since(old(self).routing_table.start(), now),
                    secs_since(old(self).peer_store.start(), now),
                    fresh,
                    now,
                ),
    {
        let now: Instant = instant_now();
        let table_now: u32 = self.routing_table.secs_at(&now);
        let store_now: u32 = self.peer_store.secs_at(&now);
        let fresh: [u8; 32] = TokenManager::generate_secret();
        self.maintain_at(table_now, store_now, fresh, now);
    }

    /// The state together with the sizes of the routing table and the store.
    fn snapshot(&self) -> (r: CrawlerState)
        requires
            self.wf(),
        ensures
            r == (CrawlerState {
                routing_table_size: node_total(self.routing_table.buckets()) as usize,
                stored_peers: peer_total(self.peer_store.peers()) as usize,
                stored_infohashes: self.peer_store.peers().len() as usize,
                ..self.state
            }),
            r.routing_table_size == node_total(self.routing_table.buckets()),
            r.stored_peers == peer_total(self.peer_store.peers()),
            r.stored_infohashes == self.peer_store.peers().len(),
    {
        let mut state: CrawlerState = self.state;
        state.routing_table_size = self.routing_table.len();
        state.stored_peers = self.peer_store.total_peers();
        state.stored_infohashes = self.peer_store.total_infohashes();
        state
    }
}

impl Crawler for CrawlerEngine {
    open spec fn valid(&self) -> bool {
        self.wf()
    }

    open spec fn may_start(&self) -> bool {
        self.config.enabled
    }

    open spec fn running(&self) -> bool {
        self.state.running
    }

    fn name(&self) -> (r: &str)
        ensures
            r@ == "dht-crawler"@,
    {
        "dht-crawler"
    }

    fn start(&mut self) -> (r: bool)
        ensures
            !r ==> *final(self) == *old(self),
            r ==> final(self).state.started_at is Some && *final(self) == (CrawlerEngine {
                state: CrawlerState {
                    running: true,
                    started_at: final(self).state.started_at,
                    ..old(self).state
                },
                ..*old(self)
            }),
    {
        if !self.config.enabled || self.state.running {
            return false;
        }
        self.state.running = true;
        self.state.started_at = Some(instant_now());
        true
    }

    fn stop(&mut self) -> (r: bool)
        ensures
            *final(self) == (CrawlerEngine {
                state: CrawlerState { running: false, ..old(self).state },
                ..*old(self)
            }),
    {
        if !self.state.running {
            return false;
        }
        self.state.running = false;
        true
    }

    fn is_running(&self) -> bool {
        self.state.running
    }

    fn state(&self) -> (r: CrawlerState)
        ensures
            r.routing_table_size == node_total(self.routing_table.buckets()),
            r.stored_peers == peer_total(self.peer_store.peers()),
            r.stored_infohashes == self.peer_store.peers().len(),
            r == (CrawlerState {
                routing_table_size: r.routing_table_size,
                stored_peers: r.stored_peers,
                stored_infohashes: r.stored_infohashes,
                ..self.state
            }),
    {
        self.snapshot()
    }
}

/// An announcement without a token for its sender is answered, and nothing of it is kept.
pub proof fn law_refused_announcement_is_not_stored(
    before: CrawlerEngine,
    after: CrawlerEngine,
    handled: Handled,
    data: Seq<u8>,
    from: SocketAddr,
    table_now: u32,
    store_now: u32,
    samples: Seq<Infohash>,
)
    requires
        follows(before, after, handled, data, from, table_now, store_now, samples),
        decoded(data) matches Some(top) && is_announcement(top),
        !announces(before.token_manager, data, from),
    ensures
        handled.reply is Some,
        handled.infohash is Some,
        after.peer_store.peers() == before.peer_store.peers(),
        after.routing_table.buckets() == before.routing_table.buckets(),
        after.state.peers_collected == before.state.peers_collected,
{
    let top = decoded(data)->0;
    assert forall|m: QueryMethod| #[trigger] is_query(top, m) implies m == QueryMethod::AnnouncePeer by {
        lemma_one_method(top, m, QueryMethod::AnnouncePeer);
    }
}

/// An announcement with the token that an answer to `get_peers` gave its sender is accepted, until
/// the secret has changed twice.
pub proof fn law_token_of_an_answer_is_accepted(
    answering: TokenManager,
    checking: TokenManager,
    data: Seq<u8>,
    from: SocketAddr,
)
    requires
        checking == answering || checking.previous() == answering.current(),
        decoded(data) matches Some(top) && is_announcement(top) && bytes_entry(
            args_of(top),
            "token".spec_bytes(),
        ) == Some(token_of(compact_of(from), answering.current())),
    ensures
        announces(checking, data, from),
{
}

/// A peer whose announcement was accepted is in the answers about its infohash until the
/// announcement expires, unless more peers are known than an answer holds.
pub proof fn law_accepted_peer_is_answered(
    before: CrawlerEngine,
    after: CrawlerEngine,
    handled: Handled,
    data: Seq<u8>,
    from: SocketAddr,
    table_now: u32,
    store_now: u32,
    samples: Seq<Infohash>,
    now: u32,
)
    requires
        before.wf(),
        follows(before, after, handled, data, from, table_now, store_now, samples),
        announces(before.token_manager, data, from),
        store_now <= now <= store_now + PEER_TTL_SECS,
        list_of(after.peer_store.peers(), infohash_in(data)->0).filter(fresh(now)).len()
            <= ANSWER_PEERS,
    ensures
        answer_peers(after.peer_store, infohash_in(data)->0, now).contains(
            announced_addr(args_of(decoded(data)->0), from),
        ),
{
    let top = decoded(data)->0;
    let args = args_of(top);
    let infohash = id_entry(args, "info_hash".spec_bytes())->0;
    let addr = announced_addr(args, from);
    if is_query(top, QueryMethod::GetPeers) {
        lemma_one_method(top, QueryMethod::GetPeers, QueryMethod::AnnouncePeer);
    }
    let peers = before.peer_store.peers();
    lemma_store_lists(before.peer_store, infohash);
    law_announced_peer_is_found(peers, infohash, compact_of(addr), store_now, now);
    lemma_compact_of(addr);
    let found = addrs_of(list_of(after.peer_store.peers(), infohash).filter(fresh(now)));
    let k = choose|k: int| 0 <= k < found.len() && found[k] == compact_of(addr);
    assert(found.take(found.len() as int) =~= found);
    assert(answer_peers(after.peer_store, infohash, now)[k] == addr);
}

/// Whether a message is the query `tid` for `name`.
pub open spec fn is_query_named(data: Seq<u8>, tid: Seq<u8>, name: Seq<u8>) -> bool {
    &&& decoded(data) matches Some(top)
    &&& bytes_entry(top, "y".spec_bytes()) == Some("q".spec_bytes())
    &&& bytes_entry(top, "t".spec_bytes()) == Some(tid)
    &&& bytes_entry(top, "q".spec_bytes()) == Some(name)
}

/// Whether `s` stands under `key` of the arguments of a query.
pub open spec fn has_argument(data: Seq<u8>, key: Seq<u8>, s: Seq<u8>) -> bool {
    &&& decoded(data) matches Some(top)
    &&& entry(top, "a".spec_bytes()) matches Some(args)
    &&& bytes_entry(args, key) == Some(s)
}

proof fn lemma_only_method(data: Seq<u8>, method: QueryMethod)
    requires
        decoded(data) matches Some(top) && is_query(top, method),
    ensures
        forall|m: QueryMethod| #[trigger] is_query(decoded(data)->0, m) ==> m == method,
{
    let top = decoded(data)->0;
    assert forall|m: QueryMethod| #[trigger] is_query(top, m) implies m == method by {
        lemma_one_method(top, m, method);
    }
}

/// A `ping` is answered with the transaction of the query and the own identifier, and changes nothing
/// but the number of messages.
pub proof fn law_ping_gets_an_answer(
    before: CrawlerEngine,
    after: CrawlerEngine,
    handled: Handled,
    data: Seq<u8>,
    from: SocketAddr,
    table_now: u32,
    store_now: u32,
    samples: Seq<Infohash>,
    tid: Seq<u8>,
)
    requires
        follows(before, after, handled, data, from, table_now, store_now, samples),
        is_query_named(data, tid, "ping".spec_bytes()),
        before.state.messages_received < u64::MAX,
    ensures
        handled.reply is Some,
        is_read_as(
            handled.reply->0@,
            tid,
            before.node_id@,
            Seq::empty(),
            Seq::empty(),
            None,
        ),
        handled.infohash is None,
        after.peer_store.peers() == before.peer_store.peers(),
        after.routing_table.buckets() == before.routing_table.buckets(),
        after.state.messages_received == before.state.messages_received + 1,
        after.state.peers_collected == before.state.peers_collected,
{
    lemma_only_method(data, QueryMethod::Ping);
    assert(is_query(decoded(data)->0, QueryMethod::Ping));
    law_ping_is_answered(tid, before.node_id);
}

/// A `find_node` is answered with the eight healthy nodes of the table closest to its target.
pub proof fn law_find_node_gets_an_answer(
    before: CrawlerEngine,
    after: CrawlerEngine,
    handled: Handled,
    data: Seq<u8>,
    from: SocketAddr,
    table_now: u32,
    store_now: u32,
    samples: Seq<Infohash>,
    tid: Seq<u8>,
    target: [u8; 20],
)
    requires
        follows(before, after, handled, data, from, table_now, store_now, samples),
        is_query_named(data, tid, "find_node".spec_bytes()),
        has_argument(data, "target".spec_bytes(), target@),
    ensures
        handled.reply is Some,
        exists|picked: Seq<RoutingEntry>| #[trigger]
            are_closest(healthy_entries(before.routing_table), target, 8, picked) && is_read_as(
                handled.reply->0@,
                tid,
                before.node_id@,
                Seq::empty(),
                as_read(picked),
                None,
            ),
        handled.infohash is None,
        after.peer_store.peers() == before.peer_store.peers(),
        after.routing_table.buckets() == before.routing_table.buckets(),
{
    lemma_only_method(data, QueryMethod::FindNode);
    let top = decoded(data)->0;
    assert(is_query(top, QueryMethod::FindNode));
    law_method_names();
    assert(query_subject(top, QueryMethod::FindNode) == Some(target@));
    lemma_id_of(target);
    law_find_node_is_answered_with_the_closest(
        tid,
        before.node_id,
        before.routing_table,
        target,
    );
}

/// A `get_peers` tells of its infohash, and is answered with a token for its sender and with the first
/// fifty peers that were announced for the infohash within the half hour, or with the closest nodes if
/// there are none.
pub proof fn law_get_peers_gets_an_answer(
    before: CrawlerEngine,
    after: CrawlerEngine,
    handled: Handled,
    data: Seq<u8>,
    from: SocketAddr,
    table_now: u32,
    store_now: u32,
    samples: Seq<Infohash>,
    tid: Seq<u8>,
    infohash: Infohash,
)
    requires
        follows(before, after, handled, data, from, table_now, store_now, samples),
        is_query_named(data, tid, "get_peers".spec_bytes()),
        has_argument(data, "info_hash".spec_bytes(), infohash@),
        token_of(compact_of(from), before.token_manager.current()).len() <= 0xFFFF_FFFF,
    ensures
        handled.reply is Some,
        handled.infohash is Some && handled.infohash->0@ == infohash@,
        ({
            let token = token_of(compact_of(from), before.token_manager.current());
            let live = live_announcements(before.peer_store, infohash@, store_now);
            let count = if live.len() < 50 {
                live.len() as int
            } else {
                50
            };
            if live.len() > 0 {
                is_read_as(
                    handled.reply->0@,
                    tid,
                    before.node_id@,
                    live.take(count).map_values(|e: PeerEntry| e.addr.socket()).filter(
                        |a: SocketAddr| a.ip is V4 && a.port != 0,
                    ),
                    Seq::empty(),
                    Some(token),
                )
            } else {
                exists|picked: Seq<RoutingEntry>| #[trigger]
                    are_closest(healthy_entries(before.routing_table), infohash, 8, picked)
                        && is_read_as(
                        handled.reply->0@,
                        tid,
                        before.node_id@,
                        Seq::empty(),
                        as_read(picked),
                        Some(token),
                    )
            }
        }),
        after.peer_store.peers() == before.peer_store.peers(),
        after.routing_table.buckets() == before.routing_table.buckets(),
{
    lemma_only_method(data, QueryMethod::GetPeers);
    let top = decoded(data)->0;
    assert(is_query(top, QueryMethod::GetPeers));
    law_method_names();
    assert(query_subject(top, QueryMethod::GetPeers) == Some(infohash@));
    lemma_id_of(infohash);
    law_get_peers_is_answered(
        tid,
        before.node_id,
        token_of(compact_of(from), before.token_manager.current()),
        before.routing_table,
        before.peer_store,
        infohash,
        store_now,
    );
}

/// An announcement with a good token is answered, tells of its infohash, and has its peer stored under
/// the infohash as announced now; what is stored under other infohashes stays. The node that sent it
/// comes into the table as any node does that is heard from.
pub proof fn law_announcement_is_kept(
    before: CrawlerEngine,
    after: CrawlerEngine,
    handled: Handled,
    data: Seq<u8>,
    from: SocketAddr,
    table_now: u32,
    store_now: u32,
    samples: Seq<Infohash>,
    tid: Seq<u8>,
    id: [u8; 20],
    infohash: Infohash,
    token: Seq<u8>,
)
    requires
        before.wf(),
        before.has_room(),
        follows(before, after, handled, data, from, table_now, store_now, samples),
        is_query_named(data, tid, "announce_peer".spec_bytes()),
        has_argument(data, "id".spec_bytes(), id@),
        has_argument(data, "info_hash".spec_bytes(), infohash@),
        has_argument(data, "token".spec_bytes(), token),
        token == token_of(compact_of(from), before.token_manager.current()) || token == token_of(
            compact_of(from),
            before.token_manager.previous(),
        ),
    ensures
        handled.reply is Some,
        is_read_as(
            handled.reply->0@,
            tid,
            before.node_id@,
            Seq::empty(),
            Seq::empty(),
            None,
        ),
        handled.infohash is Some && handled.infohash->0@ == infohash@,
        after.peer_store.peers().contains_key(infohash@),
        after.peer_store.peers()[infohash@].contains(
            PeerEntry {
                addr: compact_of(announced_addr(args_of(decoded(data)->0), from)),
                last_seen: store_now,
            },
        ),
        after.peer_store.peers().remove(infohash@) == before.peer_store.peers().remove(infohash@),
        after.routing_table.buckets() == crawled(
            before.routing_table.buckets(),
            before.routing_table.own(),
            (RoutingEntry { id, addr: compact_of(from), last_seen: table_now, failures: 0 }),
            before.config.max_nodes,
        ),
        after.state.messages_received == before.state.messages_received + 1,
        after.state.peers_collected == before.state.peers_collected + 1,
{
    lemma_only_method(data, QueryMethod::AnnouncePeer);
    let top = decoded(data)->0;
    assert(is_query(top, QueryMethod::AnnouncePeer));
    assert(is_announcement(top));
    assert(announces(before.token_manager, data, from));
    lemma_id_of(id);
    law_ping_is_answered(tid, before.node_id);
    let peers = before.peer_store.peers();
    lemma_store_lists(before.peer_store, infohash@);
    let addr = compact_of(announced_addr(args_of(top), from));
    law_announcement_is_noted(
        list_of(peers, infohash@),
        addr,
        store_now,
        PeerEntry { addr, last_seen: store_now },
    );
    assert(after.peer_store.peers().remove(infohash@) =~= peers.remove(infohash@));
}

/// A `sample_infohashes` is answered with the sample that was drawn and the number of infohashes.
pub proof fn law_sample_gets_an_answer(
    before: CrawlerEngine,
    after: CrawlerEngine,
    handled: Handled,
    data: Seq<u8>,
    from: SocketAddr,
    table_now: u32,
    store_now: u32,
    samples: Seq<Infohash>,
    tid: Seq<u8>,
)
    requires
        follows(before, after, handled, data, from, table_now, store_now, samples),
        is_query_named(data, tid, "sample_infohashes".spec_bytes()),
    ensures
        asks_for_sample(data),
        handled.reply is Some,
        handled.reply->0@ == sample_reply(
            tid,
            before.node_id,
            samples,
            before.peer_store.peers().len() as usize,
        ),
        handled.infohash is None,
        after.peer_store.peers() == before.peer_store.peers(),
        after.routing_table.buckets() == before.routing_table.buckets(),
{
    lemma_only_method(data, QueryMethod::SampleInfohashes);
    assert(is_query(decoded(data)->0, QueryMethod::SampleInfohashes));
}

/// What is no query, or a query for something else, gets no answer and leaves nothing but the number
/// of messages changed.
pub proof fn law_other_messages_get_no_answer(
    before: CrawlerEngine,
    after: CrawlerEngine,
    handled: Handled,
    data: Seq<u8>,
    from: SocketAddr,
    table_now: u32,
    store_now: u32,
    samples: Seq<Infohash>,
)
    requires
        follows(before, after, handled, data, from, table_now, store_now, samples),
        before.state.messages_received < u64::MAX,
        decoded(data) is None || bytes_entry(decoded(data)->0, "y".spec_bytes()) != Some(
            "q".spec_bytes(),
        ) || ({
            let q = bytes_entry(decoded(data)->0, "q".spec_bytes());
            &&& q != Some("ping".spec_bytes())
            &&& q != Some("find_node".spec_bytes())
            &&& q != Some("get_peers".spec_bytes())
            &&& q != Some("announce_peer".spec_bytes())
            &&& q != Some("sample_infohashes".spec_bytes())
        }),
    ensures
        handled.reply is None,
        handled.infohash is None,
        after.peer_store.peers() == before.peer_store.peers(),
        after.routing_table.buckets() == before.routing_table.buckets(),
        after.state.messages_received == before.state.messages_received + 1,
        after.state.peers_collected == before.state.peers_collected,
{
    law_method_names();
}

/// A crawler that has as many nodes as it may have takes in nobody new; one with room takes in a node
/// whose bucket has room.
pub proof fn law_full_crawler_takes_in_nobody(
    buckets: Seq<BucketModel>,
    own: [u8; 20],
    e: RoutingEntry,
    max_nodes: usize,
)
    ensures
        node_total(buckets) >= max_nodes && !knows(buckets, e.addr) ==> crawled(
            buckets,
            own,
            e,
            max_nodes,
        ) == buckets,
        node_total(buckets) < max_nodes ==> crawled(buckets, own, e, max_nodes) == table_with(
            buckets,
            own,
            e,
        ).0,
        node_total(buckets) >= max_nodes && knows(buckets, e.addr) ==> exists|f: RoutingEntry| #[trigger]
            all_entries(crawled(buckets, own, e, max_nodes)).contains(f) && f.addr == e.addr
                && f.last_seen == e.last_seen && f.failures == 0,
{
    law_heard_node_is_fresh(buckets, e.addr, e.last_seen, e);
    let touched = table_touched(buckets, e.addr, e.last_seen);
    if node_total(buckets) >= max_nodes && knows(buckets, e.addr) {
        let f = choose|f: RoutingEntry| #[trigger]
            all_entries(touched).contains(f) && f.addr == e.addr && f.last_seen == e.last_seen
                && f.failures == 0;
        assert(all_entries(crawled(buckets, own, e, max_nodes)).contains(f));
    }
}

/// An infohash that was not seen before is told of, is counted, and is no news from then on.
pub proof fn law_new_infohash_is_told(
    before: CrawlerEngine,
    after: CrawlerEngine,
    events: Seq<Event>,
    infohash: Infohash,
    now: Instant,
    seen_at: u64,
)
    requires
        noted(before, after, events, infohash, now, seen_at),
        before.state.infohashes_collected < u64::MAX,
    ensures
        before.state.infohashes_collected < before.config.max_infohashes
            && !before.seen_infohashes.may_contain(infohash) ==> {
            &&& events.len() >= 1
            &&& events[0] is InfohashSeen
            &&& events[0]->InfohashSeen_infohash == infohash
            &&& after.state.infohashes_collected == before.state.infohashes_collected + 1
            &&& after.seen_infohashes.may_contain(infohash)
        },
        before.seen_infohashes.may_contain(infohash) ==> events.len() == 0
            && after.state.infohashes_collected == before.state.infohashes_collected,
        before.state.infohashes_collected >= before.config.max_infohashes ==> events.len() == 0
            && after.state.infohashes_collected == before.state.infohashes_collected,
{
}

/// Maintenance drops just the nodes that failed three times or were not seen for an hour and the
/// announcements that are older than half an hour.
pub proof fn law_maintenance(
    before: CrawlerEngine,
    after: CrawlerEngine,
    table_now: u32,
    store_now: u32,
    fresh: [u8; 32],
    now: Instant,
    e: RoutingEntry,
    infohash: Seq<u8>,
    p: PeerEntry,
)
    requires
        after.is_maintained(before, table_now, store_now, fresh, now),
    ensures
        all_entries(after.routing_table.buckets()).contains(e) <==> all_entries(
            before.routing_table.buckets(),
        ).contains(e) && e.failures <= 2 && table_now - e.last_seen <= 3600,
        after.peer_store.peers().contains_key(infohash)
            && after.peer_store.peers()[infohash].contains(p)
            <==> before.peer_store.peers().contains_key(infohash)
            && before.peer_store.peers()[infohash].contains(p) && store_now - p.last_seen <= 1800,
        nanos_since(before.token_manager.rotated_at(), now) < 300_000_000_000 ==> after.token_manager
            == before.token_manager,
        nanos_since(before.token_manager.rotated_at(), now) >= 300_000_000_000 ==> after.token_manager.current()
            == fresh && after.token_manager.previous() == before.token_manager.current(),
{
    law_eviction(before.routing_table.buckets(), table_now, e);
    law_cleanup_of_the_store(before.peer_store.peers(), store_now, infohash, p);
}

/// No message changes the settings, the identifier, the secrets of the tokens or the infohashes that
/// were seen.
pub proof fn law_messages_leave_the_rest_alone(
    before: CrawlerEngine,
    after: CrawlerEngine,
    handled: Handled,
    data: Seq<u8>,
    from: SocketAddr,
    table_now: u32,
    store_now: u32,
    samples: Seq<Infohash>,
)
    requires
        follows(before, after, handled, data, from, table_now, store_now, samples),
    ensures
        after.config == before.config,
        after.node_id == before.node_id,
        after.token_manager == before.token_manager,
        after.seen_infohashes == before.seen_infohashes,
        after.routing_table.own() == before.routing_table.own(),
        after.state.running == before.state.running,
        after.state.errors == before.state.errors,
        after.state.infohashes_collected == before.state.infohashes_collected,
        after.state.started_at == before.state.started_at,
{
}

/// Neither noting an infohash nor maintenance changes anything but what it is for.
pub proof fn law_other_work_leaves_the_rest_alone(
    before: CrawlerEngine,
    after: CrawlerEngine,
    events: Seq<Event>,
    infohash: Infohash,
    now: Instant,
    seen_at: u64,
    table_now: u32,
    store_now: u32,
    fresh: [u8; 32],
)
    ensures
        noted(before, after, events, infohash, now, seen_at) ==> {
            &&& after.config == before.config && after.node_id == before.node_id
            &&& after.routing_table == before.routing_table
            &&& after.peer_store == before.peer_store
            &&& after.token_manager == before.token_manager
            &&& after.state.messages_received == before.state.messages_received
            &&& after.state.peers_collected == before.state.peers_collected
            &&& after.state.running == before.state.running
        },
        after.is_maintained(before, table_now, store_now, fresh, now) ==> {
            &&& after.config == before.config && after.node_id == before.node_id
            &&& after.state == before.state
            &&& after.seen_infohashes == before.seen_infohashes
            &&& after.routing_table.own() == before.routing_table.own()
        },
{
}

/// A sample has up to so many different infohashes of the store as an answer holds, and all of them if
/// there are no more.
pub proof fn law_what_a_sample_is(store: DhtStore, samples: Seq<Infohash>, i: int, j: int)
    requires
        is_sample(store, samples),
        0 <= i < j < samples.len(),
    ensures
        samples.len() <= 64,
        store.peers().len() <= 64 ==> samples.len() == store.peers().len(),
        store.peers().len() > 64 ==> samples.len() == 64,
        samples[i] != samples[j],
        store.peers().contains_key(samples[i]@),
{
}

} // verus!
