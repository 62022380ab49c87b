//! Keeping what is known of the DHT over a restart.
//!
//! The file is the caller's: [`DhtPersistence::export_state`] gives what to write, and
//! [`DhtPersistence::restore`] takes what was read.

use crate::clock::{
    elapsed_nanos, instant_now, nanos_of, nanos_since, secs_since, unix_nanos, NANOS_PER_SEC,
};
use crate::digest::{
    hex_bytes, hex_decode, hex_encode, hex_text, is_hex, law_hex_round_trip, law_hex_text_is_unique,
};
use crate::discoverers::dht::routing_table::{
    all_entries, compact_of, law_compact_addr_injective, law_insert_keeps_valid,
    law_inserted_node_is_found, law_insertion_leaves_the_others, law_who_comes_in, lemma_compact_of,
    node_total, table_with, valid_buckets,
    CompactAddr, RoutingEntry, RoutingTable,
};
use crate::discoverers::dht::routing_table::BucketModel;
use crate::discoverers::dht::store::{
    addrs_of, announced_by, fresh, lemma_filter_list, lemma_store_valid, list_len, list_of, list_with,
    peer_total, valid_list, DhtStore, PeerEntry,
};
use crate::net::SocketAddr;
use crate::seqs::{at_most, lemma_first_where_at};
use crate::text::{chars_of, occurs_at, part_at, sub_text};
use crate::types::Infohash;
use crate::vecmap::{distinct_keys, lemma_map_of, lemma_weight_remove, map_of, VecMap};
use std::time::Instant;
use vstd::prelude::*;
use vstd::string::*;

verus! {

/// How many peers of an infohash are kept.
pub const MAX_SAVED_PEERS: usize = 256;

/// Whether, where and how often the state is kept.
#[derive(Debug)]
pub struct PersistenceConfig {
    pub path: String,
    /// Seconds between two times.
    pub interval: u64,
    pub enabled: bool,
}

impl Default for PersistenceConfig {
    fn default() -> (r: PersistenceConfig)
        ensures
            r.path@ == "data/dht_state.json"@,
            r.interval == 300,
            r.enabled,
    {
        PersistenceConfig {
            path: "data/dht_state.json".to_string(),
            interval: 300,
            enabled: true,
        }
    }
}

/// What is known of the DHT.
pub struct DhtState {
    /// Nodes: their identifiers in hexadecimal, and their addresses as text.
    pub routing_nodes: VecMap<String, String>,
    /// Peers, by infohash in hexadecimal.
    pub peers: VecMap<String, Vec<SocketAddr>>,
    /// Seconds since the Unix epoch.
    pub saved_at: u64,
}

impl Default for DhtState {
    fn default() -> (r: DhtState)
        ensures
            r.routing_nodes@ == Map::<Seq<char>, String>::empty(),
            r.peers@ == Map::<Seq<char>, Vec<SocketAddr>>::empty(),
            r.saved_at == 0,
    {
        DhtState { routing_nodes: VecMap::new(), peers: VecMap::new(), saved_at: 0 }
    }
}

/// The text of a node's address.
pub open spec fn addr_text(addr: CompactAddr) -> Seq<char> {
    match addr {
        CompactAddr::V4(buf) => "v4:"@ + hex_text(buf@),
        CompactAddr::V6(buf) => "v6:"@ + hex_text(buf@),
    }
}

/// The IPv4 address made of six bytes.
pub open spec fn v4_of(b: Seq<u8>) -> CompactAddr {
    CompactAddr::V4([b[0], b[1], b[2], b[3], b[4], b[5]])
}

/// The IPv6 address made of eighteen bytes.
#[verifier::opaque]
pub open spec fn v6_of(b: Seq<u8>) -> CompactAddr {
    CompactAddr::V6(
        [
            b[0],
            b[1],
            b[2],
            b[3],
            b[4],
            b[5],
            b[6],
            b[7],
            b[8],
            b[9],
            b[10],
            b[11],
            b[12],
            b[13],
            b[14],
            b[15],
            b[16],
            b[17],
        ],
    )
}

/// The address that a text stands for.
pub open spec fn addr_in(text: Seq<char>) -> Option<CompactAddr> {
    let h = text.skip(3);
    if occurs_at(text, "v4:"@, 0) {
        if is_hex(h) && hex_bytes(h).len() == 6 {
            Some(v4_of(hex_bytes(h)))
        } else {
            None
        }
    } else if occurs_at(text, "v6:"@, 0) {
        if is_hex(h) && hex_bytes(h).len() == 18 {
            Some(v6_of(hex_bytes(h)))
        } else {
            None
        }
    } else {
        None
    }
}

/// The identifier that a text stands for.
pub open spec fn id_in(text: Seq<char>) -> Option<Seq<u8>> {
    if is_hex(text) && hex_bytes(text).len() == 20 {
        Some(hex_bytes(text))
    } else {
        None
    }
}

/// The text of nodes, by the text of their identifiers.
pub open spec fn nodes_as_text(nodes: Seq<RoutingEntry>) -> Map<Seq<char>, Seq<char>>
    decreases nodes.len(),
{
    if nodes.len() == 0 {
        Map::empty()
    } else {
        nodes_as_text(nodes.drop_last()).insert(
            hex_text(nodes.last().id@),
            addr_text(nodes.last().addr),
        )
    }
}

/// The texts of a map.
pub open spec fn texts_in(m: Map<Seq<char>, String>) -> Map<Seq<char>, Seq<char>> {
    m.map_values(|s: String| s@)
}

/// The socket addresses of compact ones.
pub open spec fn sockets(addrs: Seq<CompactAddr>) -> Seq<SocketAddr> {
    addrs.map_values(|a: CompactAddr| a.socket())
}

/// The peers of an infohash that are kept at time `now` of the store.
pub open spec fn saved_peers(list: Seq<PeerEntry>, now: u32) -> Seq<SocketAddr> {
    sockets(
        addrs_of(list.filter(fresh(now))).take(
            at_most(MAX_SAVED_PEERS as int, list.filter(fresh(now)).len() as int),
        ),
    )
}

/// Whether `m` has the peers of every infohash of a store.
pub open spec fn saves_peers(
    store: Map<Seq<u8>, Seq<PeerEntry>>,
    m: Map<Seq<char>, Vec<SocketAddr>>,
    now: u32,
) -> bool {
    &&& forall|ih: Infohash| #[trigger]
        store.contains_key(ih@) ==> m.contains_key(hex_text(ih@)) && m[hex_text(ih@)]@
            == saved_peers(store[ih@], now)
    &&& forall|k: Seq<char>| #[trigger]
        m.contains_key(k) ==> exists|ih: Infohash| #[trigger]
            store.contains_key(ih@) && k == hex_text(ih@)
}

/// The buckets after the nodes of a list were read and inserted at time `now`.
pub open spec fn nodes_restored(
    buckets: Seq<BucketModel>,
    own: [u8; 20],
    entries: Seq<(String, String)>,
    now: u32,
) -> Seq<BucketModel>
    decreases entries.len(),
{
    if entries.len() == 0 {
        buckets
    } else {
        let before = nodes_restored(buckets, own, entries.drop_last(), now);
        let e = entries.last();
        match (id_in(e.0@), addr_in(e.1@)) {
            (Some(id), Some(addr)) => table_with(before, own, node_of(id, addr, now)).0,
            _ => before,
        }
    }
}

/// A node that was seen at time `now`.
pub open spec fn node_of(id: Seq<u8>, addr: CompactAddr, now: u32) -> RoutingEntry {
    RoutingEntry { id: array_of(id), addr, last_seen: now, failures: 0 }
}

/// Twenty bytes as an array.
pub open spec fn array_of(b: Seq<u8>) -> [u8; 20] {
    choose|a: [u8; 20]| a@ == b
}

/// How many nodes of a list can be read.
pub open spec fn readable(entries: Seq<(String, String)>) -> nat
    decreases entries.len(),
{
    if entries.len() == 0 {
        0
    } else {
        readable(entries.drop_last()) + if id_in(entries.last().0@) is Some && addr_in(
            entries.last().1@,
        ) is Some {
            1nat
        } else {
            0
        }
    }
}

/// The peers after some were announced for an infohash at time `now`.
pub open spec fn announced_all(
    peers: Map<Seq<u8>, Seq<PeerEntry>>,
    infohash: Seq<u8>,
    addrs: Seq<SocketAddr>,
    now: u32,
) -> Map<Seq<u8>, Seq<PeerEntry>>
    decreases addrs.len(),
{
    if addrs.len() == 0 {
        peers
    } else {
        let before = announced_all(peers, infohash, addrs.drop_last(), now);
        before.insert(
            infohash,
            list_with(
                list_of(before, infohash),
                compact_of(addrs.last()),
                now,
            ),
        )
    }
}

/// The peers after those of a list were announced at time `now`.
pub open spec fn peers_restored(
    peers: Map<Seq<u8>, Seq<PeerEntry>>,
    entries: Seq<(String, Vec<SocketAddr>)>,
    now: u32,
) -> Map<Seq<u8>, Seq<PeerEntry>>
    decreases entries.len(),
{
    if entries.len() == 0 {
        peers
    } else {
        let before = peers_restored(peers, entries.drop_last(), now);
        match id_in(entries.last().0@) {
            Some(id) => announced_all(before, id, entries.last().1@, now),
            None => before,
        }
    }
}

/// How many peers a list has.
pub open spec fn listed_peers(entries: Seq<(String, Vec<SocketAddr>)>) -> nat
    decreases entries.len(),
{
    if entries.len() == 0 {
        0
    } else {
        listed_peers(entries.drop_last()) + entries.last().1@.len()
    }
}

/// Keeping the state.
pub struct DhtPersistence {
    pub config: PersistenceConfig,
    pub started: Instant,
    /// When the state was last kept, in nanoseconds since this was set up.
    pub last_save: Option<u64>,
}

/// The text of a node's address.
fn text_of_addr(addr: &CompactAddr) -> (r: String)
    ensures
        r@ == addr_text(*addr),
{
    match addr {
        CompactAddr::V4(buf) => {
            let mut text: String = "v4:".to_string();
            text.append(hex_encode(buf).as_str());
            text
        },
        CompactAddr::V6(buf) => {
            let mut text: String = "v6:".to_string();
            text.append(hex_encode(buf).as_str());
            text
        },
    }
}

/// Reads an identifier.
fn read_id(text: &str) -> (r: Option<[u8; 20]>)
    ensures
        match r {
            Some(id) => id_in(text@) == Some(id@),
            None => id_in(text@) is None,
        },
{
    match hex_decode(text) {
        Ok(bytes) => {
            if bytes.len() == 20 {
                let id: [u8; 20] = crate::bytes::take_20(bytes.as_slice(), 0);
                assert(id@ =~= bytes@);
                Some(id)
            } else {
                None
            }
        },
        Err(_) => None,
    }
}

/// Reads the address of a node.
fn read_addr(text: &str) -> (r: Option<CompactAddr>)
    ensures
        r == addr_in(text@),
{
    proof {
        reveal_strlit("v4:");
        reveal_strlit("v6:");
        reveal(v6_of);
    }
    let chars: Vec<char> = chars_of(text);
    let v4: Vec<char> = chars_of("v4:");
    let v6: Vec<char> = chars_of("v6:");
    let is_v4: bool = part_at(&chars, &v4, 0);
    let is_v6: bool = part_at(&chars, &v6, 0);
    if !is_v4 && !is_v6 {
        return None;
    }
    let rest: String = sub_text(text, 3, chars.len());
    assert(rest@ =~= text@.skip(3));
    match hex_decode(rest.as_str()) {
        Ok(b) => {
            if is_v4 {
                if b.len() == 6 {
                    let r: CompactAddr = CompactAddr::V4([b[0], b[1], b[2], b[3], b[4], b[5]]);
                    Some(r)
                } else {
                    None
                }
            } else if b.len() == 18 {
                let r: CompactAddr = CompactAddr::V6(
                    [
                        b[0],
                        b[1],
                        b[2],
                        b[3],
                        b[4],
                        b[5],
                        b[6],
                        b[7],
                        b[8],
                        b[9],
                        b[10],
                        b[11],
                        b[12],
                        b[13],
                        b[14],
                        b[15],
                        b[16],
                        b[17],
                    ],
                );
                Some(r)
            } else {
                None
            }
        },
        Err(_) => None,
    }
}

impl DhtPersistence {
    /// Nothing was kept yet.
    pub fn new(config: PersistenceConfig) -> (r: DhtPersistence)
        ensures
            r.config == config,
            r.last_save is None,
    {
        DhtPersistence { config, started: instant_now(), last_save: None }
    }

    /// Whether it is time to keep the state, at time `now`.
    pub open spec fn is_due(&self, now: u64) -> bool {
        self.config.enabled && (self.last_save matches Some(t) ==> now - t >= self.config.interval
            * NANOS_PER_SEC)
    }

    /// Whether it is time to keep the state, at time `now`.
    pub fn should_save_at(&self, now: u64) -> (r: bool)
        ensures
            r == self.is_due(now),
    {
        if !self.config.enabled {
            return false;
        }
        match self.last_save {
            Some(t) => {
                let interval: u128 = nanos_of(self.config.interval);
                if t > now {
                    false
                } else {
                    (now - t) as u128 >= interval
                }
            },
            None => true,
        }
    }

    /// Whether it is time to keep the state.
    pub fn should_save(&self) -> (r: bool)
        ensures
            exists|now: Instant| r == #[trigger] self.is_due(nanos_since(self.started, now)),
    {
        self.should_save_at(elapsed_nanos(&self.started))
    }

    /// Notes that the state was kept at time `now`.
    pub fn mark_saved_at(&mut self, now: u64)
        ensures
            *final(self) == (DhtPersistence { last_save: Some(now), ..*old(self) }),
    {
        self.last_save = Some(now);
    }

    /// Notes that the state was kept just now.
    pub fn mark_saved(&mut self)
        ensures
            exists|now: Instant|
                *final(self) == (DhtPersistence {
                    last_save: Some(#[trigger] nanos_since(old(self).started, now)),
                    ..*old(self)
                }),
    {
        let now: u64 = elapsed_nanos(&self.started);
        self.mark_saved_at(now);
    }

    /// What is to be kept, `None` if nothing is. `store_now` is the time of the store, `saved_at` are
    /// seconds since the Unix epoch.
    pub fn export_state_at(
        &self,
        table: &RoutingTable,
        store: &DhtStore,
        store_now: u32,
        saved_at: u64,
    ) -> (r: Option<DhtState>)
        ensures
            r is Some <==> self.config.enabled,
            r matches Some(s) ==> {
                &&& texts_in(s.routing_nodes@) == nodes_as_text(all_entries(table.buckets()))
                &&& saves_peers(store.peers(), s.peers@, store_now)
                &&& s.saved_at == saved_at
            },
    {
        if !self.config.enabled {
            return None;
        }
        let routing_nodes: VecMap<String, String> = export_nodes(table);
        let peers: VecMap<String, Vec<SocketAddr>> = export_peers(store, store_now);
        Some(DhtState { routing_nodes, peers, saved_at })
    }

    /// What is to be kept, `None` if nothing is.
    pub fn export_state(&self, table: &RoutingTable, store: &DhtStore) -> (r: Option<DhtState>)
        ensures
            r is Some <==> self.config.enabled,
            r matches Some(s) ==> {
                &&& texts_in(s.routing_nodes@) == nodes_as_text(all_entries(table.buckets()))
                &&& exists|now: Instant| #[trigger]
                    saves_peers(store.peers(), s.peers@, secs_since(store.start(), now))
            },
    {
        let store_now: u32 = store.now_secs();
        self.export_state_at(table, store, store_now, unix_nanos() / NANOS_PER_SEC)
    }

    /// Inserts the nodes and announces the peers of a state, at the given times of the table and the
    /// store. What cannot be read is left out. Returns how many nodes could be read.
    pub fn restore_at(
        &self,
        state: &DhtState,
        table: &mut RoutingTable,
        store: &mut DhtStore,
        table_now: u32,
        store_now: u32,
    ) -> (r: usize)
        requires
            old(table).wf(),
            old(store).wf(),
            node_total(old(table).buckets()) + state.routing_nodes.seq().len() <= usize::MAX,
            peer_total(old(store).peers()) + listed_peers(state.peers.seq()) <= usize::MAX,
        ensures
            final(table).wf(),
            final(store).wf(),
            final(store).start() == old(store).start(),
            final(table).own() == old(table).own(),
            final(table).start() == old(table).start(),
            final(table).buckets() == nodes_restored(
                old(table).buckets(),
                old(table).own(),
                state.routing_nodes.seq(),
                table_now,
            ),
            final(store).peers() == peers_restored(
                old(store).peers(),
                state.peers.seq(),
                store_now,
            ),
            r == readable(state.routing_nodes.seq()),
    {
        let restored: usize = restore_nodes(state, table, table_now);
        restore_peers(state, store, store_now);
        restored
    }

    /// Inserts the nodes and announces the peers of a state. Returns how many nodes could be read.
    pub fn restore(&self, state: &DhtState, table: &mut RoutingTable, store: &mut DhtStore) -> (r:
        usize)
        requires
            old(table).wf(),
            old(store).wf(),
            node_total(old(table).buckets()) + state.routing_nodes.seq().len() <= usize::MAX,
            peer_total(old(store).peers()) + listed_peers(state.peers.seq()) <= usize::MAX,
        ensures
            final(table).wf(),
            final(store).wf(),
            final(store).start() == old(store).start(),
            final(table).own() == old(table).own(),
            final(table).start() == old(table).start(),
            exists|now: Instant|
                final(table).buckets() == #[trigger] nodes_restored(
                    old(table).buckets(),
                    old(table).own(),
                    state.routing_nodes.seq(),
                    secs_since(old(table).start(), now),
                ),
            exists|now: Instant|
                final(store).peers() == #[trigger] peers_restored(
                    old(store).peers(),
                    state.peers.seq(),
                    secs_since(old(store).start(), now),
                ),
            r == readable(state.routing_nodes.seq()),
    {
        let table_now: u32 = table.now_secs();
        let store_now: u32 = store.now_secs();
        self.restore_at(state, table, store, table_now, store_now)
    }

    /// Where the state is kept.
    pub fn path(&self) -> (r: &str)
        ensures
            r@ == self.config.path@,
    {
        self.config.path.as_str()
    }
}

/// The nodes of a table as text.
fn export_nodes(table: &RoutingTable) -> (r: VecMap<String, String>)
    ensures
        texts_in(r@) == nodes_as_text(all_entries(table.buckets())),
{
    let nodes: Vec<RoutingEntry> = table.all_nodes();
    let ghost all = nodes@;
    let mut out: VecMap<String, String> = VecMap::new();
    let mut i: usize = 0;
    assert(texts_in(out@) =~= nodes_as_text(all.take(0)));
    while i < nodes.len()
        invariant
            i <= nodes@.len(),
            all == nodes@,
            texts_in(out@) == nodes_as_text(all.take(i as int)),
        decreases nodes@.len() - i,
    {
        let ghost before = out@;
        let key: String = hex_encode(&nodes[i].id);
        let value: String = text_of_addr(&nodes[i].addr);
        let ghost k = key@;
        let ghost v = value@;
        out.insert(key, value);
        i += 1;
        proof {
            assert(all.take(i as int).drop_last() =~= all.take(i - 1));
            assert(all.take(i as int).last() == all[i - 1]);
            assert(texts_in(out@) =~= texts_in(before).insert(k, v));
        }
    }
    assert(all.take(i as int) =~= all);
    out
}

/// The peers of a store, by infohash in hexadecimal.
fn export_peers(store: &DhtStore, now: u32) -> (r: VecMap<String, Vec<SocketAddr>>)
    ensures
        saves_peers(store.peers(), r@, now),
{
    let infohashes: Vec<Infohash> = store.all_infohashes();
    let mut out: VecMap<String, Vec<SocketAddr>> = VecMap::new();
    let mut i: usize = 0;
    while i < infohashes.len()
        invariant
            i <= infohashes@.len(),
            infohashes@.no_duplicates(),
            forall|ih: Infohash| #[trigger]
                infohashes@.contains(ih) <==> store.peers().contains_key(ih@),
            forall|j: int|
                0 <= j < i ==> out@.contains_key(hex_text((#[trigger] infohashes@[j])@))
                    && out@[hex_text(infohashes@[j]@)]@ == saved_peers(
                    store.peers()[infohashes@[j]@],
                    now,
                ),
            forall|k: Seq<char>| #[trigger]
                out@.contains_key(k) ==> exists|j: int|
                    0 <= j < i && k == hex_text((#[trigger] infohashes@[j])@),
        decreases infohashes@.len() - i,
    {
        let ghost before = out@;
        let infohash: Infohash = infohashes[i];
        assert(infohashes@.contains(infohashes@[i as int]));
        let addrs: Vec<SocketAddr> = saved_list(store, &infohash, now);
        let key: String = hex_encode(&infohash);
        out.insert(key, addrs);
        i += 1;
        proof {
            assert forall|j: int| 0 <= j < i implies out@.contains_key(
                hex_text((#[trigger] infohashes@[j])@),
            ) && out@[hex_text(infohashes@[j]@)]@ == saved_peers(
                store.peers()[infohashes@[j]@],
                now,
            ) by {
                if j < i - 1 && hex_text(infohashes@[j]@) == hex_text(infohash@) {
                    law_hex_text_is_unique(infohashes@[j]@, infohash@);
                    assert(infohashes@[j] =~= infohash);
                }
            }
            assert forall|k: Seq<char>| #[trigger] out@.contains_key(k) implies exists|j: int|
                0 <= j < i && k == hex_text((#[trigger] infohashes@[j])@) by {
                if k == hex_text(infohash@) {
                    assert(infohashes@[i - 1] == infohash);
                } else {
                    assert(before.contains_key(k));
                }
            }
        }
    }
    proof {
        assert forall|ih: Infohash| #[trigger] store.peers().contains_key(ih@) implies out@.contains_key(
            hex_text(ih@),
        ) && out@[hex_text(ih@)]@ == saved_peers(store.peers()[ih@], now) by {
            assert(infohashes@.contains(ih));
            let j = choose|j: int| 0 <= j < infohashes@.len() && infohashes@[j] == ih;
            assert(infohashes@[j]@ == ih@);
        }
        assert forall|k: Seq<char>| #[trigger] out@.contains_key(k) implies exists|ih: Infohash|
            #[trigger] store.peers().contains_key(ih@) && k == hex_text(ih@) by {
            let j = choose|j: int|
                0 <= j < infohashes@.len() && k == hex_text((#[trigger] infohashes@[j])@);
            assert(infohashes@.contains(infohashes@[j]));
            assert(store.peers().contains_key(infohashes@[j]@));
        }
    }
    out
}

/// The peers of an infohash that are kept.
fn saved_list(store: &DhtStore, infohash: &Infohash, now: u32) -> (r: Vec<SocketAddr>)
    requires
        store.peers().contains_key(infohash@),
    ensures
        r@ == saved_peers(store.peers()[infohash@], now),
{
    let found: Vec<CompactAddr> = store.get_peers_at(infohash, MAX_SAVED_PEERS, now);
    let mut out: Vec<SocketAddr> = Vec::with_capacity(found.len());
    let mut i: usize = 0;
    while i < found.len()
        invariant
            i <= found@.len(),
            out@ == sockets(found@).take(i as int),
        decreases found@.len() - i,
    {
        out.push(found[i].to_socket());
        i += 1;
        assert(out@ =~= sockets(found@).take(i as int));
    }
    assert(out@ =~= sockets(found@));
    out
}

/// Inserts the nodes of a state. Returns how many could be read.
fn restore_nodes(state: &DhtState, table: &mut RoutingTable, now: u32) -> (r: usize)
    requires
        old(table).wf(),
        node_total(old(table).buckets()) + state.routing_nodes.seq().len() <= usize::MAX,
    ensures
        final(table).wf(),
        final(table).own() == old(table).own(),
        final(table).start() == old(table).start(),
        final(table).buckets() == nodes_restored(
            old(table).buckets(),
            old(table).own(),
            state.routing_nodes.seq(),
            now,
        ),
        r == readable(state.routing_nodes.seq()),
{
    let n: usize = state.routing_nodes.len();
    let ghost entries = state.routing_nodes.seq();
    let mut restored: usize = 0;
    let mut i: usize = 0;
    assert(entries.take(0) =~= Seq::empty());
    while i < n
        invariant
            i <= n == entries.len(),
            entries == state.routing_nodes.seq(),
            table.wf(),
            table.own() == old(table).own(),
            table.start() == old(table).start(),
            table.buckets() == nodes_restored(
                old(table).buckets(),
                old(table).own(),
                entries.take(i as int),
                now,
            ),
            node_total(table.buckets()) <= node_total(old(table).buckets()) + i,
            node_total(old(table).buckets()) + n <= usize::MAX,
            restored == readable(entries.take(i as int)),
            restored <= i,
        decreases n - i,
    {
        proof {
            assert(entries.take(i + 1).drop_last() =~= entries.take(i as int));
            assert(entries.take(i + 1).last() == entries[i as int]);
        }
        let id: Option<[u8; 20]> = read_id(state.routing_nodes.key_at(i).as_str());
        let addr: Option<CompactAddr> = read_addr(state.routing_nodes.value_at(i).as_str());
        if let (Some(id), Some(addr)) = (id, addr) {
            proof {
                let a = array_of(id@);
                assert(a@ == id@);
                assert(a =~= id);
                table.lemma_insert_total(RoutingEntry { id, addr, last_seen: now, failures: 0 });
            }
            table.insert_at(id, addr, now);
            restored = restored + 1;
        }
        i += 1;
    }
    assert(entries.take(i as int) =~= entries);
    restored
}

/// Announces the peers of a state.
fn restore_peers(state: &DhtState, store: &mut DhtStore, now: u32)
    requires
        old(store).wf(),
        peer_total(old(store).peers()) + listed_peers(state.peers.seq()) <= usize::MAX,
    ensures
        final(store).wf(),
        final(store).start() == old(store).start(),
        final(store).peers() == peers_restored(old(store).peers(), state.peers.seq(), now),
{
    let n: usize = state.peers.len();
    let ghost entries = state.peers.seq();
    let mut i: usize = 0;
    assert(entries.take(0) =~= Seq::empty());
    while i < n
        invariant
            i <= n == entries.len(),
            entries == state.peers.seq(),
            store.wf(),
            store.start() == old(store).start(),
            store.peers() == peers_restored(old(store).peers(), entries.take(i as int), now),
            peer_total(store.peers()) <= peer_total(old(store).peers()) + listed_peers(
                entries.take(i as int),
            ),
            peer_total(old(store).peers()) + listed_peers(entries) <= usize::MAX,
        decreases n - i,
    {
        proof {
            assert(entries.take(i + 1).drop_last() =~= entries.take(i as int));
            assert(entries.take(i + 1).last() == entries[i as int]);
            lemma_listed_prefix(entries, i + 1);
        }
        if let Some(infohash) = read_id(state.peers.key_at(i).as_str()) {
            announce_all(store, infohash, state.peers.value_at(i), now);
        }
        i += 1;
    }
    assert(entries.take(i as int) =~= entries);
}

/// Announces peers for an infohash.
fn announce_all(store: &mut DhtStore, infohash: Infohash, addrs: &Vec<SocketAddr>, now: u32)
    requires
        old(store).wf(),
        peer_total(old(store).peers()) + addrs@.len() <= usize::MAX,
    ensures
        final(store).wf(),
        final(store).start() == old(store).start(),
        final(store).peers() == announced_all(old(store).peers(), infohash@, addrs@, now),
        peer_total(final(store).peers()) <= peer_total(old(store).peers()) + addrs@.len(),
{
    let mut i: usize = 0;
    assert(addrs@.take(0) =~= Seq::empty());
    while i < addrs.len()
        invariant
            i <= addrs@.len(),
            store.wf(),
            store.start() == old(store).start(),
            store.peers() == announced_all(
                old(store).peers(),
                infohash@,
                addrs@.take(i as int),
                now,
            ),
            peer_total(store.peers()) <= peer_total(old(store).peers()) + i,
            peer_total(old(store).peers()) + addrs@.len() <= usize::MAX,
        decreases addrs@.len() - i,
    {
        proof {
            assert(addrs@.take(i + 1).drop_last() =~= addrs@.take(i as int));
            assert(addrs@.take(i + 1).last() == addrs@[i as int]);
        }
        store.announce_at(infohash, CompactAddr::from_socket(&addrs[i]), now);
        i += 1;
    }
    assert(addrs@.take(i as int) =~= addrs@);
}

proof fn lemma_listed_prefix(entries: Seq<(String, Vec<SocketAddr>)>, i: int)
    requires
        0 <= i <= entries.len(),
    ensures
        listed_peers(entries.take(i)) <= listed_peers(entries),
    decreases entries.len() - i,
{
    if i < entries.len() {
        lemma_listed_prefix(entries, i + 1);
        assert(entries.take(i + 1).drop_last() =~= entries.take(i));
    } else {
        assert(entries.take(i) =~= entries);
    }
}

proof fn lemma_v4_read_back(buf: [u8; 6])
    ensures
        addr_in(addr_text(CompactAddr::V4(buf))) == Some(CompactAddr::V4(buf)),
{
    reveal_strlit("v4:");
    let text = addr_text(CompactAddr::V4(buf));
    law_hex_round_trip(buf@);
    assert(text.skip(3) =~= hex_text(buf@));
    assert(text.subrange(0, 3) =~= "v4:"@);
    lemma_v4_of(buf);
}

proof fn lemma_v6_read_back(buf: [u8; 18])
    ensures
        addr_in(addr_text(CompactAddr::V6(buf))) == Some(CompactAddr::V6(buf)),
{
    reveal_strlit("v4:");
    reveal_strlit("v6:");
    let text = addr_text(CompactAddr::V6(buf));
    law_hex_round_trip(buf@);
    assert(text.skip(3) =~= hex_text(buf@));
    assert(text.subrange(0, 3) =~= "v6:"@);
    assert(text.subrange(0, 3)[1] != "v4:"@[1]);
    lemma_v6_of(buf);
}

/// The bytes of an IPv6 address make up the address.
proof fn lemma_v6_of(buf: [u8; 18])
    ensures
        v6_of(buf@) == CompactAddr::V6(buf),
{
    reveal(v6_of);
    let b = buf@;
    assert([
        b[0],
        b[1],
        b[2],
        b[3],
        b[4],
        b[5],
        b[6],
        b[7],
        b[8],
        b[9],
        b[10],
        b[11],
        b[12],
        b[13],
        b[14],
        b[15],
        b[16],
        b[17],
    ] =~= buf);
}

/// The bytes of an IPv4 address make up the address.
proof fn lemma_v4_of(buf: [u8; 6])
    ensures
        v4_of(buf@) == CompactAddr::V4(buf),
{
    let b = buf@;
    assert([b[0], b[1], b[2], b[3], b[4], b[5]] =~= buf);
}

/// A node that was written is read back.
pub proof fn law_node_is_read_back(id: [u8; 20], addr: CompactAddr)
    ensures
        id_in(hex_text(id@)) == Some(id@),
        addr_in(addr_text(addr)) == Some(addr),
{
    law_hex_round_trip(id@);
    match addr {
        CompactAddr::V4(buf) => lemma_v4_read_back(buf),
        CompactAddr::V6(buf) => lemma_v6_read_back(buf),
    }
}

/// All nodes that were written can be read.
pub proof fn law_saved_nodes_are_readable(nodes: Seq<RoutingEntry>, k: Seq<char>)
    requires
        nodes_as_text(nodes).contains_key(k),
    ensures
        exists|i: int|
            0 <= i < nodes.len() && id_in(k) == Some((#[trigger] nodes[i]).id@) && addr_in(
                nodes_as_text(nodes)[k],
            ) == Some(nodes[i].addr),
    decreases nodes.len(),
{
    if nodes.len() > 0 {
        let last = nodes.last();
        if k == hex_text(last.id@) {
            law_node_is_read_back(last.id, last.addr);
            assert(nodes[nodes.len() - 1] == last);
        } else {
            let rest = nodes.drop_last();
            law_saved_nodes_are_readable(rest, k);
            let i = choose|i: int|
                0 <= i < rest.len() && id_in(k) == Some((#[trigger] rest[i]).id@) && addr_in(
                    nodes_as_text(rest)[k],
                ) == Some(rest[i].addr);
            assert(nodes[i] == rest[i]);
        }
    }
}

/// All nodes that were written are counted when they are read.
pub proof fn law_saved_nodes_are_counted(nodes: Seq<RoutingEntry>, entries: Seq<(String, String)>)
    requires
        distinct_keys(entries),
        texts_in(map_of(entries)) == nodes_as_text(nodes),
    ensures
        readable(entries) == entries.len(),
{
    lemma_map_of(entries);
    assert forall|i: int| 0 <= i < entries.len() implies id_in((#[trigger] entries[i]).0@) is Some
        && addr_in(entries[i].1@) is Some by {
        let k = entries[i].0@;
        assert(texts_in(map_of(entries)).contains_key(k));
        assert(texts_in(map_of(entries))[k] == entries[i].1@);
        law_saved_nodes_are_readable(nodes, k);
    }
    lemma_all_readable(entries);
}

proof fn lemma_all_readable(entries: Seq<(String, String)>)
    requires
        forall|i: int|
            0 <= i < entries.len() ==> id_in((#[trigger] entries[i]).0@) is Some && addr_in(
                entries[i].1@,
            ) is Some,
    ensures
        readable(entries) == entries.len(),
    decreases entries.len(),
{
    if entries.len() > 0 {
        let rest = entries.drop_last();
        assert forall|i: int| 0 <= i < rest.len() implies id_in((#[trigger] rest[i]).0@) is Some
            && addr_in(rest[i].1@) is Some by {
            assert(rest[i] == entries[i]);
        }
        lemma_all_readable(rest);
    }
}

/// The compact form of an address is found again.
proof fn lemma_compact_again(addr: CompactAddr)
    ensures
        compact_of(addr.socket()) == addr,
{
    lemma_compact_of(addr.socket());
    law_compact_addr_injective(compact_of(addr.socket()), addr);
}

/// Socket addresses stand for one list of compact addresses.
proof fn lemma_sockets_injective(a: Seq<CompactAddr>, b: Seq<CompactAddr>)
    requires
        sockets(a) == sockets(b),
    ensures
        a == b,
{
    assert(sockets(a).len() == a.len());
    assert(sockets(b).len() == b.len());
    assert forall|i: int| 0 <= i < a.len() implies a[i] == b[i] by {
        assert(sockets(a)[i] == a[i].socket());
        assert(sockets(b)[i] == b[i].socket());
        law_compact_addr_injective(a[i], b[i]);
    }
    assert(a =~= b);
}

/// Announcements of the given addresses at time `now`.
spec fn announced_now(addrs: Seq<CompactAddr>, now: u32) -> Seq<PeerEntry> {
    addrs.map_values(|a: CompactAddr| PeerEntry { addr: a, last_seen: now })
}

/// Announcing distinct addresses for a new infohash gives their list and changes no other.
proof fn lemma_announced_all(
    peers: Map<Seq<u8>, Seq<PeerEntry>>,
    infohash: Seq<u8>,
    addrs: Seq<CompactAddr>,
    now: u32,
)
    requires
        list_of(peers, infohash) == Seq::<PeerEntry>::empty(),
        addrs.no_duplicates(),
        addrs.len() <= MAX_SAVED_PEERS,
    ensures
        list_of(announced_all(peers, infohash, sockets(addrs), now), infohash) == announced_now(
            addrs,
            now,
        ),
        forall|k: Seq<u8>|
            k != infohash ==> #[trigger] list_of(
                announced_all(peers, infohash, sockets(addrs), now),
                k,
            ) == list_of(peers, k),
    decreases addrs.len(),
{
    if addrs.len() == 0 {
        assert(announced_now(addrs, now) =~= Seq::<PeerEntry>::empty());
    } else {
        let rest = addrs.drop_last();
        assert(sockets(addrs).drop_last() =~= sockets(rest));
        lemma_announced_all(peers, infohash, rest, now);
        let before = announced_all(peers, infohash, sockets(rest), now);
        let list = announced_now(rest, now);
        let last = addrs.last();
        lemma_compact_again(last);
        assert forall|j: int| 0 <= j < list.len() implies !announced_by(last)(#[trigger] list[j]) by {
            assert(addrs[j] != addrs[addrs.len() - 1]);
        }
        lemma_first_where_at(list, announced_by(last), list.len() as int);
        assert(list_with(list, last, now) =~= announced_now(addrs, now));
        let after = announced_all(peers, infohash, sockets(addrs), now);
        assert(after == before.insert(infohash, announced_now(addrs, now)));
        assert forall|k: Seq<u8>| k != infohash implies #[trigger] list_of(after, k) == list_of(
            peers,
            k,
        ) by {
            assert(list_of(after, k) == list_of(before, k));
        }
    }
}

/// Whether an entry has distinct peers, no more than are kept, under the text of an infohash.
spec fn is_saved(e: (String, Vec<SocketAddr>), infohash: Seq<u8>, addrs: Seq<CompactAddr>) -> bool {
    &&& infohash.len() == 20
    &&& e.0@ == hex_text(infohash)
    &&& e.1@ == sockets(addrs)
    &&& addrs.no_duplicates()
    &&& addrs.len() <= MAX_SAVED_PEERS
}

/// Whether an entry has distinct peers, no more than are kept, under the text of some infohash.
spec fn holds_saved(e: (String, Vec<SocketAddr>)) -> bool {
    exists|infohash: Seq<u8>, addrs: Seq<CompactAddr>| is_saved(e, infohash, addrs)
}

/// What is restored for an infohash is what its entry has, nothing if there is none.
proof fn lemma_peers_restored(
    entries: Seq<(String, Vec<SocketAddr>)>,
    infohash: Seq<u8>,
    addrs: Seq<CompactAddr>,
    now: u32,
)
    requires
        distinct_keys(entries),
        forall|i: int| 0 <= i < entries.len() ==> holds_saved(#[trigger] entries[i]),
    ensures
        ({
            let back = list_of(
                peers_restored(Map::<Seq<u8>, Seq<PeerEntry>>::empty(), entries, now),
                infohash,
            );
            &&& (forall|i: int|
                0 <= i < entries.len() ==> (#[trigger] entries[i]).0@ != hex_text(infohash))
                ==> back == Seq::<PeerEntry>::empty()
            &&& forall|i: int|
                0 <= i < entries.len() && is_saved(#[trigger] entries[i], infohash, addrs)
                    ==> back == announced_now(addrs, now)
        }),
    decreases entries.len(),
{
    if entries.len() > 0 {
        let rest = entries.drop_last();
        let last = entries.last();
        assert forall|i: int, j: int|
            #![trigger rest[i], rest[j]]
            0 <= i < j < rest.len() implies rest[i].0@ != rest[j].0@ by {
            assert(rest[i] == entries[i]);
            assert(rest[j] == entries[j]);
        }
        assert forall|i: int| 0 <= i < rest.len() implies holds_saved(#[trigger] rest[i]) by {
            assert(rest[i] == entries[i]);
        }
        assert(entries[entries.len() - 1] == last);
        assert(holds_saved(last));
        let (h, a) = choose|h: Seq<u8>, a: Seq<CompactAddr>| is_saved(last, h, a);
        law_hex_round_trip(h);
        assert(id_in(last.0@) == Some(h));
        let empty = Map::<Seq<u8>, Seq<PeerEntry>>::empty();
        let before = peers_restored(empty, rest, now);
        lemma_peers_restored(rest, h, a, now);
        assert forall|i: int| 0 <= i < rest.len() implies (#[trigger] rest[i]).0@ != hex_text(h) by {
            assert(rest[i] == entries[i]);
        }
        lemma_announced_all(before, h, a, now);
        let after = peers_restored(empty, entries, now);
        assert(after == announced_all(before, h, sockets(a), now));
        lemma_peers_restored(rest, infohash, addrs, now);
        if h == infohash {
            assert forall|i: int|
                0 <= i < entries.len() && is_saved(
                    #[trigger] entries[i],
                    infohash,
                    addrs,
                ) implies list_of(after, infohash) == announced_now(addrs, now) by {
                if i < rest.len() {
                    assert(rest[i] == entries[i]);
                } else {
                    lemma_sockets_injective(a, addrs);
                }
            }
            assert(entries[entries.len() - 1].0@ == hex_text(infohash));
        } else {
            assert(list_of(after, infohash) == list_of(before, infohash));
            assert forall|i: int|
                0 <= i < entries.len() && is_saved(
                    #[trigger] entries[i],
                    infohash,
                    addrs,
                ) implies list_of(after, infohash) == announced_now(addrs, now) by {
                if i < rest.len() {
                    assert(rest[i] == entries[i]);
                } else {
                    law_hex_text_is_unique(h, infohash);
                }
            }
            if forall|i: int|
                0 <= i < entries.len() ==> (#[trigger] entries[i]).0@ != hex_text(infohash) {
                assert forall|i: int| 0 <= i < rest.len() implies (#[trigger] rest[i]).0@
                    != hex_text(infohash) by {
                    assert(rest[i] == entries[i]);
                }
            }
        }
    }
}

/// Whether an entry is that of an infohash of a store and has no more peers.
spec fn fits_in(
    e: (String, Vec<SocketAddr>),
    store: Map<Seq<u8>, Seq<PeerEntry>>,
    ih: Infohash,
) -> bool {
    &&& store.contains_key(ih@)
    &&& e.0@ == hex_text(ih@)
    &&& e.1@.len() <= store[ih@].len()
}

/// Whether an entry is that of some infohash of a store and has no more peers.
spec fn is_within(e: (String, Vec<SocketAddr>), store: Map<Seq<u8>, Seq<PeerEntry>>) -> bool {
    exists|ih: Infohash| #[trigger] fits_in(e, store, ih)
}

/// A list with entries for infohashes of a store has no more peers than the store, if none of the
/// entries has.
proof fn lemma_listed_peers(
    store: Map<Seq<u8>, Seq<PeerEntry>>,
    entries: Seq<(String, Vec<SocketAddr>)>,
)
    requires
        store.dom().finite(),
        distinct_keys(entries),
        forall|i: int|
            0 <= i < entries.len() ==> is_within(#[trigger] entries[i], store),
    ensures
        listed_peers(entries) <= peer_total(store),
    decreases entries.len(),
{
    if entries.len() > 0 {
        let rest = entries.drop_last();
        let last = entries[entries.len() - 1];
        assert(is_within(entries[entries.len() - 1], store));
        let ih = choose|ih: Infohash| #[trigger] fits_in(last, store, ih);
        let others = store.remove(ih@);
        assert forall|i: int| 0 <= i < rest.len() implies is_within(
            #[trigger] rest[i],
            others,
        ) by {
            assert(rest[i] == entries[i]);
            assert(is_within(entries[i], store));
            let h = choose|h: Infohash| #[trigger] fits_in(entries[i], store, h);
            assert(entries[i].0@ != last.0@);
            assert(fits_in(rest[i], others, h));
        }
        assert(distinct_keys(rest)) by {
            assert forall|i: int, j: int| 0 <= i < j < rest.len() implies rest[i].0@
                != rest[j].0@ by {
                assert(entries[i].0@ != entries[j].0@);
            }
        }
        lemma_listed_peers(others, rest);
        lemma_weight_remove(store, ih@, list_len());
    }
}

/// The peers that were good when a store was exported come back when the state is restored into an
/// empty store, for which they are never too many: all of them, IPv4 and IPv6 alike, in their order,
/// as if they were announced just then. Nothing else comes back.
pub proof fn law_saved_peers_come_back(
    store: DhtStore,
    state: DhtState,
    saved_at: u32,
    now: u32,
    infohash: Infohash,
)
    requires
        store.wf(),
        distinct_keys(state.peers.seq()),
        state.peers@ == map_of(state.peers.seq()),
        saves_peers(store.peers(), state.peers@, saved_at),
    ensures
        listed_peers(state.peers.seq()) <= usize::MAX,
        ({
            let good = list_of(store.peers(), infohash@).filter(fresh(saved_at));
            let back = list_of(
                peers_restored(
                    Map::<Seq<u8>, Seq<PeerEntry>>::empty(),
                    state.peers.seq(),
                    now,
                ),
                infohash@,
            );
            &&& addrs_of(back) == addrs_of(good)
            &&& forall|i: int| 0 <= i < back.len() ==> (#[trigger] back[i]).last_seen == now
        }),
{
    let kept = store.peers();
    let entries = state.peers.seq();
    lemma_store_valid(store);
    lemma_map_of(entries);
    assert forall|i: int| 0 <= i < entries.len() implies is_within(
        #[trigger] entries[i],
        kept,
    ) by {
        let k = entries[i].0@;
        assert(map_of(entries).contains_key(k));
        let ih = choose|ih: Infohash| #[trigger] kept.contains_key(ih@) && k == hex_text(ih@);
        assert(map_of(entries)[k] == entries[i].1);
        kept[ih@].lemma_filter_len(fresh(saved_at));
        assert(fits_in(entries[i], kept, ih));
    }
    lemma_listed_peers(kept, entries);
    lemma_saved_peers_come_back(kept, entries, saved_at, now, infohash);
}

/// The peers that were good when a store was saved come back when they are restored into an empty
/// one.
proof fn lemma_saved_peers_come_back(
    store: Map<Seq<u8>, Seq<PeerEntry>>,
    entries: Seq<(String, Vec<SocketAddr>)>,
    saved_at: u32,
    now: u32,
    infohash: Infohash,
)
    requires
        forall|k: Seq<u8>| #[trigger]
            store.contains_key(k) ==> k.len() == 20 && valid_list(store[k]),
        distinct_keys(entries),
        saves_peers(store, map_of(entries), saved_at),
    ensures
        ({
            let good = list_of(store, infohash@).filter(fresh(saved_at));
            let back = list_of(
                peers_restored(Map::<Seq<u8>, Seq<PeerEntry>>::empty(), entries, now),
                infohash@,
            );
            &&& addrs_of(back) == addrs_of(good)
            &&& forall|i: int| 0 <= i < back.len() ==> (#[trigger] back[i]).last_seen == now
        }),
{
    lemma_map_of(entries);
    assert forall|i: int| 0 <= i < entries.len() implies holds_saved(#[trigger] entries[i]) by {
        let k = entries[i].0@;
        assert(map_of(entries).contains_key(k));
        let ih = choose|ih: Infohash| #[trigger] store.contains_key(ih@) && k == hex_text(ih@);
        lemma_saved(store, entries, saved_at, ih, i);
    }
    let good = list_of(store, infohash@).filter(fresh(saved_at));
    let back = list_of(
        peers_restored(Map::<Seq<u8>, Seq<PeerEntry>>::empty(), entries, now),
        infohash@,
    );
    lemma_peers_restored(entries, infohash@, addrs_of(good), now);
    if store.contains_key(infohash@) {
        assert(map_of(entries).contains_key(hex_text(infohash@)));
        let i = choose|i: int|
            0 <= i < entries.len() && (#[trigger] entries[i]).0@ == hex_text(infohash@);
        lemma_saved(store, entries, saved_at, infohash, i);
        assert(back == announced_now(addrs_of(good), now));
        assert(addrs_of(back) =~= addrs_of(good));
    } else {
        assert(good =~= Seq::<PeerEntry>::empty()) by {
            reveal(Seq::filter);
        }
        assert forall|i: int| 0 <= i < entries.len() implies (#[trigger] entries[i]).0@ != hex_text(
            infohash@,
        ) by {
            if entries[i].0@ == hex_text(infohash@) {
                let k = entries[i].0@;
                assert(map_of(entries).contains_key(k));
                let ih = choose|ih: Infohash| #[trigger]
                    store.contains_key(ih@) && k == hex_text(ih@);
                law_hex_text_is_unique(ih@, infohash@);
            }
        }
        assert(addrs_of(back) =~= addrs_of(good));
    }
}

/// The entry of an infohash of a store has the peers that were good.
proof fn lemma_saved(
    store: Map<Seq<u8>, Seq<PeerEntry>>,
    entries: Seq<(String, Vec<SocketAddr>)>,
    saved_at: u32,
    infohash: Infohash,
    i: int,
)
    requires
        store.contains_key(infohash@),
        valid_list(store[infohash@]),
        distinct_keys(entries),
        saves_peers(store, map_of(entries), saved_at),
        0 <= i < entries.len(),
        entries[i].0@ == hex_text(infohash@),
    ensures
        is_saved(
            entries[i],
            infohash@,
            addrs_of(store[infohash@].filter(fresh(saved_at))),
        ),
{
    lemma_map_of(entries);
    let list = store[infohash@];
    let good = list.filter(fresh(saved_at));
    lemma_filter_list(list, saved_at);
    assert(map_of(entries)[entries[i].0@] == entries[i].1);
    assert(entries[i].1@ == saved_peers(list, saved_at));
    assert(addrs_of(good).take(at_most(MAX_SAVED_PEERS as int, good.len() as int)) =~= addrs_of(
        good,
    ));
    assert(addrs_of(good).no_duplicates()) by {
        assert forall|a: int, b: int|
            0 <= a < addrs_of(good).len() && 0 <= b < addrs_of(good).len() && a != b implies addrs_of(
            good,
        )[a] != addrs_of(good)[b] by {
            if a < b {
                assert(good[a].addr != good[b].addr);
            } else {
                assert(good[b].addr != good[a].addr);
            }
        }
    }
}

/// Only nodes that were saved come back when they are restored into an empty table.
pub proof fn law_restored_nodes_were_saved(
    own: [u8; 20],
    entries: Seq<(String, String)>,
    now: u32,
    x: RoutingEntry,
)
    requires
        all_entries(nodes_restored(empty_table(), own, entries, now)).contains(x),
    ensures
        x.last_seen == now,
        x.failures == 0,
        exists|i: int|
            0 <= i < entries.len() && id_in((#[trigger] entries[i]).0@) == Some(x.id@) && addr_in(
                entries[i].1@,
            ) == Some(x.addr),
    decreases entries.len(),
{
    lemma_restored_valid(own, entries, now);
    if entries.len() == 0 {
        assert(empty_table().drop_last() =~= Seq::<BucketModel>::empty());
        reveal_with_fuel(all_entries, 3);
        assert(all_entries(empty_table()) =~= Seq::<RoutingEntry>::empty());
    } else {
        let rest = entries.drop_last();
        let e = entries.last();
        let before = nodes_restored(empty_table(), own, rest, now);
        lemma_restored_valid(own, rest, now);
        assert(entries[entries.len() - 1] == e);
        match (id_in(e.0@), addr_in(e.1@)) {
            (Some(id), Some(addr)) => {
                law_insertion_leaves_the_others(before, own, node_of(id, addr, now), x);
                lemma_array_of(id);
            },
            _ => {},
        }
        if all_entries(before).contains(x) {
            law_restored_nodes_were_saved(own, rest, now, x);
            let i = choose|i: int|
                0 <= i < rest.len() && id_in((#[trigger] rest[i]).0@) == Some(x.id@) && addr_in(
                    rest[i].1@,
                ) == Some(x.addr);
            assert(entries[i] == rest[i]);
        }
    }
}

/// The buckets of a table without any node.
pub open spec fn empty_table() -> Seq<BucketModel> {
    seq![BucketModel { prefix_len: 0, entries: Seq::empty() }]
}

proof fn lemma_array_of(b: Seq<u8>)
    requires
        b.len() == 20,
    ensures
        array_of(b)@ == b,
{
    let a: [u8; 20] = [
        b[0],
        b[1],
        b[2],
        b[3],
        b[4],
        b[5],
        b[6],
        b[7],
        b[8],
        b[9],
        b[10],
        b[11],
        b[12],
        b[13],
        b[14],
        b[15],
        b[16],
        b[17],
        b[18],
        b[19],
    ];
    assert(a@ =~= b);
}

proof fn lemma_restored_valid(own: [u8; 20], entries: Seq<(String, String)>, now: u32)
    ensures
        valid_buckets(nodes_restored(empty_table(), own, entries, now)),
    decreases entries.len(),
{
    if entries.len() > 0 {
        let before = nodes_restored(empty_table(), own, entries.drop_last(), now);
        lemma_restored_valid(own, entries.drop_last(), now);
        match (id_in(entries.last().0@), addr_in(entries.last().1@)) {
            (Some(id), Some(addr)) => {
                law_insert_keeps_valid(before, own, node_of(id, addr, now));
            },
            _ => {},
        }
    }
}

/// Every node is written: under the text of its identifier stands the address of a node with that
/// identifier.
pub proof fn law_every_node_is_saved(nodes: Seq<RoutingEntry>, i: int)
    requires
        0 <= i < nodes.len(),
    ensures
        nodes_as_text(nodes).contains_key(hex_text(nodes[i].id@)),
        (forall|j: int| i < j < nodes.len() ==> (#[trigger] nodes[j]).id != nodes[i].id)
            ==> addr_in(nodes_as_text(nodes)[hex_text(nodes[i].id@)]) == Some(nodes[i].addr),
    decreases nodes.len(),
{
    let last = nodes.last();
    law_node_is_read_back(nodes[i].id, nodes[i].addr);
    if i < nodes.len() - 1 {
        let rest = nodes.drop_last();
        law_every_node_is_saved(rest, i);
        assert(rest[i] == nodes[i]);
        law_hex_round_trip(last.id@);
        law_hex_round_trip(nodes[i].id@);
        if forall|j: int| i < j < nodes.len() ==> (#[trigger] nodes[j]).id != nodes[i].id {
            assert(nodes[nodes.len() - 1].id != nodes[i].id);
            if hex_text(last.id@) == hex_text(nodes[i].id@) {
                assert(last.id@ == nodes[i].id@);
                assert(last.id =~= nodes[i].id);
            }
            assert forall|j: int| i < j < rest.len() implies (#[trigger] rest[j]).id != rest[i].id by {
                assert(nodes[j].id != nodes[i].id);
            }
        }
    }
}

/// Of a table with up to twenty nodes every one comes back, as seen now: an entry that can be read is
/// in the restored table unless a later one has its address.
pub proof fn law_saved_nodes_come_back(
    own: [u8; 20],
    entries: Seq<(String, String)>,
    now: u32,
    i: int,
    id: [u8; 20],
    addr: CompactAddr,
)
    requires
        entries.len() <= 20,
        0 <= i < entries.len(),
        id_in(entries[i].0@) == Some(id@),
        addr_in(entries[i].1@) == Some(addr),
        forall|j: int| i < j < entries.len() ==> addr_in((#[trigger] entries[j]).1@) != Some(addr),
    ensures
        all_entries(nodes_restored(empty_table(), own, entries, now)).contains(
            RoutingEntry { id, addr, last_seen: now, failures: 0 },
        ),
    decreases entries.len(),
{
    let rest = entries.drop_last();
    let before = nodes_restored(empty_table(), own, rest, now);
    let x = RoutingEntry { id, addr, last_seen: now, failures: 0 };
    lemma_small_table(own, rest, now);
    lemma_restored_valid(own, rest, now);
    let e = entries.last();
    if i < rest.len() {
        assert(rest[i] == entries[i]);
        assert forall|j: int| i < j < rest.len() implies addr_in((#[trigger] rest[j]).1@) != Some(
            addr,
        ) by {
            assert(rest[j] == entries[j]);
        }
        law_saved_nodes_come_back(own, rest, now, i, id, addr);
        if id_in(e.0@) is Some && addr_in(e.1@) is Some {
            assert(entries[entries.len() - 1] == e);
            let n = node_of(id_in(e.0@)->0, addr_in(e.1@)->0, now);
            law_insertion_leaves_the_others(before, own, n, x);
        }
    } else {
        lemma_array_of(id@);
        assert(array_of(id@) =~= id);
        let n = node_of(id@, addr, now);
        assert(n == x);
        law_who_comes_in(before, own, n, 0);
        law_inserted_node_is_found(before, own, n);
    }
}

/// A table restored from fewer than twenty nodes has one bucket, and no more nodes than were restored.
proof fn lemma_small_table(own: [u8; 20], entries: Seq<(String, String)>, now: u32)
    requires
        entries.len() < 20,
    ensures
        nodes_restored(empty_table(), own, entries, now).len() == 1,
        nodes_restored(empty_table(), own, entries, now)[0].entries.len() <= entries.len(),
    decreases entries.len(),
{
    if entries.len() > 0 {
        let rest = entries.drop_last();
        let before = nodes_restored(empty_table(), own, rest, now);
        lemma_small_table(own, rest, now);
        lemma_restored_valid(own, rest, now);
        let e = entries.last();
        if id_in(e.0@) is Some && addr_in(e.1@) is Some {
            let n = node_of(id_in(e.0@)->0, addr_in(e.1@)->0, now);
            law_who_comes_in(before, own, n, 0);
        }
    }
}

/// The state is kept if that is wanted and it never was, or the interval has passed since.
pub proof fn law_when_the_state_is_kept(p: DhtPersistence, now: u64)
    ensures
        !p.config.enabled ==> !p.is_due(now),
        p.config.enabled && p.last_save is None ==> p.is_due(now),
        p.config.enabled && p.last_save is Some ==> (p.is_due(now) <==> now - p.last_save->0
            >= 1_000_000_000 * p.config.interval),
{
}

/// Of every infohash the first 256 peers whose announcements are still good are kept.
pub proof fn law_which_peers_are_saved(list: Seq<PeerEntry>, now: u32, i: int)
    ensures
        ({
            let good = list.filter(|e: PeerEntry| now - e.last_seen <= 1800);
            let saved = saved_peers(list, now);
            &&& saved.len() == if good.len() < 256 {
                good.len() as int
            } else {
                256
            }
            &&& 0 <= i < saved.len() ==> saved[i] == good[i].addr.socket()
        }),
{
    let p = |e: PeerEntry| now - e.last_seen <= 1800;
    assert(p =~= fresh(now)) by {
        assert forall|e: PeerEntry| #[trigger] p(e) == fresh(now)(e) by {}
    }
}

/// The text of an address is its version and its compact form in hexadecimal.
pub proof fn law_text_of_an_address(v4: [u8; 6], v6: [u8; 18])
    ensures
        addr_text(CompactAddr::V4(v4)) == "v4:"@ + hex_text(v4@),
        addr_text(CompactAddr::V6(v6)) == "v6:"@ + hex_text(v6@),
{
}

} // verus!
