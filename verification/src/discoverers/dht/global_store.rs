//! A pool of DHT nodes that several virtual nodes share.

use crate::clock::{elapsed_secs_u32, instant_now, secs_since};
use crate::discoverers::dht::distance::{
    closest, closest_of, distance, distance_less, xor_distance, Identified,
};
use crate::discoverers::dht::routing_table::{age, CompactAddr};
use crate::random::random_id;
use crate::seqs::lemma_filter_step;
use crate::vecmap::{lemma_map_of, MapKey, VecMap};
use std::time::Instant;
use vstd::prelude::*;

verus! {

/// Consecutive failures from which on a node is unhealthy.
pub const MAX_NODE_FAILURES: u8 = 3;

impl View for CompactAddr {
    type V = CompactAddr;

    open spec fn view(&self) -> CompactAddr {
        *self
    }
}

impl MapKey for CompactAddr {
    fn same_key(&self, other: &Self) -> (r: bool) {
        self.same(other)
    }
}

/// A node in the pool.
#[derive(Debug, Clone, Copy)]
pub struct GlobalNodeEntry {
    /// The node's identifier.
    pub id: [u8; 20],
    /// The node's address.
    pub addr: CompactAddr,
    /// When it was last seen, in seconds since the pool was made.
    pub last_seen: u32,
    /// Consecutive failures.
    pub failures: u8,
    /// When it was first seen, in seconds since the pool was made.
    pub first_seen: u32,
}

impl GlobalNodeEntry {
    /// Whether the node has failed fewer than three times in a row.
    pub open spec fn healthy(&self) -> bool {
        self.failures < MAX_NODE_FAILURES
    }

    /// Whether the node has not been seen for more than `ttl_secs`.
    pub open spec fn expired(&self, now: u32, ttl_secs: u32) -> bool {
        age(now, self.last_seen) > ttl_secs
    }

    /// Whether the node has failed fewer than three times in a row.
    pub fn is_healthy(&self) -> (r: bool)
        ensures
            r == self.healthy(),
    {
        self.failures < MAX_NODE_FAILURES
    }

    /// Whether the node has not been seen for more than `ttl_secs`.
    pub fn is_expired(&self, now: u32, ttl_secs: u32) -> (r: bool)
        ensures
            r == self.expired(now, ttl_secs),
    {
        now.saturating_sub(self.last_seen) > ttl_secs
    }
}

impl Identified for GlobalNodeEntry {
    open spec fn ident(&self) -> [u8; 20] {
        self.id
    }

    fn get_ident(&self) -> (r: [u8; 20]) {
        self.id
    }
}

/// The healthy nodes.
pub open spec fn node_is_well() -> spec_fn(GlobalNodeEntry) -> bool {
    |e: GlobalNodeEntry| e.healthy()
}

/// `s` lists the values of `m`, each once.
pub open spec fn lists_nodes(m: Map<CompactAddr, GlobalNodeEntry>, s: Seq<GlobalNodeEntry>) -> bool {
    &&& s.len() == m.len()
    &&& forall|i: int, j: int|
        #![trigger s[i], s[j]]
        0 <= i < j < s.len() ==> s[i].addr != s[j].addr
    &&& forall|i: int|
        0 <= i < s.len() ==> m.contains_key((#[trigger] s[i]).addr) && m[s[i].addr] == s[i]
    &&& forall|a: CompactAddr| #[trigger] m.contains_key(a) ==> s.contains(m[a])
}

/// The pool after a node was seen: a known address gets the new identifier, a new one is added.
pub open spec fn pool_with(
    m: Map<CompactAddr, GlobalNodeEntry>,
    id: [u8; 20],
    addr: CompactAddr,
    now: u32,
) -> Map<CompactAddr, GlobalNodeEntry> {
    m.insert(
        addr,
        GlobalNodeEntry {
            id,
            addr,
            last_seen: now,
            failures: 0,
            first_seen: if m.contains_key(addr) {
                m[addr].first_seen
            } else {
                now
            },
        },
    )
}

/// The pool after the node with an address answered.
pub open spec fn pool_touched(
    m: Map<CompactAddr, GlobalNodeEntry>,
    addr: CompactAddr,
    now: u32,
) -> Map<CompactAddr, GlobalNodeEntry> {
    if m.contains_key(addr) {
        m.insert(addr, (GlobalNodeEntry { last_seen: now, failures: 0, ..m[addr] }))
    } else {
        m
    }
}

/// The pool after the node with an address failed. The count stops at 255.
pub open spec fn pool_failed(
    m: Map<CompactAddr, GlobalNodeEntry>,
    addr: CompactAddr,
) -> Map<CompactAddr, GlobalNodeEntry> {
    if m.contains_key(addr) {
        m.insert(
            addr,
            (GlobalNodeEntry {
                failures: if m[addr].failures < 255 {
                    (m[addr].failures + 1) as u8
                } else {
                    255
                },
                ..m[addr]
            }),
        )
    } else {
        m
    }
}

/// The pool without the nodes that are unhealthy or expired.
pub open spec fn pool_evicted(
    m: Map<CompactAddr, GlobalNodeEntry>,
    now: u32,
    ttl_secs: u32,
) -> Map<CompactAddr, GlobalNodeEntry> {
    Map::new(
        |a: CompactAddr| m.contains_key(a) && m[a].healthy() && !m[a].expired(now, ttl_secs),
        |a: CompactAddr| m[a],
    )
}

/// The pool of nodes.
pub struct GlobalNodeStore {
    nodes: VecMap<CompactAddr, GlobalNodeEntry>,
    started_at: Instant,
    node_ttl_secs: u32,
}

impl GlobalNodeStore {
    /// The nodes by address.
    pub closed spec fn nodes(&self) -> Map<CompactAddr, GlobalNodeEntry> {
        self.nodes@
    }

    /// Seconds after which a node has expired.
    pub closed spec fn ttl(&self) -> u32 {
        self.node_ttl_secs
    }

    /// When the pool was made.
    pub closed spec fn start(&self) -> Instant {
        self.started_at
    }

    /// What holds of every pool: a node is kept under its address.
    pub open spec fn wf(&self) -> bool {
        forall|a: CompactAddr| #[trigger]
            self.nodes().contains_key(a) ==> self.nodes()[a].addr == a
    }

    /// An empty pool.
    pub fn new(node_ttl_secs: u32) -> (r: GlobalNodeStore)
        ensures
            r.wf(),
            r.nodes() == Map::<CompactAddr, GlobalNodeEntry>::empty(),
            r.ttl() == node_ttl_secs,
    {
        GlobalNodeStore { nodes: VecMap::new(), started_at: instant_now(), node_ttl_secs }
    }

    /// Seconds since the pool was made.
    fn now_secs(&self) -> (r: u32)
        ensures
            exists|now: Instant| r == #[trigger] secs_since(self.start(), now),
    {
        assert(self.start() == self.started_at);
        elapsed_secs_u32(&self.started_at)
    }

    /// The number of nodes.
    pub fn len(&self) -> (r: usize)
        ensures
            r == self.nodes().len(),
    {
        self.nodes.len()
    }

    /// Whether there is no node.
    pub fn is_empty(&self) -> (r: bool)
        ensures
            r == (self.nodes().len() == 0),
    {
        self.nodes.len() == 0
    }

    /// Adds or renews a node as seen at time `now`.
    pub fn insert_at(&mut self, id: [u8; 20], addr: CompactAddr, now: u32)
        requires
            old(self).wf(),
        ensures
            final(self).wf(),
            final(self).ttl() == old(self).ttl(),
            final(self).start() == old(self).start(),
            final(self).nodes() == pool_with(old(self).nodes(), id, addr, now),
    {
        let first_seen: u32 = match self.nodes.get(&addr) {
            Some(known) => known.first_seen,
            None => now,
        };
        self.nodes.insert(
            addr,
            GlobalNodeEntry { id, addr, last_seen: now, failures: 0, first_seen },
        );
    }

    /// Adds or renews a node as seen now.
    pub fn insert(&mut self, id: [u8; 20], addr: CompactAddr)
        requires
            old(self).wf(),
        ensures
            final(self).wf(),
            final(self).ttl() == old(self).ttl(),
            final(self).start() == old(self).start(),
            exists|now: Instant|
                final(self).nodes() == #[trigger] pool_with(
                    old(self).nodes(),
                    id,
                    addr,
                    secs_since(old(self).start(), now),
                ),
    {
        let now: u32 = self.now_secs();
        self.insert_at(id, addr, now);
    }

    /// Notes at time `now` that a node answered.
    pub fn mark_success_at(&mut self, addr: &CompactAddr, now: u32)
        requires
            old(self).wf(),
        ensures
            final(self).wf(),
            final(self).ttl() == old(self).ttl(),
            final(self).start() == old(self).start(),
            final(self).nodes() == pool_touched(old(self).nodes(), *addr, now),
    {
        let known: Option<GlobalNodeEntry> = match self.nodes.get(addr) {
            Some(e) => Some(*e),
            None => None,
        };
        if let Some(e) = known {
            self.nodes.insert(*addr, GlobalNodeEntry { last_seen: now, failures: 0, ..e });
        }
    }

    /// Notes that a node answered just now.
    pub fn mark_success(&mut self, addr: &CompactAddr)
        requires
            old(self).wf(),
        ensures
            final(self).wf(),
            final(self).ttl() == old(self).ttl(),
            final(self).start() == old(self).start(),
            exists|now: Instant|
                final(self).nodes() == #[trigger] pool_touched(
                    old(self).nodes(),
                    *addr,
                    secs_since(old(self).start(), now),
                ),
    {
        let now: u32 = self.now_secs();
        self.mark_success_at(addr, now);
    }

    /// Notes that a node failed.
    pub fn mark_failure(&mut self, addr: &CompactAddr)
        requires
            old(self).wf(),
        ensures
            final(self).wf(),
            final(self).ttl() == old(self).ttl(),
            final(self).start() == old(self).start(),
            final(self).nodes() == pool_failed(old(self).nodes(), *addr),
    {
        let known: Option<GlobalNodeEntry> = match self.nodes.get(addr) {
            Some(e) => Some(*e),
            None => None,
        };
        if let Some(e) = known {
            self.nodes.insert(
                *addr,
                GlobalNodeEntry { failures: e.failures.saturating_add(1), ..e },
            );
        }
    }

    /// Takes a node out. Returns whether there was one.
    pub fn remove(&mut self, addr: &CompactAddr) -> (r: bool)
        requires
            old(self).wf(),
        ensures
            final(self).wf(),
            final(self).ttl() == old(self).ttl(),
            final(self).start() == old(self).start(),
            r == old(self).nodes().contains_key(*addr),
            final(self).nodes() == old(self).nodes().remove(*addr),
    {
        self.nodes.remove(addr).is_some()
    }

    /// All nodes, in no particular order.
    pub fn all_nodes(&self) -> (r: Vec<GlobalNodeEntry>)
        requires
            self.wf(),
        ensures
            lists_nodes(self.nodes(), r@),
    {
        let n: usize = self.nodes.len();
        let ghost entries = self.nodes.seq();
        let mut out: Vec<GlobalNodeEntry> = Vec::with_capacity(n);
        let mut i: usize = 0;
        while i < n
            invariant
                i <= n == entries.len(),
                entries == self.nodes.seq(),
                out@.len() == i,
                forall|j: int| 0 <= j < i ==> #[trigger] out@[j] == entries[j].1,
            decreases n - i,
        {
            out.push(*self.nodes.value_at(i));
            i += 1;
        }
        proof {
            let m = self.nodes();
            lemma_map_of(entries);
            assert forall|a: int| 0 <= a < out@.len() implies m.contains_key(
                (#[trigger] out@[a]).addr,
            ) && m[out@[a].addr] == out@[a] by {
                assert(m.contains_key(entries[a].0@));
                assert(m[entries[a].0@] == entries[a].1);
            }
            assert forall|a: int, b: int|
                #![trigger out@[a], out@[b]]
                0 <= a < b < out@.len() implies out@[a].addr != out@[b].addr by {
                assert(entries[a].0@ != entries[b].0@);
                assert(m.contains_key(entries[a].0@));
                assert(m.contains_key(entries[b].0@));
                assert(m[entries[a].0@] == entries[a].1);
                assert(m[entries[b].0@] == entries[b].1);
            }
            assert forall|a: CompactAddr| #[trigger] m.contains_key(a) implies out@.contains(
                m[a],
            ) by {
                let j = choose|j: int| 0 <= j < entries.len() && (#[trigger] entries[j]).0@ == a;
                assert(out@[j] == m[a]);
            }
        }
        out
    }

    /// The healthy nodes, in no particular order.
    pub fn healthy_nodes(&self) -> (r: Vec<GlobalNodeEntry>)
        requires
            self.wf(),
        ensures
            exists|s: Seq<GlobalNodeEntry>| #[trigger]
                lists_nodes(self.nodes(), s) && r@ == s.filter(node_is_well()),
    {
        let all: Vec<GlobalNodeEntry> = self.all_nodes();
        let mut out: Vec<GlobalNodeEntry> = Vec::new();
        let mut i: usize = 0;
        assert(all@.take(0).filter(node_is_well()) =~= Seq::empty()) by {
            reveal(Seq::filter);
        }
        while i < all.len()
            invariant
                i <= all.len(),
                out@ == all@.take(i as int).filter(node_is_well()),
            decreases all.len() - i,
        {
            proof {
                lemma_filter_step(all@, i as int, node_is_well());
            }
            if all[i].is_healthy() {
                out.push(all[i]);
            }
            i += 1;
        }
        assert(all@.take(i as int) =~= all@);
        out
    }

    /// The `count` healthy nodes closest to `target`, nearest first.
    pub fn find_closest(&self, target: &[u8; 20], count: usize) -> (r: Vec<GlobalNodeEntry>)
        requires
            self.wf(),
        ensures
            exists|s: Seq<GlobalNodeEntry>| #[trigger]
                lists_nodes(self.nodes(), s) && r@ == closest_of(
                    s.filter(node_is_well()),
                    *target,
                    count as int,
                ),
    {
        let healthy: Vec<GlobalNodeEntry> = self.healthy_nodes();
        closest(&healthy, target, count)
    }

    /// Drops the nodes that are unhealthy or expired at time `now` and returns their number.
    pub fn evict_expired_at(&mut self, now: u32) -> (r: usize)
        requires
            old(self).wf(),
        ensures
            final(self).wf(),
            final(self).ttl() == old(self).ttl(),
            final(self).start() == old(self).start(),
            final(self).nodes() == pool_evicted(old(self).nodes(), now, old(self).ttl()),
            r == old(self).nodes().len() - final(self).nodes().len(),
    {
        let ghost before = self.nodes@;
        let ttl: u32 = self.node_ttl_secs;
        let len_before: usize = self.nodes.len();
        let mut kept: VecMap<CompactAddr, GlobalNodeEntry> = VecMap::new();
        let ghost start = self.started_at;
        loop
            invariant
                self.node_ttl_secs == ttl,
                self.started_at == start,
                self.nodes@.dom().finite(),
                forall|a: CompactAddr| #[trigger]
                    self.nodes@.contains_key(a) ==> before.contains_key(a) && before[a]
                        == self.nodes@[a],
                forall|a: CompactAddr| #[trigger]
                    kept@.contains_key(a) ==> pool_evicted(before, now, ttl).contains_key(a)
                        && kept@[a] == before[a],
                forall|a: CompactAddr| #[trigger]
                    pool_evicted(before, now, ttl).contains_key(a) ==> self.nodes@.contains_key(a)
                        || kept@.contains_key(a),
                kept@.len() + self.nodes@.len() <= len_before,
                kept@.dom().finite(),
                forall|a: CompactAddr| #[trigger]
                    kept@.contains_key(a) ==> !self.nodes@.contains_key(a),
            ensures
                self.node_ttl_secs == ttl,
                self.started_at == start,
                kept@ =~= pool_evicted(before, now, ttl),
                kept@.len() <= len_before,
            decreases self.nodes@.len(),
        {
            match self.nodes.pop() {
                Some((addr, e)) => {
                    if e.is_healthy() && !e.is_expired(now, ttl) {
                        assert(pool_evicted(before, now, ttl).contains_key(addr));
                        assert(!kept@.contains_key(addr));
                        kept.insert(addr, e);
                    }
                },
                None => {
                    break;
                },
            }
        }
        self.nodes = kept;
        len_before - self.nodes.len()
    }

    /// Drops the nodes that are unhealthy or expired and returns their number.
    pub fn evict_expired(&mut self) -> (r: usize)
        requires
            old(self).wf(),
        ensures
            final(self).wf(),
            final(self).ttl() == old(self).ttl(),
            final(self).start() == old(self).start(),
            exists|now: Instant|
                final(self).nodes() == #[trigger] pool_evicted(
                    old(self).nodes(),
                    secs_since(old(self).start(), now),
                    old(self).ttl(),
                ),
            r == old(self).nodes().len() - final(self).nodes().len(),
    {
        let now: u32 = self.now_secs();
        self.evict_expired_at(now)
    }

    /// An estimate of the memory in use: 88 bytes for each node.
    pub fn estimated_memory(&self) -> (r: usize)
        requires
            self.nodes().len() * 88 <= usize::MAX,
        ensures
            r == self.nodes().len() * 88,
    {
        self.nodes.len() * 88
    }
}

impl Default for GlobalNodeStore {
    fn default() -> (r: GlobalNodeStore)
        ensures
            r.wf(),
            r.nodes() == Map::<CompactAddr, GlobalNodeEntry>::empty(),
            r.ttl() == 3600,
    {
        GlobalNodeStore::new(3600)
    }
}

/// Several virtual nodes that share one pool.
pub struct MultiNodeManager {
    node_ids: Vec<[u8; 20]>,
    store: GlobalNodeStore,
}

impl MultiNodeManager {
    /// The identifiers of the virtual nodes.
    pub closed spec fn ids(&self) -> Seq<[u8; 20]> {
        self.node_ids@
    }

    /// The shared pool.
    pub closed spec fn pool(&self) -> GlobalNodeStore {
        self.store
    }

    /// A manager for virtual nodes with the given identifiers.
    pub fn with_ids(node_ids: Vec<[u8; 20]>, node_ttl_secs: u32) -> (r: MultiNodeManager)
        ensures
            r.ids() == node_ids@,
            r.pool().wf(),
            r.pool().nodes() == Map::<CompactAddr, GlobalNodeEntry>::empty(),
            r.pool().ttl() == node_ttl_secs,
    {
        MultiNodeManager { node_ids, store: GlobalNodeStore::new(node_ttl_secs) }
    }

    /// A manager for `virtual_node_count` nodes with random identifiers.
    pub fn new(virtual_node_count: usize, node_ttl_secs: u32) -> (r: MultiNodeManager)
        ensures
            r.ids().len() == virtual_node_count,
            r.pool().wf(),
            r.pool().nodes() == Map::<CompactAddr, GlobalNodeEntry>::empty(),
            r.pool().ttl() == node_ttl_secs,
    {
        let mut node_ids: Vec<[u8; 20]> = Vec::with_capacity(virtual_node_count);
        while node_ids.len() < virtual_node_count
            invariant
                node_ids@.len() <= virtual_node_count,
            decreases virtual_node_count - node_ids@.len(),
        {
            node_ids.push(random_id());
        }
        Self::with_ids(node_ids, node_ttl_secs)
    }

    /// The number of virtual nodes.
    pub fn node_count(&self) -> (r: usize)
        ensures
            r == self.ids().len(),
    {
        self.node_ids.len()
    }

    /// The identifiers of the virtual nodes.
    pub fn node_ids(&self) -> (r: &Vec<[u8; 20]>)
        ensures
            r@ == self.ids(),
    {
        &self.node_ids
    }

    /// The identifier of the first virtual node.
    pub fn primary_id(&self) -> (r: &[u8; 20])
        requires
            self.ids().len() > 0,
        ensures
            *r == self.ids()[0],
    {
        &self.node_ids[0]
    }

    /// The virtual node closest to `target`, the first of them if several are equally close.
    pub fn select_closest_node(&self, target: &[u8; 20]) -> (r: &[u8; 20])
        requires
            self.ids().len() > 0,
        ensures
            exists|i: int| #[trigger]
                is_nearest(self.ids(), *target, i) && *r == self.ids()[i],
    {
        let mut best: usize = 0;
        let mut best_dist: [u8; 20] = xor_distance(&self.node_ids[0], target);
        let mut i: usize = 1;
        while i < self.node_ids.len()
            invariant
                best < i <= self.node_ids@.len(),
                best_dist@ == crate::discoverers::dht::distance::xor_bytes(
                    self.node_ids@[best as int]@,
                    target@,
                ),
                forall|j: int|
                    0 <= j < i ==> distance(self.node_ids@[best as int], *target) <= distance(
                        #[trigger] self.node_ids@[j],
                        *target,
                    ),
                forall|j: int|
                    0 <= j < best ==> distance(self.node_ids@[best as int], *target) < distance(
                        #[trigger] self.node_ids@[j],
                        *target,
                    ),
            decreases self.node_ids@.len() - i,
        {
            let dist: [u8; 20] = xor_distance(&self.node_ids[i], target);
            if distance_less(&dist, &best_dist) {
                best = i;
                best_dist = dist;
            }
            i += 1;
        }
        assert(is_nearest(self.ids(), *target, best as int));
        &self.node_ids[best]
    }

    /// The shared pool.
    pub fn global_store(&self) -> (r: &GlobalNodeStore)
        ensures
            *r == self.pool(),
    {
        &self.store
    }

    /// Adds or renews a node of the shared pool.
    pub fn add_node(&mut self, id: [u8; 20], addr: CompactAddr)
        requires
            old(self).pool().wf(),
        ensures
            final(self).ids() == old(self).ids(),
            final(self).pool().wf(),
            final(self).pool().ttl() == old(self).pool().ttl(),
            final(self).pool().start() == old(self).pool().start(),
            exists|now: Instant|
                final(self).pool().nodes() == #[trigger] pool_with(
                    old(self).pool().nodes(),
                    id,
                    addr,
                    secs_since(old(self).pool().start(), now),
                ),
    {
        self.store.insert(id, addr);
    }

    /// The `count` healthy nodes of the shared pool closest to `target`, nearest first.
    pub fn find_closest(&self, target: &[u8; 20], count: usize) -> (r: Vec<GlobalNodeEntry>)
        requires
            self.pool().wf(),
        ensures
            exists|s: Seq<GlobalNodeEntry>| #[trigger]
                lists_nodes(self.pool().nodes(), s) && r@ == closest_of(
                    s.filter(node_is_well()),
                    *target,
                    count as int,
                ),
    {
        self.store.find_closest(target, count)
    }

    /// The number of nodes in the shared pool.
    pub fn global_node_count(&self) -> (r: usize)
        ensures
            r == self.pool().nodes().len(),
    {
        self.store.len()
    }

    /// Drops the nodes of the shared pool that are unhealthy or expired and returns their number.
    pub fn maintenance(&mut self) -> (r: usize)
        requires
            old(self).pool().wf(),
        ensures
            final(self).ids() == old(self).ids(),
            final(self).pool().wf(),
            final(self).pool().ttl() == old(self).pool().ttl(),
            final(self).pool().start() == old(self).pool().start(),
            exists|now: Instant|
                final(self).pool().nodes() == #[trigger] pool_evicted(
                    old(self).pool().nodes(),
                    secs_since(old(self).pool().start(), now),
                    old(self).pool().ttl(),
                ),
            r == old(self).pool().nodes().len() - final(self).pool().nodes().len(),
    {
        self.store.evict_expired()
    }
}

/// Whether the identifier at `i` is the first of those closest to `target`.
pub open spec fn is_nearest(ids: Seq<[u8; 20]>, target: [u8; 20], i: int) -> bool {
    &&& 0 <= i < ids.len()
    &&& forall|j: int|
        0 <= j < ids.len() ==> distance(ids[i], target) <= distance(#[trigger] ids[j], target)
    &&& forall|j: int| 0 <= j < i ==> distance(ids[i], target) < distance(#[trigger] ids[j], target)
}

/// Three failures in a row take a node out of the healthy ones until it answers again.
pub proof fn law_three_failures(
    m: Map<CompactAddr, GlobalNodeEntry>,
    addr: CompactAddr,
    now: u32,
)
    requires
        m.contains_key(addr),
        m[addr].failures == 0,
    ensures
        pool_failed(pool_failed(m, addr), addr)[addr].healthy(),
        !pool_failed(pool_failed(pool_failed(m, addr), addr), addr)[addr].healthy(),
        pool_touched(pool_failed(pool_failed(pool_failed(m, addr), addr), addr), addr, now)[addr].healthy(),
{
}

/// A node that is seen is in the pool under its address, with the identifier that it gave and no failures;
/// when it was first seen stays. No other node is touched.
pub proof fn law_seen_node_is_in_the_pool(
    m: Map<CompactAddr, GlobalNodeEntry>,
    id: [u8; 20],
    addr: CompactAddr,
    now: u32,
)
    ensures
        ({
            let after = pool_with(m, id, addr, now);
            &&& after.contains_key(addr)
            &&& after[addr].id == id && after[addr].addr == addr && after[addr].last_seen == now
            &&& after[addr].failures == 0
            &&& m.contains_key(addr) ==> after[addr].first_seen == m[addr].first_seen
            &&& !m.contains_key(addr) ==> after[addr].first_seen == now
            &&& forall|a: CompactAddr|
                a != addr ==> (#[trigger] after.contains_key(a) <==> m.contains_key(a)) && (
                m.contains_key(a) ==> after[a] == m[a])
        }),
{
}

/// An answer clears the failures of a node and a failure adds one, up to 255; neither brings a node in,
/// takes one out or touches another.
pub proof fn law_answers_and_failures(
    m: Map<CompactAddr, GlobalNodeEntry>,
    addr: CompactAddr,
    now: u32,
)
    ensures
        ({
            let up = pool_touched(m, addr, now);
            let down = pool_failed(m, addr);
            &&& forall|a: CompactAddr| #[trigger] up.contains_key(a) <==> m.contains_key(a)
            &&& forall|a: CompactAddr| #[trigger] down.contains_key(a) <==> m.contains_key(a)
            &&& forall|a: CompactAddr| #[trigger]
                m.contains_key(a) && a != addr ==> up[a] == m[a] && down[a] == m[a]
            &&& m.contains_key(addr) ==> {
                &&& up[addr].failures == 0 && up[addr].last_seen == now
                &&& up[addr].id == m[addr].id && up[addr].addr == m[addr].addr
                &&& up[addr].first_seen == m[addr].first_seen
                &&& m[addr].failures < 255 ==> down[addr].failures == m[addr].failures + 1
                &&& m[addr].failures == 255 ==> down[addr].failures == 255
                &&& down[addr].last_seen == m[addr].last_seen
                &&& down[addr].id == m[addr].id && down[addr].addr == m[addr].addr
                &&& down[addr].first_seen == m[addr].first_seen
            }
        }),
{
}

/// After an eviction just those nodes are left, as they were, that failed fewer than three times in a row
/// and were seen no longer ago than the time to live.
pub proof fn law_pool_eviction(m: Map<CompactAddr, GlobalNodeEntry>, now: u32, ttl_secs: u32)
    ensures
        forall|a: CompactAddr| #[trigger]
            pool_evicted(m, now, ttl_secs).contains_key(a) <==> m.contains_key(a) && m[a].failures < 3
                && now <= m[a].last_seen + ttl_secs,
        forall|a: CompactAddr| #[trigger]
            pool_evicted(m, now, ttl_secs).contains_key(a) ==> pool_evicted(m, now, ttl_secs)[a] == m[a],
{
}

/// The identifier that is taken is at least as close to the target as any other, and the first of
/// those.
pub proof fn law_nearest_identifier(ids: Seq<[u8; 20]>, target: [u8; 20], i: int, j: int)
    requires
        is_nearest(ids, target, i),
        0 <= j < ids.len(),
    ensures
        0 <= i < ids.len(),
        distance(ids[i], target) <= distance(ids[j], target),
        distance(ids[j], target) == distance(ids[i], target) ==> i <= j,
{
}

} // verus!
