//! Peers that were found, by infohash.
//!
//! Peers of one infohash are kept once each, and the ones with the lowest scores give way when
//! the infohash has too many. When the whole cache has too many, the least recently active ones give
//! way, whatever their infohash.

use crate::clock::unix_nanos;
use crate::net::SocketAddr;
use crate::seqs::{at_most, lemma_filter_step};
use crate::sort::{stable_sort, views, HasRank, Ranked};
use crate::types::{
    best_of, by_priority, peer_models, retain_unexpired, unexpired, Infohash, PeerInfo, PeerModel,
};
use crate::vecmap::{
    distinct_keys, lemma_map_of, lemma_weight_empty, lemma_weight_insert, lemma_weight_remove,
    lemma_weight_same, map_of, weight, VecMap,
};
use dashmap::DashMap;
use vstd::prelude::*;

verus! {

/// `dashmap::DashMap`, a map that is kept in shards.
#[verifier::external_type_specification]
#[verifier::external_body]
#[verifier::reject_recursive_types(K)]
#[verifier::reject_recursive_types(V)]
#[verifier::reject_recursive_types(S)]
pub struct ExDashMap<K, V, S>(DashMap<K, V, S>);

/// After how many failures in a row a peer is dropped.
pub const MAX_CONSECUTIVE_FAILURES: u32 = 5;

/// The peers of an infohash.
pub struct PeerGroup {
    pub peers: VecMap<SocketAddr, PeerInfo>,
}

impl PeerGroup {
    /// The peers, by address.
    pub open spec fn models(&self) -> Map<SocketAddr, PeerModel> {
        peer_models(self.peers@)
    }

    /// A group without peers.
    fn empty() -> (r: PeerGroup)
        ensures
            r.models() == Map::<SocketAddr, PeerModel>::empty(),
    {
        let r: PeerGroup = PeerGroup { peers: VecMap::new() };
        assert(r.models() =~= Map::<SocketAddr, PeerModel>::empty());
        r
    }

    /// An equal group.
    fn duplicate(&self) -> (r: PeerGroup)
        ensures
            r.models() == self.models(),
    {
        let n: usize = self.peers.len();
        let ghost entries = self.peers.seq();
        let mut out: VecMap<SocketAddr, PeerInfo> = VecMap::new();
        let mut i: usize = 0;
        assert(peer_models(out@) =~= peer_models(map_of(entries.take(0))));
        while i < n
            invariant
                i <= n == entries.len(),
                entries == self.peers.seq(),
                peer_models(out@) == peer_models(map_of(entries.take(i as int))),
            decreases n - i,
        {
            let ghost before = out@;
            out.insert(*self.peers.key_at(i), self.peers.value_at(i).duplicate());
            i += 1;
            proof {
                assert(entries.take(i as int).drop_last() =~= entries.take(i - 1));
                assert(entries.take(i as int).last() == entries[i - 1]);
                let k = entries[i - 1].0@;
                assert(peer_models(out@) =~= peer_models(before).insert(k, entries[i - 1].1@));
                assert(peer_models(map_of(entries.take(i as int))) =~= peer_models(
                    map_of(entries.take(i - 1)),
                ).insert(k, entries[i - 1].1@));
            }
        }
        assert(entries.take(i as int) =~= entries);
        PeerGroup { peers: out }
    }
}

/// What a map of groups holds.
pub uninterp spec fn groups(map: DashMap<Infohash, PeerGroup>) -> Map<Infohash, PeerGroup>;

/// No groups at all.
pub open spec fn no_groups() -> Map<Infohash, PeerGroup> {
    Map::empty()
}

/// `DashMap::new`: a map that holds nothing.
#[verifier::external_body]
fn new_groups() -> (r: DashMap<Infohash, PeerGroup>)
    ensures
        groups(r) == no_groups(),
{
    DashMap::new()
}

/// `DashMap::insert`: gives a key a value and changes nothing else.
#[verifier::external_body]
fn put_group(map: &mut DashMap<Infohash, PeerGroup>, infohash: Infohash, group: PeerGroup)
    ensures
        groups(*final(map)) == groups(*old(map)).insert(infohash, group),
{
    map.insert(infohash, group);
}

/// `DashMap::remove`: takes a key out and returns its value, `None` if the key was not there.
#[verifier::external_body]
fn take_group(map: &mut DashMap<Infohash, PeerGroup>, infohash: &Infohash) -> (r: Option<PeerGroup>)
    ensures
        groups(*final(map)) == groups(*old(map)).remove(*infohash),
        r is Some <==> groups(*old(map)).contains_key(*infohash),
        r is Some ==> r->0 == groups(*old(map))[*infohash],
{
    map.remove(infohash).map(|entry| entry.1)
}

/// `DashMap::view`: what the given function makes of the value of a key, here an equal group;
/// `None` if the key is not there.
#[verifier::external_body]
fn view_group(map: &DashMap<Infohash, PeerGroup>, infohash: &Infohash) -> (r: Option<PeerGroup>)
    ensures
        r is Some <==> groups(*map).contains_key(*infohash),
        r is Some ==> (r->0).models() == groups(*map)[*infohash].models(),
{
    map.view(infohash, |_, group| group.duplicate())
}

/// `DashMap::iter`: every key, once each, in no particular order.
#[verifier::external_body]
fn group_keys(map: &DashMap<Infohash, PeerGroup>) -> (r: Vec<Infohash>)
    ensures
        r@.no_duplicates(),
        r@.to_set() == groups(*map).dom(),
{
    map.iter().map(|entry| *entry.key()).collect()
}

/// `DashMap::clear`: drops everything.
#[verifier::external_body]
fn clear_groups(map: &mut DashMap<Infohash, PeerGroup>)
    ensures
        groups(*final(map)) == no_groups(),
{
    map.clear();
}

/// A known peer after it was found again at time `now`.
pub open spec fn merged(known: PeerModel, found: PeerModel, now: u64) -> PeerModel {
    (PeerModel {
        last_active: now,
        connection_attempts: if known.connection_attempts < found.connection_attempts {
            found.connection_attempts
        } else {
            known.connection_attempts
        },
        connection_successes: if known.connection_successes < found.connection_successes {
            found.connection_successes
        } else {
            known.connection_successes
        },
        ..known
    }).prioritized(now)
}

/// A group after peers were found at time `now`.
pub open spec fn group_with(
    group: Map<SocketAddr, PeerModel>,
    found: Seq<PeerModel>,
    now: u64,
) -> Map<SocketAddr, PeerModel>
    decreases found.len(),
{
    if found.len() == 0 {
        group
    } else {
        let rest = group_with(group, found.drop_last(), now);
        let p = found.last();
        if rest.contains_key(p.addr) {
            rest.insert(p.addr, merged(rest[p.addr], p, now))
        } else {
            rest.insert(p.addr, p)
        }
    }
}

/// Whether `trimmed` is what is left of a group when only `max` peers may stay: a peer that went
/// has no higher score than one that stayed.
pub open spec fn is_trimmed(
    group: Map<SocketAddr, PeerModel>,
    max: nat,
    trimmed: Map<SocketAddr, PeerModel>,
) -> bool {
    &&& trimmed.submap_of(group)
    &&& trimmed.len() == at_most(max as int, group.len() as int)
    &&& forall|a: SocketAddr, b: SocketAddr|
        #![trigger trimmed.contains_key(a), group.contains_key(b)]
        trimmed.contains_key(a) && group.contains_key(b) && !trimmed.contains_key(b)
            ==> group[b].priority_score <= group[a].priority_score
}

/// A peer after a connection succeeded at time `now`.
pub open spec fn connected_once(p: PeerModel, now: u64) -> PeerModel {
    (PeerModel {
        connection_attempts: (p.connection_attempts + 1) as u32,
        connection_successes: (p.connection_successes + 1) as u32,
        consecutive_failures: 0,
        last_active: now,
        ..p
    }).prioritized(now)
}

/// A peer after a connection failed.
pub open spec fn failed_once(p: PeerModel, now: u64) -> PeerModel {
    (PeerModel {
        connection_attempts: (p.connection_attempts + 1) as u32,
        consecutive_failures: (p.consecutive_failures + 1) as u32,
        ..p
    }).prioritized(now)
}

/// Whether another connection to a peer can be counted.
pub open spec fn can_count(group: Map<SocketAddr, PeerModel>, addr: SocketAddr) -> bool {
    group.contains_key(addr) ==> group[addr].connection_attempts < u32::MAX
        && group[addr].connection_successes < u32::MAX
}

/// A group after a connection to one of its peers failed: after too many failures in a row the peer
/// is dropped.
pub open spec fn group_failed(group: Map<SocketAddr, PeerModel>, addr: SocketAddr, now: u64) -> Map<
    SocketAddr,
    PeerModel,
> {
    if !group.contains_key(addr) {
        group
    } else if group[addr].consecutive_failures + 1 >= MAX_CONSECUTIVE_FAILURES {
        group.remove(addr)
    } else {
        group.insert(addr, failed_once(group[addr], now))
    }
}

/// Whether `s` lists the peers of a group, each once.
pub open spec fn lists_group(group: Map<SocketAddr, PeerModel>, s: Seq<PeerModel>) -> bool {
    exists|keys: Seq<SocketAddr>|
        #![trigger keys.no_duplicates()]
        keys.no_duplicates() && keys.len() == s.len() && (forall|i: int|
            0 <= i < s.len() ==> group.contains_key(#[trigger] keys[i]) && group[keys[i]] == s[i])
            && (forall|a: SocketAddr| #[trigger] group.contains_key(a) ==> keys.contains(a))
}

/// The peers that were active in the `ttl_secs` seconds before time `now`.
pub open spec fn not_expired(ttl_secs: u64, now: u64) -> spec_fn(PeerModel) -> bool {
    |p: PeerModel| !p.expired_within(ttl_secs, now)
}

/// The number of peers of a group.
pub open spec fn group_len() -> spec_fn(PeerGroup) -> nat {
    |g: PeerGroup| g.models().len()
}

/// A peer's address and score.
#[derive(Clone, Copy)]
struct Scored {
    addr: SocketAddr,
    score: u32,
}

impl HasRank for Scored {
    closed spec fn rank(&self) -> int {
        self.score as int
    }
}

impl Ranked for Scored {
    fn rank_le(&self, other: &Self) -> (r: bool) {
        self.score <= other.score
    }
}

/// A peer and when it was last active.
#[derive(Clone, Copy)]
struct Idle {
    infohash: Infohash,
    addr: SocketAddr,
    last_active: u64,
}

impl HasRank for Idle {
    closed spec fn rank(&self) -> int {
        self.last_active as int
    }
}

impl Ranked for Idle {
    fn rank_le(&self, other: &Self) -> (r: bool) {
        self.last_active <= other.last_active
    }
}

/// The peers that were found, by infohash.
pub struct PeerCache {
    pub peers: DashMap<Infohash, PeerGroup>,
    pub max_peers: usize,
    pub ttl_secs: u64,
    pub max_per_infohash: usize,
}

impl PeerCache {
    /// The peers of an infohash, none if it is not known.
    pub open spec fn group(&self, infohash: Infohash) -> Map<SocketAddr, PeerModel> {
        if groups(self.peers).contains_key(infohash) {
            groups(self.peers)[infohash].models()
        } else {
            Map::empty()
        }
    }

    /// The infohashes.
    pub open spec fn known(&self) -> Set<Infohash> {
        groups(self.peers).dom()
    }

    /// There are finitely many infohashes, and no more peers than allowed.
    pub open spec fn wf(&self) -> bool {
        &&& self.known().finite()
        &&& self.total() <= self.max_peers
    }

    /// An empty cache. Each infohash may have a tenth of all peers, but at least a hundred.
    pub fn new(max_peers: usize, ttl_secs: u64) -> (r: PeerCache)
        ensures
            r.wf(),
            groups(r.peers) == no_groups(),
            r.max_peers == max_peers,
            r.ttl_secs == ttl_secs,
            r.max_per_infohash == if max_peers / 10 < 100 {
                100
            } else {
                (max_peers / 10) as int
            },
    {
        let tenth: usize = max_peers / 10;
        let max_per_infohash: usize = if tenth < 100 {
            100
        } else {
            tenth
        };
        proof {
            lemma_weight_empty::<Infohash, PeerGroup>(group_len());
        }
        PeerCache { peers: new_groups(), max_peers, ttl_secs, max_per_infohash }
    }

    /// At most `limit` peers of an infohash that have not expired at time `now`, the ones with the
    /// highest scores first.
    pub fn get_peers_at(&self, infohash: &Infohash, limit: usize, now: u64) -> (r: Vec<PeerInfo>)
        ensures
            exists|s: Seq<PeerModel>| #[trigger]
                lists_group(self.group(*infohash), s) && views(r@) == best_of(
                    s.filter(not_expired(self.ttl_secs, now)),
                    limit as int,
                ),
    {
        let group: PeerGroup = match view_group(&self.peers, infohash) {
            Some(g) => g,
            None => PeerGroup::empty(),
        };
        let n: usize = group.peers.len();
        let ghost entries = group.peers.seq();
        let ghost all = entries.map_values(|e: (SocketAddr, PeerInfo)| e.1@);
        let ghost p = not_expired(self.ttl_secs, now);
        let mut found: Vec<PeerInfo> = Vec::new();
        let mut i: usize = 0;
        assert(views(found@) =~= all.take(0).filter(p)) by {
            reveal(Seq::filter);
        }
        while i < n
            invariant
                i <= n == entries.len() == all.len(),
                entries == group.peers.seq(),
                all == entries.map_values(|e: (SocketAddr, PeerInfo)| e.1@),
                p == not_expired(self.ttl_secs, now),
                views(found@) == all.take(i as int).filter(p),
            decreases n - i,
        {
            proof {
                lemma_filter_step(all, i as int, p);
            }
            let ghost before = views(found@);
            let peer: &PeerInfo = group.peers.value_at(i);
            assert(all[i as int] == peer@);
            if !peer.is_expired_within(self.ttl_secs, now) {
                found.push(peer.duplicate());
                assert(views(found@) =~= before.push(peer@));
            }
            i += 1;
        }
        proof {
            assert(all.take(i as int) =~= all);
            lemma_lists_group(group.peers);
            assert(group.models() == self.group(*infohash));
            assert(lists_group(self.group(*infohash), all));
        }
        by_priority(found, limit)
    }

    /// At most `limit` peers of an infohash that have not expired, the ones with the highest scores
    /// first.
    pub fn get_peers(&self, infohash: &Infohash, limit: usize) -> (r: Vec<PeerInfo>)
        ensures
            exists|s: Seq<PeerModel>, now: u64|
                #![trigger lists_group(self.group(*infohash), s), not_expired(self.ttl_secs, now)]
                lists_group(self.group(*infohash), s) && views(r@) == best_of(
                    s.filter(not_expired(self.ttl_secs, now)),
                    limit as int,
                ),
    {
        let now: u64 = unix_nanos();
        let r: Vec<PeerInfo> = self.get_peers_at(infohash, limit, now);
        assert(not_expired(self.ttl_secs, now) == not_expired(self.ttl_secs, now));
        r
    }
}

impl PeerCache {
    /// Whether this is a cache after peers of an infohash were found at time `now`, before anybody
    /// gives way because the whole cache has too many: a known peer is updated, expired ones are
    /// dropped, and of too many of the infohash the ones with the lowest scores.
    pub open spec fn has_added(
        &self,
        before: PeerCache,
        infohash: Infohash,
        found: Seq<PeerModel>,
        now: u64,
    ) -> bool {
        &&& self.same_limits(before)
        &&& self.known() == before.known().insert(infohash)
        &&& is_trimmed(
            unexpired(group_with(before.group(infohash), found, now), before.ttl_secs, now),
            before.max_per_infohash as nat,
            self.group(infohash),
        )
        &&& forall|other: Infohash|
            other != infohash ==> #[trigger] self.group(other) == before.group(other)
    }

    /// Whether this is what is left of a cache when only as many peers as allowed may stay: a peer
    /// that went was not active after one that stayed. Infohashes stay, even without peers.
    pub open spec fn is_bounded(&self, grown: PeerCache) -> bool {
        &&& self.same_limits(grown)
        &&& self.known() == grown.known()
        &&& self.total() == at_most(grown.max_peers as int, grown.total() as int)
        &&& grown.total() <= grown.max_peers ==> *self == grown
        &&& forall|infohash: Infohash| #[trigger]
            self.group(infohash).submap_of(grown.group(infohash))
        &&& forall|i: Infohash, a: SocketAddr, j: Infohash, b: SocketAddr|
            #![trigger self.group(i).contains_key(a), grown.group(j).contains_key(b)]
            self.group(i).contains_key(a) && grown.group(j).contains_key(b) && !self.group(
                j,
            ).contains_key(b) ==> grown.group(j)[b].last_active <= self.group(i)[a].last_active
    }

    /// Whether this is a cache after peers of an infohash were found at time `now`.
    pub open spec fn takes_in(
        &self,
        before: PeerCache,
        infohash: Infohash,
        found: Seq<PeerModel>,
        now: u64,
    ) -> bool {
        exists|grown: PeerCache| #[trigger]
            grown.has_added(before, infohash, found, now) && self.is_bounded(grown)
    }

    /// Adds peers of an infohash that were found at time `now`: a known peer is updated, expired
    /// ones are dropped, and of too many the ones with the lowest scores. If the cache then has too
    /// many peers, the least recently active ones go.
    pub fn add_peers_at(&mut self, infohash: &Infohash, new_peers: &[PeerInfo], now: u64)
        requires
            old(self).wf(),
        ensures
            final(self).wf(),
            final(self).same_limits(*old(self)),
            final(self).takes_in(*old(self), *infohash, views(new_peers@), now),
    {
        let ghost before = groups(self.peers);
        let mut group: PeerGroup = match take_group(&mut self.peers, infohash) {
            Some(g) => g,
            None => PeerGroup::empty(),
        };
        let ghost old_group = old(self).group(*infohash);
        assert(group.models() == old_group);
        merge_into(&mut group, new_peers, now);
        retain_unexpired(&mut group.peers, self.ttl_secs, now);
        trim(&mut group, self.max_per_infohash);
        let ghost kept = group.models();
        put_group(&mut self.peers, *infohash, group);
        let ghost grown = *self;
        proof {
            let after = groups(grown.peers);
            assert(after =~= before.insert(*infohash, after[*infohash]));
            assert(grown.group(*infohash) == kept);
            assert forall|other: Infohash| other != *infohash implies #[trigger] grown.group(other)
                == old(self).group(other) by {
                assert(after.contains_key(other) == before.contains_key(other));
            }
            assert(grown.known() =~= old(self).known().insert(*infohash));
            assert(grown.has_added(*old(self), *infohash, views(new_peers@), now));
        }
        self.make_room();
    }

    /// Adds peers of an infohash that were found just now.
    pub fn add_peers(&mut self, infohash: &Infohash, new_peers: &[PeerInfo])
        requires
            old(self).wf(),
        ensures
            final(self).wf(),
            final(self).same_limits(*old(self)),
            exists|now: u64| #[trigger]
                final(self).takes_in(*old(self), *infohash, views(new_peers@), now),
    {
        let now: u64 = unix_nanos();
        self.add_peers_at(infohash, new_peers, now);
    }

    /// The infohash, the address and the last activity of every peer.
    fn ages(&self) -> (r: Vec<Idle>)
        ensures
            groups(self.peers).dom().finite(),
            r@.len() == self.total(),
            r@.no_duplicates(),
            forall|i: int| 0 <= i < r@.len() ==> self.has_idle(#[trigger] r@[i]),
            forall|k: Infohash, a: SocketAddr|
                #![trigger self.group(k).contains_key(a)]
                self.group(k).contains_key(a) ==> r@.contains(self.idle_of(k, a)),
    {
        let keys: Vec<Infohash> = group_keys(&self.peers);
        let ghost all = groups(self.peers);
        proof {
            vstd::seq_lib::seq_to_set_is_finite(keys@);
            assert forall|k: Infohash| keys@.contains(k) <==> #[trigger] all.contains_key(k) by {
                assert(keys@.to_set().contains(k) <==> keys@.contains(k));
            }
        }
        let mut out: Vec<Idle> = Vec::new();
        let mut i: usize = 0;
        let ghost mut rest = all;
        while i < keys.len()
            invariant
                i <= keys@.len(),
                keys@.no_duplicates(),
                all == groups(self.peers),
                all.dom().finite(),
                rest.dom().finite(),
                rest.submap_of(all),
                forall|j: int| i <= j < keys@.len() ==> rest.contains_key(#[trigger] keys@[j]),
                forall|k: Infohash| #[trigger]
                    rest.contains_key(k) ==> exists|j: int| i <= j < keys@.len() && keys@[j] == k,
                out@.len() + weight(rest, group_len()) == self.total(),
                out@.no_duplicates(),
                forall|j: int|
                    0 <= j < out@.len() ==> self.has_idle(#[trigger] out@[j])
                        && !rest.contains_key(out@[j].infohash),
                forall|k: Infohash, a: SocketAddr|
                    #![trigger self.group(k).contains_key(a)]
                    self.group(k).contains_key(a) && !rest.contains_key(k) ==> out@.contains(
                        self.idle_of(k, a),
                    ),
            decreases keys@.len() - i,
        {
            let ghost before = rest;
            let ghost k = keys@[i as int];
            let ghost listed = out@;
            proof {
                assert(before.contains_key(keys@[i as int]));
                assert(all.contains_key(k));
                lemma_weight_remove(before, k, group_len());
                rest = before.remove(k);
                assert forall|j: int| i + 1 <= j < keys@.len() implies rest.contains_key(
                    #[trigger] keys@[j],
                ) by {
                    assert(keys@[j] != keys@[i as int]);
                }
                assert forall|x: Infohash| #[trigger] rest.contains_key(x) implies exists|j: int|
                    i + 1 <= j < keys@.len() && keys@[j] == x by {
                    let j = choose|j: int| i <= j < keys@.len() && keys@[j] == x;
                    assert(j != i);
                }
            }
            if let Some(group) = view_group(&self.peers, &keys[i]) {
                append_ages(&mut out, keys[i], &group);
                proof {
                    assert(group.models() == self.group(k));
                    assert forall|j: int| 0 <= j < out@.len() implies self.has_idle(
                        #[trigger] out@[j],
                    ) && !rest.contains_key(out@[j].infohash) by {
                        if j < listed.len() {
                            assert(out@[j] == listed[j]);
                        }
                    }
                    assert forall|x: int, y: int| 0 <= x < y < out@.len() implies out@[x]
                        != out@[y] by {
                        if y < listed.len() {
                            assert(out@[x] == listed[x] && out@[y] == listed[y]);
                        } else if x < listed.len() {
                            assert(out@[x] == listed[x]);
                            assert(before.contains_key(k));
                        }
                    }
                    assert forall|h: Infohash, a: SocketAddr|
                        #![trigger self.group(h).contains_key(a)]
                        self.group(h).contains_key(a) && !rest.contains_key(
                            h,
                        ) implies out@.contains(self.idle_of(h, a)) by {
                        if h == k {
                            let j = choose|j: int|
                                listed.len() <= j < out@.len() && (#[trigger] out@[j]).addr == a;
                            assert(out@[j] == self.idle_of(h, a));
                        } else {
                            assert(listed.contains(self.idle_of(h, a)));
                            let j = choose|j: int|
                                0 <= j < listed.len() && listed[j] == self.idle_of(h, a);
                            assert(out@[j] == listed[j]);
                        }
                    }
                    assert(group_len()(all[k]) == group.models().len());
                }
            }
            i += 1;
        }
        proof {
            assert(rest.dom() =~= Set::empty());
            assert(rest =~= Map::empty());
            lemma_weight_empty::<Infohash, PeerGroup>(group_len());
        }
        out
    }

    /// The infohash, the address and the last activity of a peer.
    spec fn idle_of(&self, infohash: Infohash, addr: SocketAddr) -> Idle {
        Idle { infohash, addr, last_active: self.group(infohash)[addr].last_active }
    }

    /// Whether there is such a peer.
    spec fn has_idle(&self, x: Idle) -> bool {
        &&& self.group(x.infohash).contains_key(x.addr)
        &&& x == self.idle_of(x.infohash, x.addr)
    }

    /// Drops one peer.
    fn drop_peer(&mut self, infohash: &Infohash, addr: &SocketAddr)
        requires
            groups(old(self).peers).dom().finite(),
            old(self).group(*infohash).contains_key(*addr),
        ensures
            groups(final(self).peers).dom() == groups(old(self).peers).dom(),
            final(self).same_limits(*old(self)),
            final(self).total() == old(self).total() - 1,
            final(self).group(*infohash) == old(self).group(*infohash).remove(*addr),
            forall|other: Infohash|
                other != *infohash ==> #[trigger] final(self).group(other) == old(self).group(other),
    {
        let ghost mid = groups(self.peers);
        if let Some(group) = take_group(&mut self.peers, infohash) {
            let mut group: PeerGroup = group;
            let ghost old_group = group.models();
            let _ = group.peers.len();
            proof {
                assert(old_group.dom() =~= group.peers@.dom());
            }
            let _ = group.peers.remove(addr);
            assert(group.models() =~= old_group.remove(*addr));
            proof {
                lemma_weight_remove(mid, *infohash, group_len());
                lemma_weight_insert(mid.remove(*infohash), *infohash, group, group_len());
                assert(mid.remove(*infohash).remove(*infohash) =~= mid.remove(*infohash));
                assert(group_len()(group) == group_len()(mid[*infohash]) - 1);
            }
            put_group(&mut self.peers, *infohash, group);
        }
        proof {
            assert(groups(self.peers).dom() =~= mid.dom());
            assert forall|other: Infohash| other != *infohash implies #[trigger] self.group(other)
                == old(self).group(other) by {
                assert(groups(self.peers).contains_key(other) == mid.contains_key(other));
            }
        }
    }

    /// Drops the least recently active peers until there are no more than allowed.
    fn make_room(&mut self)
        ensures
            final(self).wf(),
            final(self).is_bounded(*old(self)),
    {
        let list: Vec<Idle> = self.ages();
        if list.len() <= self.max_peers {
            return;
        }
        let ghost before = *self;
        let sorted: Vec<Idle> = stable_sort(list);
        proof {
            vstd::seq_lib::to_multiset_len(list@);
            vstd::seq_lib::to_multiset_len(sorted@);
            list@.lemma_multiset_has_no_duplicates();
            assert(sorted@.to_multiset() =~= list@.to_multiset());
            sorted@.lemma_multiset_has_no_duplicates_conv();
            assert forall|i: int| 0 <= i < sorted@.len() implies before.has_idle(
                #[trigger] sorted@[i],
            ) by {
                lemma_sorted_elements(list@, sorted@, sorted@[i]);
                assert(sorted@.contains(sorted@[i]));
                let j = choose|j: int| 0 <= j < list@.len() && list@[j] == sorted@[i];
                assert(before.has_idle(list@[j]));
            }
        }
        let excess: usize = sorted.len() - self.max_peers;
        let mut i: usize = 0;
        while i < excess
            invariant
                i <= excess <= sorted@.len(),
                groups(before.peers).dom().finite(),
                groups(self.peers).dom() == groups(before.peers).dom(),
                self.same_limits(before),
                self.total() == before.total() - i,
                sorted@.no_duplicates(),
                forall|j: int| 0 <= j < sorted@.len() ==> before.has_idle(#[trigger] sorted@[j]),
                forall|k: Infohash| #[trigger] self.group(k).submap_of(before.group(k)),
                forall|j: int|
                    0 <= j < i ==> !self.group((#[trigger] sorted@[j]).infohash).contains_key(
                        sorted@[j].addr,
                    ),
                forall|j: int|
                    i <= j < sorted@.len() ==> self.group(
                        (#[trigger] sorted@[j]).infohash,
                    ).contains_key(sorted@[j].addr),
            decreases excess - i,
        {
            let ghost mid = *self;
            let infohash: Infohash = sorted[i].infohash;
            let addr: SocketAddr = sorted[i].addr;
            self.drop_peer(&infohash, &addr);
            proof {
                assert forall|k: Infohash| #[trigger] self.group(k).submap_of(before.group(k)) by {
                    assert(mid.group(k).submap_of(before.group(k)));
                    if k != infohash {
                        assert(self.group(k) == mid.group(k));
                    } else {
                        assert(self.group(k) == mid.group(k).remove(addr));
                        assert(self.group(k).submap_of(mid.group(k)));
                        assert forall|x: SocketAddr| #[trigger]
                            self.group(k).dom().contains(x) implies before.group(k).dom().contains(
                            x,
                        ) && self.group(k)[x] == before.group(k)[x] by {
                            assert(mid.group(k).dom().contains(x) ==> before.group(k).dom().contains(
                                x,
                            ));
                        }
                    }
                }
                assert forall|j: int| 0 <= j < i + 1 implies !self.group(
                    (#[trigger] sorted@[j]).infohash,
                ).contains_key(sorted@[j].addr) by {
                    if j < i {
                        assert(!mid.group(sorted@[j].infohash).contains_key(sorted@[j].addr));
                        if sorted@[j].infohash != infohash {
                            assert(self.group(sorted@[j].infohash) == mid.group(
                                sorted@[j].infohash,
                            ));
                        }
                    }
                }
                assert forall|j: int| i + 1 <= j < sorted@.len() implies self.group(
                    (#[trigger] sorted@[j]).infohash,
                ).contains_key(sorted@[j].addr) by {
                    assert(sorted@[i as int] != sorted@[j]);
                    assert(before.has_idle(sorted@[j]));
                    assert(before.has_idle(sorted@[i as int]));
                    assert(mid.group(sorted@[j].infohash).contains_key(sorted@[j].addr));
                    if sorted@[j].infohash != infohash {
                        assert(self.group(sorted@[j].infohash) == mid.group(sorted@[j].infohash));
                    }
                }
            }
            i += 1;
        }
        proof {
            assert forall|h: Infohash, a: SocketAddr, k: Infohash, b: SocketAddr|
                #![trigger self.group(h).contains_key(a), before.group(k).contains_key(b)]
                self.group(h).contains_key(a) && before.group(k).contains_key(b) && !self.group(
                    k,
                ).contains_key(b) implies before.group(k)[b].last_active <= self.group(
                h,
            )[a].last_active by {
                assert(self.group(h).submap_of(before.group(h)));
                assert(before.group(h).contains_key(a));
                let p = before.idle_of(h, a);
                let q = before.idle_of(k, b);
                lemma_sorted_elements(list@, sorted@, p);
                lemma_sorted_elements(list@, sorted@, q);
                let x = choose|x: int| 0 <= x < sorted@.len() && sorted@[x] == p;
                let y = choose|y: int| 0 <= y < sorted@.len() && sorted@[y] == q;
                assert(x >= excess);
                assert(y < excess);
                assert(sorted@[y].rank() <= sorted@[x].rank());
            }
        }
    }

    /// Whether two caches have the same limits.
    pub open spec fn same_limits(&self, other: PeerCache) -> bool {
        &&& self.max_peers == other.max_peers
        &&& self.ttl_secs == other.ttl_secs
        &&& self.max_per_infohash == other.max_per_infohash
    }

    /// Whether another connection to a peer can be counted.
    pub fn can_count_connection(&self, infohash: &Infohash, addr: &SocketAddr) -> (r: bool)
        ensures
            r == can_count(self.group(*infohash), *addr),
    {
        match view_group(&self.peers, infohash) {
            Some(group) => {
                assert(group.models() == self.group(*infohash));
                match group.peers.get(addr) {
                    Some(peer) => peer.connection_attempts < u32::MAX && peer.connection_successes
                        < u32::MAX,
                    None => true,
                }
            },
            None => true,
        }
    }

    /// Notes at time `now` that a connection to a peer succeeded.
    pub fn mark_connection_success_at(&mut self, infohash: &Infohash, addr: &SocketAddr, now: u64)
        requires
            old(self).wf(),
            can_count(old(self).group(*infohash), *addr),
        ensures
            final(self).wf(),
            final(self).same_limits(*old(self)),
            final(self).known() == old(self).known(),
            final(self).group(*infohash) == if old(self).group(*infohash).contains_key(*addr) {
                old(self).group(*infohash).insert(
                    *addr,
                    connected_once(old(self).group(*infohash)[*addr], now),
                )
            } else {
                old(self).group(*infohash)
            },
            forall|other: Infohash|
                other != *infohash ==> #[trigger] final(self).group(other) == old(self).group(other),
    {
        let ghost before = groups(self.peers);
        let ghost old_group = self.group(*infohash);
        if let Some(group) = take_group(&mut self.peers, infohash) {
            let mut group: PeerGroup = group;
            assert(group.models() == old_group);
            if let Some(peer) = group.peers.remove(addr) {
                let mut peer: PeerInfo = peer;
                let ghost p = peer@;
                assert(old(self).group(*infohash).contains_key(*addr) && p == old_group[*addr]);
                peer.connection_attempts = peer.connection_attempts + 1;
                peer.connection_successes = peer.connection_successes + 1;
                peer.consecutive_failures = 0;
                peer.last_active = now;
                peer.calculate_priority_at(now);
                assert(peer@ =~= connected_once(p, now));
                group.peers.insert(*addr, peer);
                assert(group.models() =~= old_group.insert(*addr, connected_once(p, now)));
            } else {
                assert(group.models() =~= old_group);
            }
            put_group(&mut self.peers, *infohash, group);
        }
        proof {
            assert(groups(self.peers).dom() =~= groups(old(self).peers).dom());
            lemma_one_group_changed(*old(self), *self, *infohash);
        }
    }

    /// Notes that a connection to a peer succeeded just now.
    pub fn mark_connection_success(&mut self, infohash: &Infohash, addr: &SocketAddr)
        requires
            old(self).wf(),
            can_count(old(self).group(*infohash), *addr),
        ensures
            final(self).wf(),
            final(self).same_limits(*old(self)),
            final(self).known() == old(self).known(),
            old(self).group(*infohash).contains_key(*addr) ==> exists|now: u64|
                final(self).group(*infohash) == old(self).group(*infohash).insert(
                    *addr,
                    #[trigger] connected_once(old(self).group(*infohash)[*addr], now),
                ),
            !old(self).group(*infohash).contains_key(*addr) ==> final(self).group(*infohash) == old(
                self,
            ).group(*infohash),
            forall|other: Infohash|
                other != *infohash ==> #[trigger] final(self).group(other) == old(self).group(other),
    {
        self.mark_connection_success_at(infohash, addr, unix_nanos());
    }

    /// Notes at time `now` that a connection to a peer failed. A peer with too many failures is
    /// dropped.
    pub fn mark_connection_failure_at(&mut self, infohash: &Infohash, addr: &SocketAddr, now: u64)
        requires
            old(self).wf(),
            can_count(old(self).group(*infohash), *addr),
        ensures
            final(self).wf(),
            final(self).same_limits(*old(self)),
            final(self).known() == old(self).known(),
            final(self).group(*infohash) == group_failed(old(self).group(*infohash), *addr, now),
            forall|other: Infohash|
                other != *infohash ==> #[trigger] final(self).group(other) == old(self).group(other),
    {
        let ghost old_group = self.group(*infohash);
        if let Some(group) = take_group(&mut self.peers, infohash) {
            let mut group: PeerGroup = group;
            assert(group.models() == old_group);
            let _ = group.peers.len();
            assert(old_group.dom() =~= group.peers@.dom());
            if let Some(peer) = group.peers.remove(addr) {
                let mut peer: PeerInfo = peer;
                let ghost p = peer@;
                assert(old(self).group(*infohash).contains_key(*addr) && p == old_group[*addr]);
                peer.connection_attempts = peer.connection_attempts + 1;
                if peer.consecutive_failures < MAX_CONSECUTIVE_FAILURES - 1 {
                    peer.consecutive_failures = peer.consecutive_failures + 1;
                    peer.calculate_priority_at(now);
                    assert(peer@ =~= failed_once(p, now));
                    group.peers.insert(*addr, peer);
                    assert(group.models() =~= old_group.insert(*addr, failed_once(p, now)));
                } else {
                    assert(group.models() =~= old_group.remove(*addr));
                }
            } else {
                assert(group.models() =~= old_group);
            }
            put_group(&mut self.peers, *infohash, group);
        }
        proof {
            assert(groups(self.peers).dom() =~= groups(old(self).peers).dom());
            lemma_one_group_changed(*old(self), *self, *infohash);
        }
    }

    /// Notes that a connection to a peer failed just now.
    pub fn mark_connection_failure(&mut self, infohash: &Infohash, addr: &SocketAddr)
        requires
            old(self).wf(),
            can_count(old(self).group(*infohash), *addr),
        ensures
            final(self).wf(),
            final(self).same_limits(*old(self)),
            final(self).known() == old(self).known(),
            exists|now: u64|
                final(self).group(*infohash) == #[trigger] group_failed(
                    old(self).group(*infohash),
                    *addr,
                    now,
                ),
            forall|other: Infohash|
                other != *infohash ==> #[trigger] final(self).group(other) == old(self).group(other),
    {
        self.mark_connection_failure_at(infohash, addr, unix_nanos());
    }

    /// Whether this is what is left of a cache without the peers that have expired at time `now`.
    pub open spec fn is_cleaned(&self, before: PeerCache, now: u64) -> bool {
        &&& forall|infohash: Infohash| #[trigger]
            self.group(infohash) == unexpired(before.group(infohash), before.ttl_secs, now)
        &&& forall|infohash: Infohash| #[trigger]
            self.known().contains(infohash) <==> before.known().contains(infohash) && unexpired(
                before.group(infohash),
                before.ttl_secs,
                now,
            ).dom() != Set::<SocketAddr>::empty()
    }

    /// Drops the peers that have expired at time `now`, and the infohashes that are left without
    /// any.
    pub fn cleanup_expired_at(&mut self, now: u64)
        requires
            old(self).wf(),
        ensures
            final(self).wf(),
            final(self).same_limits(*old(self)),
            final(self).is_cleaned(*old(self), now),
            final(self).total() <= old(self).total(),
    {
        let keys: Vec<Infohash> = group_keys(&self.peers);
        let ghost before = *self;
        proof {
            vstd::seq_lib::seq_to_set_is_finite(keys@);
            assert forall|k: Infohash| keys@.contains(k) <==> #[trigger] groups(
                before.peers,
            ).contains_key(k) by {
                assert(keys@.to_set().contains(k) <==> keys@.contains(k));
            }
        }
        let mut i: usize = 0;
        while i < keys.len()
            invariant
                i <= keys@.len(),
                keys@.no_duplicates(),
                self.same_limits(before),
                forall|k: Infohash| keys@.contains(k) <==> #[trigger] groups(
                    before.peers,
                ).contains_key(k),
                forall|j: int|
                    0 <= j < i ==> {
                        &&& self.group(#[trigger] keys@[j]) == unexpired(
                            before.group(keys@[j]),
                            before.ttl_secs,
                            now,
                        )
                        &&& groups(self.peers).contains_key(keys@[j]) <==> unexpired(
                            before.group(keys@[j]),
                            before.ttl_secs,
                            now,
                        ).dom() != Set::<SocketAddr>::empty()
                    },
                forall|j: int|
                    i <= j < keys@.len() ==> groups(self.peers).contains_key(#[trigger] keys@[j])
                        && groups(self.peers)[keys@[j]] == groups(before.peers)[keys@[j]],
                forall|k: Infohash| #[trigger] groups(self.peers).contains_key(k) ==> keys@.contains(k),
                groups(self.peers).dom().finite(),
                self.total() <= before.total(),
            decreases keys@.len() - i,
        {
            let infohash: Infohash = keys[i];
            let ghost mid = groups(self.peers);
            let ghost wanted = unexpired(before.group(infohash), before.ttl_secs, now);
            proof {
                assert(keys@.contains(keys@[i as int]));
                assert(groups(before.peers).contains_key(infohash));
                assert(mid.contains_key(infohash));
            }
            if let Some(group) = take_group(&mut self.peers, &infohash) {
                let mut group: PeerGroup = group;
                let ghost old_peers = group.peers@;
                let _ = group.peers.len();
                retain_unexpired(&mut group.peers, self.ttl_secs, now);
                assert(group.models() == wanted);
                let n: usize = group.peers.len();
                proof {
                    assert(group.peers@.dom().subset_of(old_peers.dom())) by {
                        assert(wanted.dom() =~= group.peers@.dom());
                        assert(before.group(infohash).dom() =~= old_peers.dom());
                    }
                    vstd::set_lib::lemma_len_subset(group.peers@.dom(), old_peers.dom());
                    lemma_weight_remove(mid, infohash, group_len());
                    lemma_weight_insert(mid.remove(infohash), infohash, group, group_len());
                    assert(mid.remove(infohash).remove(infohash) =~= mid.remove(infohash));
                    assert(group.models().dom() =~= group.peers@.dom());
                    assert(mid[infohash].models().dom() =~= old_peers.dom());
                    assert(group_len()(group) <= group_len()(mid[infohash]));
                }
                assert(wanted.dom() =~= group.peers@.dom());
                if n > 0 {
                    assert(wanted.dom() != Set::<SocketAddr>::empty()) by {
                        if wanted.dom() == Set::<SocketAddr>::empty() {
                            assert(group.peers@.len() == 0);
                        }
                    }
                    put_group(&mut self.peers, infohash, group);
                } else {
                    assert(wanted.dom() =~= Set::<SocketAddr>::empty());
                    assert(wanted =~= Map::empty());
                }
            }
            proof {
                let after = groups(self.peers);
                assert(self.group(infohash) == wanted);
                assert forall|j: int| 0 <= j < keys@.len() && j != i implies after.contains_key(
                    #[trigger] keys@[j],
                ) == mid.contains_key(keys@[j]) && (mid.contains_key(keys@[j]) ==> after[keys@[j]]
                    == mid[keys@[j]]) by {
                    assert(keys@[j] != keys@[i as int]);
                }
                assert forall|j: int| 0 <= j < i + 1 implies {
                    &&& self.group(#[trigger] keys@[j]) == unexpired(
                        before.group(keys@[j]),
                        before.ttl_secs,
                        now,
                    )
                    &&& after.contains_key(keys@[j]) <==> unexpired(
                        before.group(keys@[j]),
                        before.ttl_secs,
                        now,
                    ).dom() != Set::<SocketAddr>::empty()
                } by {
                    if j < i {
                        assert(after.contains_key(keys@[j]) == mid.contains_key(keys@[j]));
                    }
                }
            }
            i += 1;
        }
        proof {
            assert forall|k: Infohash| #[trigger]
                self.group(k) == unexpired(before.group(k), before.ttl_secs, now) by {
                if keys@.contains(k) {
                    let j = choose|j: int| 0 <= j < keys@.len() && keys@[j] == k;
                    assert(self.group(keys@[j]) == unexpired(
                        before.group(keys@[j]),
                        before.ttl_secs,
                        now,
                    ));
                } else {
                    assert(!groups(before.peers).contains_key(k));
                    assert(!groups(self.peers).contains_key(k));
                    assert(unexpired(before.group(k), before.ttl_secs, now) =~= Map::empty());
                }
            }
            assert forall|k: Infohash| #[trigger]
                self.known().contains(k) <==> before.known().contains(k) && unexpired(
                    before.group(k),
                    before.ttl_secs,
                    now,
                ).dom() != Set::<SocketAddr>::empty() by {
                if keys@.contains(k) {
                    let j = choose|j: int| 0 <= j < keys@.len() && keys@[j] == k;
                    assert(self.group(keys@[j]) == unexpired(
                        before.group(keys@[j]),
                        before.ttl_secs,
                        now,
                    ));
                }
            }
        }
    }

    /// Drops the peers that have expired.
    pub fn cleanup_expired(&mut self)
        requires
            old(self).wf(),
        ensures
            final(self).wf(),
            final(self).same_limits(*old(self)),
            final(self).total() <= old(self).total(),
            exists|now: u64| #[trigger] final(self).is_cleaned(*old(self), now),
    {
        let now: u64 = unix_nanos();
        self.cleanup_expired_at(now);
    }

    /// The number of peers.
    pub open spec fn total(&self) -> nat {
        weight(groups(self.peers), group_len())
    }

    /// The number of infohashes and the number of peers.
    pub fn stats(&self) -> (r: (usize, usize))
        requires
            self.total() <= usize::MAX,
        ensures
            r.0 == self.known().len(),
            r.1 == self.total(),
    {
        let keys: Vec<Infohash> = group_keys(&self.peers);
        let ghost all = groups(self.peers);
        proof {
            vstd::seq_lib::seq_to_set_is_finite(keys@);
            keys@.unique_seq_to_set();
            assert forall|k: Infohash| keys@.contains(k) <==> #[trigger] all.contains_key(k) by {
                assert(keys@.to_set().contains(k) <==> keys@.contains(k));
            }
        }
        let mut count: usize = 0;
        let mut i: usize = 0;
        let ghost mut rest = all;
        while i < keys.len()
            invariant
                i <= keys@.len(),
                keys@.no_duplicates(),
                all == groups(self.peers),
                rest.dom().finite(),
                rest.submap_of(all),
                forall|j: int| i <= j < keys@.len() ==> rest.contains_key(#[trigger] keys@[j]),
                forall|k: Infohash| #[trigger]
                    rest.contains_key(k) ==> exists|j: int| i <= j < keys@.len() && keys@[j] == k,
                count + weight(rest, group_len()) == self.total(),
                self.total() <= usize::MAX,
            decreases keys@.len() - i,
        {
            let ghost before = rest;
            let ghost k = keys@[i as int];
            proof {
                assert(before.contains_key(keys@[i as int]));
                assert(all.contains_key(k));
                lemma_weight_remove(before, k, group_len());
                rest = before.remove(k);
                assert forall|j: int| i + 1 <= j < keys@.len() implies rest.contains_key(
                    #[trigger] keys@[j],
                ) by {
                    assert(keys@[j] != keys@[i as int]);
                }
                assert forall|x: Infohash| #[trigger] rest.contains_key(x) implies exists|j: int|
                    i + 1 <= j < keys@.len() && keys@[j] == x by {
                    let j = choose|j: int| i <= j < keys@.len() && keys@[j] == x;
                    assert(j != i);
                }
            }
            if let Some(group) = view_group(&self.peers, &keys[i]) {
                let n: usize = group.peers.len();
                assert(group.models().dom() =~= group.peers@.dom());
                assert(n == group_len()(all[k]));
                count = count + n;
            }
            i += 1;
        }
        proof {
            assert(rest.dom() =~= Set::empty());
            assert(rest =~= Map::empty());
            lemma_weight_empty::<Infohash, PeerGroup>(group_len());
        }
        (keys.len(), count)
    }

    /// The number of peers.
    pub fn len(&self) -> (r: usize)
        requires
            self.total() <= usize::MAX,
        ensures
            r == self.total(),
    {
        self.stats().1
    }

    /// Whether there is no peer.
    pub fn is_empty(&self) -> (r: bool)
        requires
            self.total() <= usize::MAX,
        ensures
            r == (self.total() == 0),
    {
        self.stats().1 == 0
    }

    /// The number of peers of an infohash.
    pub fn len_for_infohash(&self, infohash: &Infohash) -> (r: usize)
        ensures
            r == self.group(*infohash).len(),
    {
        match view_group(&self.peers, infohash) {
            Some(group) => {
                assert(group.models().dom() =~= group.peers@.dom());
                group.peers.len()
            },
            None => 0,
        }
    }

    /// The number of peers of an infohash.
    pub fn peer_count(&self, infohash: &Infohash) -> (r: usize)
        ensures
            r == self.group(*infohash).len(),
    {
        self.len_for_infohash(infohash)
    }

    /// The infohashes, in no particular order.
    pub fn infohashes(&self) -> (r: Vec<Infohash>)
        ensures
            r@.no_duplicates(),
            r@.to_set() == self.known(),
    {
        group_keys(&self.peers)
    }

    /// Drops everything.
    pub fn clear(&mut self)
        ensures
            final(self).wf(),
            final(self).same_limits(*old(self)),
            groups(final(self).peers) == no_groups(),
    {
        clear_groups(&mut self.peers);
        proof {
            lemma_weight_empty::<Infohash, PeerGroup>(group_len());
        }
    }
}

impl Default for PeerCache {
    fn default() -> (r: PeerCache)
        ensures
            r.wf(),
            groups(r.peers) == no_groups(),
            r.max_peers == 5000,
            r.ttl_secs == 86400,
            r.max_per_infohash == 500,
    {
        PeerCache::new(5000, 86400)
    }
}

/// A cache stays within its limit when one group changes and does not grow.
proof fn lemma_one_group_changed(before: PeerCache, after: PeerCache, infohash: Infohash)
    requires
        before.wf(),
        after.same_limits(before),
        groups(before.peers).dom().finite(),
        groups(after.peers).dom() == groups(before.peers).dom(),
        forall|k: Infohash|
            k != infohash && groups(before.peers).contains_key(k) ==> #[trigger] groups(
                after.peers,
            )[k] == groups(before.peers)[k],
        after.group(infohash).len() <= before.group(infohash).len(),
    ensures
        after.wf(),
        after.known() == before.known(),
        forall|other: Infohash|
            other != infohash ==> #[trigger] after.group(other) == before.group(other),
{
    let m = groups(before.peers);
    let n = groups(after.peers);
    assert forall|other: Infohash| other != infohash implies #[trigger] after.group(other)
        == before.group(other) by {
        assert(n.contains_key(other) == m.contains_key(other));
    }
    if m.contains_key(infohash) {
        lemma_weight_remove(m, infohash, group_len());
        lemma_weight_remove(n, infohash, group_len());
        assert(m.remove(infohash) =~= n.remove(infohash));
    } else {
        assert(m =~= n);
    }
}

/// Adds peers that were found at time `now` to a group.
fn merge_into(group: &mut PeerGroup, found: &[PeerInfo], now: u64)
    ensures
        final(group).models() == group_with(old(group).models(), views(found@), now),
{
    let ghost before = group.models();
    let ghost all = views(found@);
    let mut i: usize = 0;
    assert(group_with(before, all.take(0), now) == before);
    while i < found.len()
        invariant
            i <= found@.len() == all.len(),
            all == views(found@),
            group.models() == group_with(before, all.take(i as int), now),
        decreases found@.len() - i,
    {
        let ghost mid = group.models();
        let ghost x = all[i as int];
        let addr: SocketAddr = found[i].addr;
        proof {
            assert(all.take(i + 1).drop_last() =~= all.take(i as int));
            assert(all.take(i + 1).last() == x);
        }
        match group.peers.remove(&addr) {
            Some(known) => {
                let mut peer: PeerInfo = known;
                let ghost k = peer@;
                assert(mid.contains_key(addr) && k == mid[addr]);
                peer.last_active = now;
                if peer.connection_attempts < found[i].connection_attempts {
                    peer.connection_attempts = found[i].connection_attempts;
                }
                if peer.connection_successes < found[i].connection_successes {
                    peer.connection_successes = found[i].connection_successes;
                }
                peer.calculate_priority_at(now);
                assert(peer@ =~= merged(k, x, now));
                group.peers.insert(addr, peer);
                assert(group.models() =~= mid.insert(addr, merged(k, x, now)));
            },
            None => {
                group.peers.insert(addr, found[i].duplicate());
                assert(group.models() =~= mid.insert(addr, x));
            },
        }
        i += 1;
    }
    assert(all.take(i as int) =~= all);
}

/// The addresses and scores of a group.
fn scores(group: &PeerGroup) -> (r: Vec<Scored>)
    ensures
        r@.len() == group.models().len(),
        group.models().dom().finite(),
        forall|i: int, j: int|
            #![trigger r@[i], r@[j]]
            0 <= i < j < r@.len() ==> r@[i].addr != r@[j].addr,
        forall|i: int|
            0 <= i < r@.len() ==> group.models().contains_key((#[trigger] r@[i]).addr)
                && group.models()[r@[i].addr].priority_score == r@[i].score,
        forall|a: SocketAddr| #[trigger]
            group.models().contains_key(a) ==> exists|i: int|
                0 <= i < r@.len() && (#[trigger] r@[i]).addr == a,
{
    let n: usize = group.peers.len();
    let ghost entries = group.peers.seq();
    let mut out: Vec<Scored> = Vec::with_capacity(n);
    let mut i: usize = 0;
    while i < n
        invariant
            i <= n == entries.len(),
            entries == group.peers.seq(),
            out@.len() == i,
            forall|j: int|
                0 <= j < i ==> (#[trigger] out@[j]).addr == entries[j].0 && out@[j].score
                    == entries[j].1.priority_score,
        decreases n - i,
    {
        out.push(
            Scored { addr: *group.peers.key_at(i), score: group.peers.value_at(i).priority_score },
        );
        i += 1;
    }
    proof {
        lemma_map_of(entries);
        let m = group.models();
        assert(m.dom() =~= group.peers@.dom());
        assert forall|a: int, b: int|
            #![trigger out@[a], out@[b]]
            0 <= a < b < out@.len() implies out@[a].addr != out@[b].addr by {
            assert(entries[a].0@ != entries[b].0@);
        }
        assert forall|a: int| 0 <= a < out@.len() implies m.contains_key((#[trigger] out@[a]).addr)
            && m[out@[a].addr].priority_score == out@[a].score by {
            assert(group.peers@.contains_key(entries[a].0@));
        }
        assert forall|a: SocketAddr| #[trigger] m.contains_key(a) implies exists|j: int|
            0 <= j < out@.len() && (#[trigger] out@[j]).addr == a by {
            let j = choose|j: int| 0 <= j < entries.len() && (#[trigger] entries[j]).0@ == a;
            assert(out@[j].addr == a);
        }
    }
    out
}

/// Appends the peers of a group and when they were last active.
fn append_ages(out: &mut Vec<Idle>, infohash: Infohash, group: &PeerGroup)
    ensures
        final(out)@.len() == old(out)@.len() + group.models().len(),
        forall|i: int| 0 <= i < old(out)@.len() ==> #[trigger] final(out)@[i] == old(out)@[i],
        forall|i: int|
            old(out)@.len() <= i < final(out)@.len() ==> (#[trigger] final(out)@[i]).infohash
                == infohash && group.models().contains_key(final(out)@[i].addr)
                && group.models()[final(out)@[i].addr].last_active == final(out)@[i].last_active,
        forall|i: int, j: int|
            #![trigger final(out)@[i], final(out)@[j]]
            old(out)@.len() <= i < j < final(out)@.len() ==> final(out)@[i].addr
                != final(out)@[j].addr,
        forall|a: SocketAddr| #[trigger]
            group.models().contains_key(a) ==> exists|i: int|
                old(out)@.len() <= i < final(out)@.len() && (#[trigger] final(out)@[i]).addr == a,
{
    let n: usize = group.peers.len();
    let ghost entries = group.peers.seq();
    let ghost before = out@;
    let ghost base = before.len() as int;
    let mut i: usize = 0;
    while i < n
        invariant
            i <= n == entries.len(),
            entries == group.peers.seq(),
            base == before.len(),
            out@.len() == base + i,
            forall|j: int| 0 <= j < base ==> #[trigger] out@[j] == before[j],
            forall|j: int|
                base <= j < base + i ==> (#[trigger] out@[j]).infohash == infohash && out@[j].addr
                    == entries[j - base].0 && out@[j].last_active
                    == entries[j - base].1.last_active,
        decreases n - i,
    {
        out.push(
            Idle {
                infohash,
                addr: *group.peers.key_at(i),
                last_active: group.peers.value_at(i).last_active,
            },
        );
        i += 1;
    }
    proof {
        lemma_map_of(entries);
        let m = group.models();
        assert(m.dom() =~= group.peers@.dom());
        assert forall|a: int, b: int|
            #![trigger out@[a], out@[b]]
            base <= a < b < out@.len() implies out@[a].addr != out@[b].addr by {
            assert(entries[a - base].0@ != entries[b - base].0@);
        }
        assert forall|a: int| base <= a < out@.len() implies m.contains_key(
            (#[trigger] out@[a]).addr,
        ) && m[out@[a].addr].last_active == out@[a].last_active by {
            assert(group.peers@.contains_key(entries[a - base].0@));
        }
        assert forall|a: SocketAddr| #[trigger] m.contains_key(a) implies exists|j: int|
            base <= j < out@.len() && (#[trigger] out@[j]).addr == a by {
            let j = choose|j: int| 0 <= j < entries.len() && (#[trigger] entries[j]).0@ == a;
            assert(out@[base + j].addr == a);
        }
    }
}

/// A sort keeps the elements.
proof fn lemma_sorted_elements<T: HasRank>(s: Seq<T>, out: Seq<T>, x: T)
    requires
        crate::sort::is_stable_sort(s, out),
    ensures
        out.contains(x) <==> s.contains(x),
        out.len() == s.len(),
{
    vstd::seq_lib::to_multiset_len(s);
    vstd::seq_lib::to_multiset_len(out);
    vstd::seq_lib::to_multiset_contains(s, x);
    vstd::seq_lib::to_multiset_contains(out, x);
}

/// A sort of distinct addresses gives distinct addresses.
proof fn lemma_sorted_distinct(s: Seq<Scored>, out: Seq<Scored>)
    requires
        crate::sort::is_stable_sort(s, out),
        forall|i: int, j: int|
            #![trigger s[i], s[j]]
            0 <= i < j < s.len() ==> s[i].addr != s[j].addr,
    ensures
        forall|i: int, j: int|
            #![trigger out[i], out[j]]
            0 <= i < j < out.len() ==> out[i].addr != out[j].addr,
{
    assert(s.no_duplicates());
    s.lemma_multiset_has_no_duplicates();
    assert(out.to_multiset() =~= s.to_multiset());
    out.lemma_multiset_has_no_duplicates_conv();
    assert forall|i: int, j: int|
        #![trigger out[i], out[j]]
        0 <= i < j < out.len() implies out[i].addr != out[j].addr by {
        lemma_sorted_elements(s, out, out[i]);
        lemma_sorted_elements(s, out, out[j]);
        assert(out.contains(out[i]));
        assert(out.contains(out[j]));
        let a = choose|a: int| 0 <= a < s.len() && s[a] == out[i];
        let b = choose|b: int| 0 <= b < s.len() && s[b] == out[j];
        assert(out[i] != out[j]);
        if a < b {
            assert(s[a].addr != s[b].addr);
        } else {
            assert(s[b].addr != s[a].addr);
        }
    }
}

/// Drops the peers with the lowest scores until `max` are left.
fn trim(group: &mut PeerGroup, max: usize)
    ensures
        is_trimmed(old(group).models(), max as nat, final(group).models()),
        old(group).models().dom().finite(),
{
    let list: Vec<Scored> = scores(group);
    let ghost before = group.models();
    if list.len() <= max {
        return;
    }
    let sorted: Vec<Scored> = stable_sort(list);
    proof {
        lemma_sorted_distinct(list@, sorted@);
        vstd::seq_lib::to_multiset_len(list@);
        vstd::seq_lib::to_multiset_len(sorted@);
        assert forall|i: int| 0 <= i < sorted@.len() implies before.contains_key(
            (#[trigger] sorted@[i]).addr,
        ) && before[sorted@[i].addr].priority_score == sorted@[i].score by {
            lemma_sorted_elements(list@, sorted@, sorted@[i]);
            assert(sorted@.contains(sorted@[i]));
            let j = choose|j: int| 0 <= j < list@.len() && list@[j] == sorted@[i];
            assert(before.contains_key(list@[j].addr));
        }
        assert forall|a: SocketAddr| #[trigger] before.contains_key(a) implies exists|i: int|
            0 <= i < sorted@.len() && (#[trigger] sorted@[i]).addr == a by {
            let j = choose|j: int| 0 <= j < list@.len() && (#[trigger] list@[j]).addr == a;
            lemma_sorted_elements(list@, sorted@, list@[j]);
            assert(list@.contains(list@[j]));
            let i = choose|i: int| 0 <= i < sorted@.len() && sorted@[i] == list@[j];
            assert(sorted@[i].addr == a);
        }
    }
    let excess: usize = sorted.len() - max;
    let mut i: usize = 0;
    while i < excess
        invariant
            i <= excess <= sorted@.len(),
            before.dom().finite(),
            before.len() == sorted@.len(),
            group.models().dom().finite(),
            group.models().submap_of(before),
            group.models().len() == before.len() - i,
            forall|a: int, b: int|
                #![trigger sorted@[a], sorted@[b]]
                0 <= a < b < sorted@.len() ==> sorted@[a].addr != sorted@[b].addr,
            forall|j: int| 0 <= j < i ==> !group.models().contains_key((#[trigger] sorted@[j]).addr),
            forall|j: int|
                i <= j < sorted@.len() ==> group.models().contains_key((#[trigger] sorted@[j]).addr),
        decreases excess - i,
    {
        let ghost mid = group.models();
        let addr: SocketAddr = sorted[i].addr;
        let _ = group.peers.remove(&addr);
        proof {
            assert(group.models() =~= mid.remove(addr));
            assert forall|j: int| i + 1 <= j < sorted@.len() implies group.models().contains_key(
                (#[trigger] sorted@[j]).addr,
            ) by {
                assert(sorted@[i as int].addr != sorted@[j].addr);
            }
        }
        i += 1;
    }
    proof {
        let after = group.models();
        assert forall|a: SocketAddr, b: SocketAddr|
            #![trigger after.contains_key(a), before.contains_key(b)]
            after.contains_key(a) && before.contains_key(b) && !after.contains_key(
                b,
            ) implies before[b].priority_score <= before[a].priority_score by {
            assert(before.contains_key(a));
            let x = choose|x: int| 0 <= x < sorted@.len() && (#[trigger] sorted@[x]).addr == a;
            let y = choose|y: int| 0 <= y < sorted@.len() && (#[trigger] sorted@[y]).addr == b;
            assert(x >= excess);
            assert(y < excess);
            assert(sorted@[y].rank() <= sorted@[x].rank());
        }
    }
}

/// The values of a map of peers are the peers of the group, each once.
proof fn lemma_lists_group(peers: VecMap<SocketAddr, PeerInfo>)
    requires
        distinct_keys(peers.seq()),
        peers@ == map_of(peers.seq()),
    ensures
        lists_group(
            peer_models(peers@),
            peers.seq().map_values(|e: (SocketAddr, PeerInfo)| e.1@),
        ),
{
    let entries = peers.seq();
    let keys = entries.map_values(|e: (SocketAddr, PeerInfo)| e.0);
    let s = entries.map_values(|e: (SocketAddr, PeerInfo)| e.1@);
    let group = peer_models(peers@);
    lemma_map_of(entries);
    assert(keys.no_duplicates()) by {
        assert forall|i: int, j: int| 0 <= i < j < keys.len() implies keys[i] != keys[j] by {
            assert(entries[i].0@ != entries[j].0@);
        }
    }
    assert forall|i: int| 0 <= i < s.len() implies group.contains_key(#[trigger] keys[i])
        && group[keys[i]] == s[i] by {
        assert(entries[i].0@ == keys[i]);
    }
    assert forall|a: SocketAddr| #[trigger] group.contains_key(a) implies keys.contains(a) by {
        let i = choose|i: int| 0 <= i < entries.len() && (#[trigger] entries[i]).0@ == a;
        assert(keys[i] == a);
    }
}

/// A group within its limit loses nobody.
pub proof fn law_small_group_is_kept(
    group: Map<SocketAddr, PeerModel>,
    max: nat,
    trimmed: Map<SocketAddr, PeerModel>,
)
    requires
        group.dom().finite(),
        group.len() <= max,
        is_trimmed(group, max, trimmed),
    ensures
        trimmed == group,
{
    assert(trimmed.dom().subset_of(group.dom()));
    vstd::set_lib::lemma_subset_equality(trimmed.dom(), group.dom());
    assert(trimmed =~= group);
}

/// After peers were found, a group holds those it held and those that were found, each once.
pub proof fn law_peers_are_kept_once(
    group: Map<SocketAddr, PeerModel>,
    found: Seq<PeerModel>,
    now: u64,
    addr: SocketAddr,
)
    ensures
        group_with(group, found, now).contains_key(addr) <==> group.contains_key(addr) || exists|
            i: int,
        | 0 <= i < found.len() && (#[trigger] found[i]).addr == addr,
    decreases found.len(),
{
    if found.len() > 0 {
        let rest = found.drop_last();
        law_peers_are_kept_once(group, rest, now, addr);
        if exists|i: int| 0 <= i < rest.len() && (#[trigger] rest[i]).addr == addr {
            let i = choose|i: int| 0 <= i < rest.len() && (#[trigger] rest[i]).addr == addr;
            assert(found[i].addr == addr);
        }
        if exists|i: int| 0 <= i < found.len() && (#[trigger] found[i]).addr == addr {
            let i = choose|i: int| 0 <= i < found.len() && (#[trigger] found[i]).addr == addr;
            if i < rest.len() {
                assert(rest[i].addr == addr);
            }
        }
        if found.last().addr == addr {
            assert(found[found.len() - 1].addr == addr);
        }
    }
}

/// The peers of an infohash are finitely many and count among all peers.
pub proof fn law_group_is_counted(cache: PeerCache, infohash: Infohash)
    requires
        cache.known().finite(),
    ensures
        cache.group(infohash).dom().finite(),
        cache.group(infohash).len() <= cache.total(),
{
    let m = groups(cache.peers);
    if m.contains_key(infohash) {
        m[infohash].peers.lemma_finite();
        assert(cache.group(infohash).dom() =~= m[infohash].peers@.dom());
        lemma_weight_remove(m, infohash, group_len());
    }
}

/// A group grows by no more peers than were found.
proof fn lemma_group_with_len(group: Map<SocketAddr, PeerModel>, found: Seq<PeerModel>, now: u64)
    requires
        group.dom().finite(),
    ensures
        group_with(group, found, now).dom().finite(),
        group_with(group, found, now).len() <= group.len() + found.len(),
    decreases found.len(),
{
    if found.len() > 0 {
        lemma_group_with_len(group, found.drop_last(), now);
        let rest = group_with(group, found.drop_last(), now);
        let a = found.last().addr;
        assert(group_with(group, found, now).dom() =~= rest.dom().insert(a));
    }
}

/// While there is room, what was found is there: the group holds what it held and what was found, but
/// for what has expired, and no other group changes.
pub proof fn law_found_peers_are_there(
    before: PeerCache,
    after: PeerCache,
    infohash: Infohash,
    found: Seq<PeerModel>,
    now: u64,
)
    requires
        before.wf(),
        after.takes_in(before, infohash, found, now),
        before.group(infohash).len() + found.len() <= before.max_per_infohash,
        before.total() + found.len() <= before.max_peers,
    ensures
        after.group(infohash) == unexpired(
            group_with(before.group(infohash), found, now),
            before.ttl_secs,
            now,
        ),
        forall|other: Infohash|
            other != infohash ==> #[trigger] after.group(other) == before.group(other),
{
    let grown = choose|grown: PeerCache| #[trigger]
        grown.has_added(before, infohash, found, now) && after.is_bounded(grown);
    let all = group_with(before.group(infohash), found, now);
    let kept = unexpired(all, before.ttl_secs, now);
    law_group_is_counted(before, infohash);
    lemma_group_with_len(before.group(infohash), found, now);
    assert(kept.dom().subset_of(all.dom()));
    vstd::set_lib::lemma_len_subset(kept.dom(), all.dom());
    law_small_group_is_kept(kept, before.max_per_infohash as nat, grown.group(infohash));
    let m = groups(before.peers);
    let n = groups(grown.peers);
    assert(n.contains_key(infohash));
    assert(n.dom().finite());
    lemma_weight_remove(n, infohash, group_len());
    assert(n.remove(infohash).dom() =~= m.remove(infohash).dom());
    assert forall|k: Infohash| #[trigger] m.remove(infohash).contains_key(k) implies group_len()(
        m.remove(infohash)[k],
    ) == group_len()(n.remove(infohash)[k]) by {
        assert(n.remove(infohash).dom().contains(k));
        assert(grown.group(k) == before.group(k));
    }
    lemma_weight_same(m.remove(infohash), n.remove(infohash), group_len());
    if m.contains_key(infohash) {
        lemma_weight_remove(m, infohash, group_len());
    } else {
        assert(m.remove(infohash) =~= m);
    }
    assert(after == grown);
}

/// A peer is dropped with the fifth failure in a row, and stays with fewer.
pub proof fn law_failing_peer_is_dropped(
    group: Map<SocketAddr, PeerModel>,
    addr: SocketAddr,
    now: u64,
)
    requires
        group.contains_key(addr),
    ensures
        group_failed(group, addr, now).contains_key(addr) <==> group[addr].consecutive_failures < 4,
        connected_once(group[addr], now).consecutive_failures == 0,
        group_failed(group, addr, now).contains_key(addr) ==> group_failed(
            group,
            addr,
            now,
        )[addr].consecutive_failures == group[addr].consecutive_failures + 1,
{
}

/// A peer that was found under an address that nobody had is kept as it was found. One that was known
/// stays what it was, active now, with the larger ones of the two numbers of attempts and of successes,
/// and scored anew.
pub proof fn law_found_peer_is_added_or_renewed(
    group: Map<SocketAddr, PeerModel>,
    found: Seq<PeerModel>,
    now: u64,
    i: int,
)
    requires
        0 <= i < found.len(),
        forall|j: int| 0 <= j < found.len() && j != i ==> (#[trigger] found[j]).addr != found[i].addr,
    ensures
        ({
            let p = found[i];
            let after = group_with(group, found, now);
            &&& after.contains_key(p.addr)
            &&& !group.contains_key(p.addr) ==> after[p.addr] == p
            &&& group.contains_key(p.addr) ==> {
                let known = group[p.addr];
                let kept = after[p.addr];
                &&& kept.last_active == now
                &&& kept.first_seen == known.first_seen
                &&& kept.addr == known.addr
                &&& kept.source == known.source
                &&& kept.peer_id == known.peer_id
                &&& kept.consecutive_failures == known.consecutive_failures
                &&& kept.is_ipv6 == known.is_ipv6
                &&& kept.metadata == known.metadata
                &&& kept.connection_attempts >= known.connection_attempts
                &&& kept.connection_attempts >= p.connection_attempts
                &&& kept.connection_attempts == known.connection_attempts
                    || kept.connection_attempts == p.connection_attempts
                &&& kept.connection_successes >= known.connection_successes
                &&& kept.connection_successes >= p.connection_successes
                &&& kept.connection_successes == known.connection_successes
                    || kept.connection_successes == p.connection_successes
                &&& kept == kept.prioritized(now)
            }
        }),
    decreases found.len(),
{
    let rest = found.drop_last();
    let p = found[i];
    law_peers_are_kept_once(group, rest, now, p.addr);
    if i < found.len() - 1 {
        assert(rest[i] == p);
        assert forall|j: int| 0 <= j < rest.len() && j != i implies (#[trigger] rest[j]).addr
            != rest[i].addr by {
            assert(found[j].addr != found[i].addr);
        }
        law_found_peer_is_added_or_renewed(group, rest, now, i);
        assert(found[found.len() - 1].addr != p.addr);
    } else {
        assert forall|j: int| 0 <= j < rest.len() implies (#[trigger] rest[j]).addr != p.addr by {
            assert(found[j].addr != found[i].addr);
        }
        lemma_others_stay(group, rest, now, p.addr);
    }
}

/// A peer that was not found again stays as it was.
pub proof fn lemma_others_stay(
    group: Map<SocketAddr, PeerModel>,
    found: Seq<PeerModel>,
    now: u64,
    addr: SocketAddr,
)
    requires
        forall|j: int| 0 <= j < found.len() ==> (#[trigger] found[j]).addr != addr,
    ensures
        group_with(group, found, now).contains_key(addr) <==> group.contains_key(addr),
        group.contains_key(addr) ==> group_with(group, found, now)[addr] == group[addr],
    decreases found.len(),
{
    if found.len() > 0 {
        let rest = found.drop_last();
        assert forall|j: int| 0 <= j < rest.len() implies (#[trigger] rest[j]).addr != addr by {
            assert(found[j].addr != addr);
        }
        assert(found[found.len() - 1].addr != addr);
        lemma_others_stay(group, rest, now, addr);
    }
}

/// A cache whose peers stand under their addresses is one whose peers do after peers were found.
pub proof fn law_peers_stand_under_their_addresses(
    group: Map<SocketAddr, PeerModel>,
    found: Seq<PeerModel>,
    now: u64,
)
    requires
        forall|a: SocketAddr| #[trigger] group.contains_key(a) ==> group[a].addr == a,
    ensures
        forall|a: SocketAddr| #[trigger]
            group_with(group, found, now).contains_key(a) ==> group_with(group, found, now)[a].addr
                == a,
    decreases found.len(),
{
    if found.len() > 0 {
        law_peers_stand_under_their_addresses(group, found.drop_last(), now);
    }
}

/// A cache that is full of peers gives up the least recently active ones, whatever their infohash, down
/// to the limit and no further.
pub proof fn law_who_gives_way(
    before: PeerCache,
    after: PeerCache,
    infohash: Infohash,
    found: Seq<PeerModel>,
    now: u64,
)
    requires
        before.wf(),
        after.takes_in(before, infohash, found, now),
    ensures
        after.total() <= after.max_peers,
        after.max_peers == before.max_peers,
        after.ttl_secs == before.ttl_secs,
        after.max_per_infohash == before.max_per_infohash,
        after.known() == before.known().insert(infohash),
        after.group(infohash).len() <= before.max_per_infohash,
        forall|a: SocketAddr| #[trigger]
            after.group(infohash).contains_key(a) ==> before.group(infohash).contains_key(a) || exists|
                i: int,
            | 0 <= i < found.len() && (#[trigger] found[i]).addr == a,
        forall|a: SocketAddr| #[trigger]
            after.group(infohash).contains_key(a) ==> now <= after.group(infohash)[a].last_active
                + before.ttl_secs * 1_000_000_000,
        forall|other: Infohash|
            other != infohash ==> #[trigger] after.group(other).submap_of(before.group(other)),
        forall|j: Infohash, b: SocketAddr, i: Infohash, a: SocketAddr|
            #![trigger before.group(j).contains_key(b), after.group(i).contains_key(a)]
            j != infohash && before.group(j).contains_key(b) && !after.group(j).contains_key(b)
                && after.group(i).contains_key(a) ==> before.group(j)[b].last_active <= after.group(
                i,
            )[a].last_active,
        (forall|j: Infohash, b: SocketAddr|
            #![trigger before.group(j).contains_key(b)]
            j != infohash && before.group(j).contains_key(b) && !after.group(j).contains_key(b)
                ==> after.total() == after.max_peers),
{
    let grown = choose|grown: PeerCache| #[trigger]
        grown.has_added(before, infohash, found, now) && after.is_bounded(grown);
    let all = group_with(before.group(infohash), found, now);
    let kept = unexpired(all, before.ttl_secs, now);
    law_group_is_counted(before, infohash);
    lemma_group_with_len(before.group(infohash), found, now);
    vstd::set_lib::lemma_len_subset(kept.dom(), all.dom());
    assert(after.group(infohash).submap_of(grown.group(infohash)));
    law_group_is_counted(grown, infohash);
    vstd::set_lib::lemma_len_subset(after.group(infohash).dom(), grown.group(infohash).dom());
    assert forall|a: SocketAddr| #[trigger]
        after.group(infohash).contains_key(a) implies before.group(infohash).contains_key(a) || exists|
        i: int,
    | 0 <= i < found.len() && (#[trigger] found[i]).addr == a by {
        assert(after.group(infohash).dom().contains(a));
        assert(grown.group(infohash).dom().contains(a));
        assert(kept.dom().contains(a));
        law_peers_are_kept_once(before.group(infohash), found, now, a);
    }
    assert forall|a: SocketAddr| #[trigger] after.group(infohash).contains_key(a) implies now
        <= after.group(infohash)[a].last_active + before.ttl_secs * 1_000_000_000 by {
        assert(after.group(infohash).dom().contains(a));
        assert(grown.group(infohash).dom().contains(a));
        assert(kept.dom().contains(a));
    }
    assert forall|other: Infohash|
        other != infohash implies #[trigger] after.group(other).submap_of(before.group(other)) by {
        assert(grown.group(other) == before.group(other));
        assert(after.group(other).submap_of(grown.group(other)));
    }
    assert forall|j: Infohash, b: SocketAddr, i: Infohash, a: SocketAddr|
        #![trigger before.group(j).contains_key(b), after.group(i).contains_key(a)]
        j != infohash && before.group(j).contains_key(b) && !after.group(j).contains_key(b)
            && after.group(i).contains_key(a) implies before.group(j)[b].last_active <= after.group(
        i,
    )[a].last_active by {
        assert(grown.group(j) == before.group(j));
        assert(grown.group(j).contains_key(b));
    }
    assert forall|j: Infohash, b: SocketAddr|
        #![trigger before.group(j).contains_key(b)]
        j != infohash && before.group(j).contains_key(b) && !after.group(j).contains_key(
            b,
        ) implies after.total() == after.max_peers by {
        assert(grown.group(j) == before.group(j));
    }
}

/// A connection that succeeded counts as an attempt and a success and ends the failures in a row; one
/// that failed counts as an attempt and a failure in a row. Nothing else of the peer changes but its score
/// and, after a success, when it was last active.
pub proof fn law_connections_are_counted(p: PeerModel, now: u64)
    requires
        p.connection_attempts < u32::MAX,
        p.connection_successes < u32::MAX,
        p.consecutive_failures < u32::MAX,
    ensures
        ({
            let ok = connected_once(p, now);
            let bad = failed_once(p, now);
            &&& ok.connection_attempts == p.connection_attempts + 1
            &&& ok.connection_successes == p.connection_successes + 1
            &&& ok.consecutive_failures == 0
            &&& ok.last_active == now
            &&& bad.connection_attempts == p.connection_attempts + 1
            &&& bad.connection_successes == p.connection_successes
            &&& bad.consecutive_failures == p.consecutive_failures + 1
            &&& bad.last_active == p.last_active
            &&& ok.addr == p.addr && ok.source == p.source && ok.first_seen == p.first_seen
            &&& ok.peer_id == p.peer_id && ok.is_ipv6 == p.is_ipv6 && ok.metadata == p.metadata
            &&& bad.addr == p.addr && bad.source == p.source && bad.first_seen == p.first_seen
            &&& bad.peer_id == p.peer_id && bad.is_ipv6 == p.is_ipv6 && bad.metadata == p.metadata
            &&& ok == ok.prioritized(now) && bad == bad.prioritized(now)
        }),
{
}

/// A failure touches no other peer of the group.
pub proof fn law_failure_touches_one_peer(
    group: Map<SocketAddr, PeerModel>,
    addr: SocketAddr,
    now: u64,
)
    ensures
        forall|a: SocketAddr| #[trigger]
            group.contains_key(a) && a != addr ==> group_failed(group, addr, now).contains_key(a)
                && group_failed(group, addr, now)[a] == group[a],
        forall|a: SocketAddr| #[trigger]
            group_failed(group, addr, now).contains_key(a) ==> group.contains_key(a),
{
}

/// A cleaned cache holds just the peers that were active in the last `ttl_secs` seconds, as they were, and
/// no infohash without one.
pub proof fn law_cleanup_drops_the_expired(before: PeerCache, after: PeerCache, now: u64)
    requires
        after.is_cleaned(before, now),
    ensures
        forall|infohash: Infohash, a: SocketAddr|
            #![trigger after.group(infohash).contains_key(a)]
            after.group(infohash).contains_key(a) <==> before.group(infohash).contains_key(a) && now
                <= before.group(infohash)[a].last_active + before.ttl_secs * 1_000_000_000,
        forall|infohash: Infohash, a: SocketAddr|
            #![trigger after.group(infohash)[a]]
            after.group(infohash).contains_key(a) ==> after.group(infohash)[a] == before.group(
                infohash,
            )[a],
        forall|infohash: Infohash| #[trigger]
            after.known().contains(infohash) ==> exists|a: SocketAddr| #[trigger]
                after.group(infohash).contains_key(a),
{
    assert forall|infohash: Infohash, a: SocketAddr|
        #![trigger after.group(infohash).contains_key(a)]
        after.group(infohash).contains_key(a) <==> before.group(infohash).contains_key(a) && now
            <= before.group(infohash)[a].last_active + before.ttl_secs * 1_000_000_000 by {
        assert(after.group(infohash) == unexpired(before.group(infohash), before.ttl_secs, now));
    }
    assert forall|infohash: Infohash, a: SocketAddr|
        #![trigger after.group(infohash)[a]]
        after.group(infohash).contains_key(a) implies after.group(infohash)[a] == before.group(
        infohash,
    )[a] by {
        assert(after.group(infohash) == unexpired(before.group(infohash), before.ttl_secs, now));
    }
    assert forall|infohash: Infohash| #[trigger]
        after.known().contains(infohash) implies exists|a: SocketAddr| #[trigger]
        after.group(infohash).contains_key(a) by {
        let d = unexpired(before.group(infohash), before.ttl_secs, now).dom();
        assert(after.group(infohash) == unexpired(before.group(infohash), before.ttl_secs, now));
        if forall|a: SocketAddr| !after.group(infohash).contains_key(a) {
            assert(d =~= Set::<SocketAddr>::empty());
        }
    }
}

/// The list that a group is read from holds each of its peers once and nobody else, so what is given of
/// it are the live peers with the highest scores.
pub proof fn law_best_live_peers_are_given(
    group: Map<SocketAddr, PeerModel>,
    s: Seq<PeerModel>,
    ttl_secs: u64,
    limit: usize,
    now: u64,
)
    requires
        group.dom().finite(),
        lists_group(group, s),
    ensures
        ({
            let given = best_of(s.filter(not_expired(ttl_secs, now)), limit as int);
            &&& given.len() <= limit
            &&& forall|i: int|
                0 <= i < given.len() ==> (exists|a: SocketAddr| #[trigger]
                    group.contains_key(a) && group[a] == given[i]) && now <= (
                #[trigger] given[i]).last_active + ttl_secs * 1_000_000_000
            &&& forall|i: int, j: int|
                #![trigger given[i], given[j]]
                0 <= i <= j < given.len() ==> given[i].priority_score >= given[j].priority_score
            &&& forall|a: SocketAddr| #[trigger]
                group.contains_key(a) && now <= group[a].last_active + ttl_secs * 1_000_000_000
                    && !given.contains(group[a]) ==> given.len() == limit && forall|i: int|
                    0 <= i < given.len() ==> group[a].priority_score <= (
                    #[trigger] given[i]).priority_score
        }),
{
    let live = not_expired(ttl_secs, now);
    let open = s.filter(live);
    let given = best_of(open, limit as int);
    crate::types::law_best_come_first(open, limit as nat);
    let keys = choose|keys: Seq<SocketAddr>|
        #![trigger keys.no_duplicates()]
        keys.no_duplicates() && keys.len() == s.len() && (forall|i: int|
            0 <= i < s.len() ==> group.contains_key(#[trigger] keys[i]) && group[keys[i]] == s[i])
            && (forall|a: SocketAddr| #[trigger] group.contains_key(a) ==> keys.contains(a));
    assert forall|i: int| 0 <= i < given.len() implies (exists|a: SocketAddr| #[trigger]
        group.contains_key(a) && group[a] == given[i]) && now <= (#[trigger] given[i]).last_active
        + ttl_secs * 1_000_000_000 by {
        assert(open.contains(given[i]));
        let q = choose|q: int| 0 <= q < open.len() && open[q] == given[i];
        s.lemma_filter_pred(live, q);
        s.lemma_filter_contains_rev(live, open[q]);
        let z = choose|z: int| 0 <= z < s.len() && s[z] == open[q];
        assert(group.contains_key(keys[z]) && group[keys[z]] == given[i]);
    }
    assert forall|a: SocketAddr| #[trigger]
        group.contains_key(a) && now <= group[a].last_active + ttl_secs * 1_000_000_000
            && !given.contains(group[a]) implies given.len() == limit && forall|i: int|
        0 <= i < given.len() ==> group[a].priority_score <= (#[trigger] given[i]).priority_score by {
        let z = choose|z: int| 0 <= z < keys.len() && keys[z] == a;
        assert(group[keys[z]] == s[z]);
        s.lemma_filter_contains(live, z);
        assert(open.contains(group[a]));
        if open.len() <= limit {
            crate::types::lemma_all_fit(open, limit as nat, group[a]);
        }
    }
}

/// A group that is too large gives up the peers with the lowest scores, down to the limit and no
/// further: one that went scored no higher than one that stayed, and who stays, stays as it was.
pub proof fn law_lowest_scores_give_way(
    group: Map<SocketAddr, PeerModel>,
    max: nat,
    kept: Map<SocketAddr, PeerModel>,
    a: SocketAddr,
    b: SocketAddr,
)
    requires
        is_trimmed(group, max, kept),
    ensures
        group.len() <= max ==> kept.len() == group.len(),
        group.len() > max ==> kept.len() == max,
        kept.contains_key(a) ==> group.contains_key(a) && kept[a] == group[a],
        kept.contains_key(a) && group.contains_key(b) && !kept.contains_key(b)
            ==> group[b].priority_score <= kept[a].priority_score,
{
    if kept.contains_key(a) {
        assert(group.dom().contains(a) && kept[a] == group[a]);
    }
}

} // verus!
