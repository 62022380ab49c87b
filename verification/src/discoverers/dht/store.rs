//! The peers that other nodes announced (BEP 5).

use crate::clock::{elapsed_secs_u32, instant_now, secs_between, secs_since};
use crate::discoverers::dht::routing_table::{age, CompactAddr};
use crate::random::choose_multiple;
use crate::seqs::{at_most, first_where, lemma_filter_step, lemma_first_where, lemma_first_where_at};
use crate::sort::{lemma_stable_sort_exists, stable_sort, stable_sorted, HasRank, Ranked};
use crate::types::Infohash;
use crate::vecmap::{
    lemma_map_of, lemma_weight_empty, lemma_weight_insert, lemma_weight_remove, weight, VecMap,
};
use std::time::Instant;
use vstd::prelude::*;

verus! {

/// Seconds that an announcement is good for.
pub const PEER_TTL_SECS: u32 = 1800;

/// How many peers are kept of one infohash.
pub const MAX_PEERS_PER_INFOHASH: usize = 256;

/// A peer that was announced.
#[derive(Debug, Clone, Copy)]
pub struct PeerEntry {
    /// The peer's address.
    pub addr: CompactAddr,
    /// When it was last announced, in seconds since the store was made.
    pub last_seen: u32,
}

impl PeerEntry {
    /// Whether the announcement is older than [`PEER_TTL_SECS`].
    pub open spec fn expired(&self, now: u32) -> bool {
        age(now, self.last_seen) > PEER_TTL_SECS
    }

    /// Whether the announcement is older than [`PEER_TTL_SECS`].
    pub fn is_expired(&self, now: u32) -> (r: bool)
        ensures
            r == self.expired(now),
    {
        now.saturating_sub(self.last_seen) > PEER_TTL_SECS
    }
}

impl HasRank for PeerEntry {
    open spec fn rank(&self) -> int {
        self.last_seen as int
    }
}

impl Ranked for PeerEntry {
    fn rank_le(&self, other: &Self) -> (r: bool) {
        self.last_seen <= other.last_seen
    }
}

/// The announcements by one address.
pub open spec fn announced_by(addr: CompactAddr) -> spec_fn(PeerEntry) -> bool {
    |e: PeerEntry| e.addr == addr
}

/// The announcements that are still good at time `now`.
pub open spec fn fresh(now: u32) -> spec_fn(PeerEntry) -> bool {
    |e: PeerEntry| !e.expired(now)
}

/// The addresses of a list of announcements.
pub open spec fn addrs_of(list: Seq<PeerEntry>) -> Seq<CompactAddr> {
    list.map_values(|e: PeerEntry| e.addr)
}

/// No two announcements are by one address.
pub open spec fn distinct_peers(list: Seq<PeerEntry>) -> bool {
    forall|i: int, j: int|
        #![trigger list[i], list[j]]
        0 <= i < j < list.len() ==> list[i].addr != list[j].addr
}

/// What holds of the announcements for every infohash.
pub open spec fn valid_list(list: Seq<PeerEntry>) -> bool {
    0 < list.len() <= MAX_PEERS_PER_INFOHASH && distinct_peers(list)
}

/// The announcements for `infohash`, none if it is not known.
pub open spec fn list_of(peers: Map<Seq<u8>, Seq<PeerEntry>>, infohash: Seq<u8>) -> Seq<PeerEntry> {
    if peers.contains_key(infohash) {
        peers[infohash]
    } else {
        Seq::empty()
    }
}

/// A list after an announcement: a known peer is renewed; a new one is added, in place of the least
/// recently announced peer where the list is full.
pub open spec fn list_with(list: Seq<PeerEntry>, addr: CompactAddr, now: u32) -> Seq<PeerEntry> {
    let entry = PeerEntry { addr, last_seen: now };
    let at = first_where(list, announced_by(addr));
    if at < list.len() {
        list.update(at, entry)
    } else if list.len() >= MAX_PEERS_PER_INFOHASH {
        stable_sorted(list).drop_first().push(entry)
    } else {
        list.push(entry)
    }
}

/// The store without the announcements that are no longer good, and without infohashes that none
/// is left of.
pub open spec fn without_expired(
    peers: Map<Seq<u8>, Seq<PeerEntry>>,
    now: u32,
) -> Map<Seq<u8>, Seq<PeerEntry>> {
    Map::new(
        |k: Seq<u8>| peers.contains_key(k) && peers[k].filter(fresh(now)).len() > 0,
        |k: Seq<u8>| peers[k].filter(fresh(now)),
    )
}

/// The length of a list.
pub open spec fn list_len() -> spec_fn(Seq<PeerEntry>) -> nat {
    |list: Seq<PeerEntry>| list.len()
}

/// The number of announcements in the store.
pub open spec fn peer_total(peers: Map<Seq<u8>, Seq<PeerEntry>>) -> nat {
    weight(peers, list_len())
}

/// The lists of a map of vectors.
spec fn lists(m: Map<Seq<u8>, Vec<PeerEntry>>) -> Map<Seq<u8>, Seq<PeerEntry>> {
    m.map_values(|v: Vec<PeerEntry>| v@)
}

/// The peers that were announced, by infohash.
pub struct DhtStore {
    peers: VecMap<Infohash, Vec<PeerEntry>>,
    started_at: Instant,
    total_peers: usize,
}

/// The first `limit` of the announcements that are still good.
fn fresh_addrs(list: &Vec<PeerEntry>, now: u32, limit: usize) -> (r: Vec<CompactAddr>)
    ensures
        r@ == addrs_of(list@.filter(fresh(now))).take(
            at_most(limit as int, list@.filter(fresh(now)).len() as int),
        ),
{
    let mut good: Vec<PeerEntry> = Vec::new();
    let mut i: usize = 0;
    assert(list@.take(0).filter(fresh(now)) =~= Seq::empty()) by {
        reveal(Seq::filter);
    }
    while i < list.len()
        invariant
            i <= list.len(),
            good@ == list@.take(i as int).filter(fresh(now)),
        decreases list.len() - i,
    {
        proof {
            lemma_filter_step(list@, i as int, fresh(now));
        }
        if !list[i].is_expired(now) {
            good.push(list[i]);
        }
        i += 1;
    }
    assert(list@.take(i as int) =~= list@);
    let keep: usize = if limit < good.len() {
        limit
    } else {
        good.len()
    };
    let mut out: Vec<CompactAddr> = Vec::with_capacity(keep);
    let mut k: usize = 0;
    while k < keep
        invariant
            k <= keep <= good.len(),
            out@ == addrs_of(good@).take(k as int),
        decreases keep - k,
    {
        out.push(good[k].addr);
        k += 1;
        assert(out@ =~= addrs_of(good@).take(k as int));
    }
    out
}

/// The announcements that are still good.
fn fresh_list(list: &Vec<PeerEntry>, now: u32) -> (r: Vec<PeerEntry>)
    ensures
        r@ == list@.filter(fresh(now)),
{
    let mut good: Vec<PeerEntry> = Vec::new();
    let mut i: usize = 0;
    assert(list@.take(0).filter(fresh(now)) =~= Seq::empty()) by {
        reveal(Seq::filter);
    }
    while i < list.len()
        invariant
            i <= list.len(),
            good@ == list@.take(i as int).filter(fresh(now)),
        decreases list.len() - i,
    {
        proof {
            lemma_filter_step(list@, i as int, fresh(now));
        }
        if !list[i].is_expired(now) {
            good.push(list[i]);
        }
        i += 1;
    }
    assert(list@.take(i as int) =~= list@);
    good
}

proof fn lemma_list_with(list: Seq<PeerEntry>, addr: CompactAddr, now: u32)
    requires
        distinct_peers(list),
        list.len() <= MAX_PEERS_PER_INFOHASH,
    ensures
        valid_list(list_with(list, addr, now)),
        list_with(list, addr, now).contains(PeerEntry { addr, last_seen: now }),
        list_with(list, addr, now).len() == if first_where(list, announced_by(addr)) == list.len()
            && list.len() < MAX_PEERS_PER_INFOHASH {
            list.len() + 1
        } else {
            list.len()
        },
{
    let entry = PeerEntry { addr, last_seen: now };
    let at = first_where(list, announced_by(addr));
    let out = list_with(list, addr, now);
    lemma_first_where(list, announced_by(addr));
    if at < list.len() {
        assert(out[at] == entry);
        assert(list[at].addr == addr);
        assert(distinct_peers(out)) by {
            assert forall|i: int, j: int|
                #![trigger out[i], out[j]]
                0 <= i < j < out.len() implies out[i].addr != out[j].addr by {
                assert(list[i].addr != list[j].addr);
            }
        }
    } else {
        assert(out.last() == entry);
        assert(out[out.len() - 1] == entry);
        assert forall|i: int| 0 <= i < list.len() implies (#[trigger] list[i]).addr != addr by {
            assert(!announced_by(addr)(list[i]));
        }
        if list.len() >= MAX_PEERS_PER_INFOHASH {
            let sorted = stable_sorted(list);
            lemma_stable_sort_exists(list);
            vstd::seq_lib::to_multiset_len(list);
            vstd::seq_lib::to_multiset_len(sorted);
            assert(list.no_duplicates());
            list.lemma_multiset_has_no_duplicates();
            sorted.lemma_multiset_has_no_duplicates_conv();
            let low = sorted.drop_first();
            assert forall|i: int| 0 <= i < sorted.len() implies list.contains(
                #[trigger] sorted[i],
            ) by {
                vstd::seq_lib::to_multiset_contains(sorted, sorted[i]);
                vstd::seq_lib::to_multiset_contains(list, sorted[i]);
                assert(sorted.contains(sorted[i]));
            }
            assert(distinct_peers(out)) by {
                assert forall|i: int, j: int|
                    #![trigger out[i], out[j]]
                    0 <= i < j < out.len() implies out[i].addr != out[j].addr by {
                    assert(out[i] == sorted[i + 1]);
                    assert(list.contains(sorted[i + 1]));
                    let p = choose|p: int| 0 <= p < list.len() && list[p] == out[i];
                    if j < low.len() {
                        assert(out[j] == sorted[j + 1]);
                        assert(list.contains(sorted[j + 1]));
                        let q = choose|q: int| 0 <= q < list.len() && list[q] == out[j];
                        assert(p != q);
                    }
                }
            }
        }
    }
}

impl DhtStore {
    /// The announcements, by infohash.
    pub closed spec fn peers(&self) -> Map<Seq<u8>, Seq<PeerEntry>> {
        lists(self.peers@)
    }

    /// When the store was made.
    pub closed spec fn start(&self) -> Instant {
        self.started_at
    }

    /// What holds of every store: no list is empty, over-long or holds an address twice, and the
    /// cached total is the number of announcements.
    pub closed spec fn wf(&self) -> bool {
        &&& self.peers@.dom().finite()
        &&& self.total_peers == peer_total(self.peers())
        &&& forall|k: Seq<u8>| #[trigger]
            self.peers().contains_key(k) ==> k.len() == 20 && valid_list(self.peers()[k])
    }

    /// An empty store.
    pub fn new() -> (r: DhtStore)
        ensures
            r.wf(),
            r.peers() == Map::<Seq<u8>, Seq<PeerEntry>>::empty(),
    {
        let r: DhtStore = DhtStore {
            peers: VecMap::new(),
            started_at: instant_now(),
            total_peers: 0,
        };
        proof {
            assert(r.peers() =~= Map::<Seq<u8>, Seq<PeerEntry>>::empty());
            lemma_weight_empty::<Seq<u8>, Seq<PeerEntry>>(list_len());
        }
        r
    }

    /// Seconds since the store was made.
    pub(crate) fn now_secs(&self) -> (r: u32)
        ensures
            exists|now: Instant| r == #[trigger] secs_since(self.start(), now),
    {
        assert(self.start() == self.started_at);
        elapsed_secs_u32(&self.started_at)
    }

    /// Seconds since the store was made, at a point in time.
    pub(crate) fn secs_at(&self, now: &Instant) -> (r: u32)
        ensures
            r == secs_since(self.start(), *now),
    {
        secs_between(&self.started_at, now)
    }

    /// The number of announcements.
    pub fn total_peers(&self) -> (r: usize)
        requires
            self.wf(),
        ensures
            r == peer_total(self.peers()),
    {
        self.total_peers
    }

    /// The number of infohashes.
    pub fn total_infohashes(&self) -> (r: usize)
        ensures
            r == self.peers().len(),
    {
        assert(self.peers().dom() =~= self.peers@.dom());
        self.peers.len()
    }

    /// Notes at time `now` that a peer was announced for an infohash.
    pub fn announce_at(&mut self, infohash: Infohash, addr: CompactAddr, now: u32)
        requires
            old(self).wf(),
            peer_total(old(self).peers()) < usize::MAX,
        ensures
            final(self).wf(),
            final(self).start() == old(self).start(),
            final(self).peers() == old(self).peers().insert(
                infohash@,
                list_with(list_of(old(self).peers(), infohash@), addr, now),
            ),
            peer_total(final(self).peers()) <= peer_total(old(self).peers()) + 1,
    {
        let ghost before = self.peers();
        let ghost k = infohash@;
        let ghost list0 = list_of(before, k);
        let taken: Option<Vec<PeerEntry>> = self.peers.remove(&infohash);
        let mut list: Vec<PeerEntry> = match taken {
            Some(v) => v,
            None => Vec::new(),
        };
        proof {
            assert(before.dom() =~= old(self).peers@.dom());
            assert(list@ =~= list0);
            lemma_list_with(list0, addr, now);
            lemma_first_where(list0, announced_by(addr));
            if before.contains_key(k) {
                lemma_weight_remove(before, k, list_len());
            } else {
                assert(before.remove(k) =~= before);
            }
        }
        let entry: PeerEntry = PeerEntry { addr, last_seen: now };
        let mut at: usize = 0;
        while at < list.len() && !list[at].addr.same(&addr)
            invariant
                at <= list.len(),
                forall|j: int| 0 <= j < at ==> !announced_by(addr)(#[trigger] list@[j]),
            decreases list.len() - at,
        {
            at += 1;
        }
        proof {
            lemma_first_where_at(list@, announced_by(addr), at as int);
        }
        if at < list.len() {
            list.set(at, entry);
        } else if list.len() >= MAX_PEERS_PER_INFOHASH {
            proof {
                lemma_stable_sort_exists(list@);
                vstd::seq_lib::to_multiset_len(list@);
                vstd::seq_lib::to_multiset_len(stable_sorted(list@));
            }
            list = stable_sort(list);
            let _ = list.remove(0);
            assert(list@ =~= stable_sorted(list0).drop_first());
            list.push(entry);
        } else {
            list.push(entry);
            self.total_peers = self.total_peers + 1;
        }
        assert(list@ == list_with(list0, addr, now));
        self.peers.insert(infohash, list);
        proof {
            let after = self.peers();
            assert(after =~= before.insert(k, list_with(list0, addr, now)));
            lemma_weight_insert(before, k, list_with(list0, addr, now), list_len());
        }
    }

    /// Notes that a peer was announced for an infohash just now.
    pub fn announce(&mut self, infohash: Infohash, addr: CompactAddr)
        requires
            old(self).wf(),
            peer_total(old(self).peers()) < usize::MAX,
        ensures
            final(self).wf(),
            final(self).start() == old(self).start(),
            exists|now: Instant|
                final(self).peers() == old(self).peers().insert(
                    infohash@,
                    #[trigger] list_with(
                        list_of(old(self).peers(), infohash@),
                        addr,
                        secs_since(old(self).start(), now),
                    ),
                ),
            peer_total(final(self).peers()) <= peer_total(old(self).peers()) + 1,
    {
        let now: u32 = self.now_secs();
        self.announce_at(infohash, addr, now);
    }

    /// At most `limit` peers of an infohash whose announcement is good at time `now`.
    pub fn get_peers_at(&self, infohash: &Infohash, limit: usize, now: u32) -> (r: Vec<CompactAddr>)
        ensures
            r@ == addrs_of(list_of(self.peers(), infohash@).filter(fresh(now))).take(
                at_most(
                    limit as int,
                    list_of(self.peers(), infohash@).filter(fresh(now)).len() as int,
                ),
            ),
    {
        assert(self.peers().dom() =~= self.peers@.dom());
        match self.peers.get(infohash) {
            Some(list) => fresh_addrs(list, now, limit),
            None => {
                let none: Vec<CompactAddr> = Vec::new();
                proof {
                    reveal(Seq::filter);
                    assert(none@ =~= addrs_of(Seq::<PeerEntry>::empty().filter(fresh(now))).take(0));
                }
                none
            },
        }
    }

    /// At most `limit` peers of an infohash whose announcement is still good.
    pub fn get_peers(&self, infohash: &Infohash, limit: usize) -> (r: Vec<CompactAddr>)
        ensures
            exists|now: Instant|
                r@ == addrs_of(
                    list_of(self.peers(), infohash@).filter(
                        #[trigger] fresh(secs_since(self.start(), now)),
                    ),
                ).take(
                    at_most(
                        limit as int,
                        list_of(self.peers(), infohash@).filter(
                            fresh(secs_since(self.start(), now)),
                        ).len() as int,
                    ),
                ),
    {
        let now: u32 = self.now_secs();
        let r: Vec<CompactAddr> = self.get_peers_at(infohash, limit, now);
        assert(r@ == addrs_of(list_of(self.peers(), infohash@).filter(fresh(now))).take(
            at_most(
                limit as int,
                list_of(self.peers(), infohash@).filter(fresh(now)).len() as int,
            ),
        ));
        r
    }

    /// The number of peers of an infohash whose announcement is good at time `now`.
    pub fn peer_count_at(&self, infohash: &Infohash, now: u32) -> (r: usize)
        ensures
            r == list_of(self.peers(), infohash@).filter(fresh(now)).len(),
    {
        assert(self.peers().dom() =~= self.peers@.dom());
        match self.peers.get(infohash) {
            Some(list) => fresh_list(list, now).len(),
            None => {
                proof {
                    reveal(Seq::filter);
                }
                0
            },
        }
    }

    /// The number of peers of an infohash whose announcement is still good.
    pub fn peer_count(&self, infohash: &Infohash) -> (r: usize)
        ensures
            exists|now: Instant|
                r == list_of(self.peers(), infohash@).filter(
                    #[trigger] fresh(secs_since(self.start(), now)),
                ).len(),
    {
        let now: u32 = self.now_secs();
        let r: usize = self.peer_count_at(infohash, now);
        assert(r == list_of(self.peers(), infohash@).filter(fresh(now)).len());
        r
    }
}

/// The announcements that are still good have distinct addresses if all have.
pub proof fn lemma_filter_list(list: Seq<PeerEntry>, now: u32)
    requires
        distinct_peers(list),
    ensures
        distinct_peers(list.filter(fresh(now))),
        list.filter(fresh(now)).len() <= list.len(),
    decreases list.len(),
{
    reveal(Seq::filter);
    if list.len() > 0 {
        let rest = list.drop_last();
        assert(distinct_peers(rest));
        lemma_filter_list(rest, now);
        let low = rest.filter(fresh(now));
        let out = list.filter(fresh(now));
        if fresh(now)(list.last()) {
            assert(out =~= low.push(list.last()));
            assert forall|i: int| 0 <= i < low.len() implies (#[trigger] low[i]).addr
                != list.last().addr by {
                rest.lemma_filter_contains_rev(fresh(now), low[i]);
                assert(low.contains(low[i]));
                let k = choose|k: int| 0 <= k < rest.len() && rest[k] == low[i];
                assert(list[k].addr != list[list.len() - 1].addr);
            }
        }
    }
}

impl DhtStore {
    /// Drops the announcements that are not good at time `now` and returns their number.
    pub fn evict_expired_at(&mut self, now: u32) -> (r: usize)
        requires
            old(self).wf(),
        ensures
            final(self).wf(),
            final(self).start() == old(self).start(),
            final(self).peers() == without_expired(old(self).peers(), now),
            r == peer_total(old(self).peers()) - peer_total(final(self).peers()),
    {
        let ghost before = self.peers();
        let mut gone: usize = 0;
        let mut kept: VecMap<Infohash, Vec<PeerEntry>> = VecMap::new();
        proof {
            assert(before.dom() =~= self.peers@.dom());
            assert(lists(kept@) =~= Map::<Seq<u8>, Seq<PeerEntry>>::empty());
            lemma_weight_empty::<Seq<u8>, Seq<PeerEntry>>(list_len());
        }
        let ghost total0 = self.total_peers as nat;
        let ghost start = self.started_at;
        loop
            invariant
                self.started_at == start,
                self.peers@.dom().finite(),
                kept@.dom().finite(),
                self.total_peers == total0,
                forall|k: Seq<u8>| #[trigger]
                    before.contains_key(k) ==> k.len() == 20 && valid_list(before[k]),
                forall|k: Seq<u8>| #[trigger]
                    lists(self.peers@).contains_key(k) ==> before.contains_key(k)
                        && before[k] == lists(self.peers@)[k],
                forall|k: Seq<u8>| #[trigger]
                    lists(kept@).contains_key(k) ==> without_expired(before, now).contains_key(k)
                        && without_expired(before, now)[k] == lists(kept@)[k],
                forall|k: Seq<u8>| #[trigger]
                    without_expired(before, now).contains_key(k) ==> lists(
                        self.peers@,
                    ).contains_key(k) != lists(kept@).contains_key(k),
                peer_total(lists(self.peers@)) + peer_total(lists(kept@)) + gone == total0,
            ensures
                self.peers@ == Map::<Seq<u8>, Vec<PeerEntry>>::empty(),
                kept@.dom().finite(),
                self.total_peers == total0,
                forall|k: Seq<u8>| #[trigger]
                    before.contains_key(k) ==> k.len() == 20 && valid_list(before[k]),
                forall|k: Seq<u8>| #[trigger]
                    lists(kept@).contains_key(k) ==> without_expired(before, now).contains_key(k)
                        && without_expired(before, now)[k] == lists(kept@)[k],
                forall|k: Seq<u8>| #[trigger]
                    without_expired(before, now).contains_key(k) ==> lists(kept@).contains_key(k),
                peer_total(lists(kept@)) + gone == total0,
            decreases self.peers@.len(),
        {
            let ghost left = lists(self.peers@);
            let ghost done = lists(kept@);
            match self.peers.pop() {
                Some((infohash, list)) => {
                    let ghost k = infohash@;
                    proof {
                        assert(left.contains_key(k));
                        assert(lists(self.peers@) =~= left.remove(k));
                        assert(left.dom().finite()) by {
                            assert(left.dom() =~= lists(self.peers@).dom().insert(k));
                            assert(lists(self.peers@).dom() =~= self.peers@.dom());
                        }
                        lemma_weight_remove(left, k, list_len());
                        lemma_filter_list(list@, now);
                    }
                    let good: Vec<PeerEntry> = fresh_list(&list, now);
                    gone = gone + (list.len() - good.len());
                    if good.len() > 0 {
                        proof {
                            assert(without_expired(before, now).contains_key(k));
                            assert(!done.contains_key(k));
                            assert(done.dom() =~= kept@.dom());
                            lemma_weight_insert(done, k, good@, list_len());
                            assert(done.remove(k) =~= done);
                        }
                        kept.insert(infohash, good);
                        assert(lists(kept@) =~= done.insert(k, good@));
                        assert(kept@.dom() =~= done.dom().insert(k));
                    } else {
                        assert(!without_expired(before, now).contains_key(k));
                    }
                },
                None => {
                    proof {
                        assert(lists(self.peers@) =~= Map::<Seq<u8>, Seq<PeerEntry>>::empty());
                        lemma_weight_empty::<Seq<u8>, Seq<PeerEntry>>(list_len());
                    }
                    break;
                },
            }
        }
        self.peers = kept;
        self.total_peers = self.total_peers - gone;
        proof {
            assert(self.peers() =~= without_expired(before, now));
            assert forall|k: Seq<u8>| #[trigger] self.peers().contains_key(k) implies k.len() == 20
                && valid_list(self.peers()[k]) by {
                assert(before.contains_key(k));
                lemma_filter_list(before[k], now);
            }
        }
        gone
    }

    /// Drops the announcements that are no longer good and returns their number.
    pub fn evict_expired(&mut self) -> (r: usize)
        requires
            old(self).wf(),
        ensures
            final(self).wf(),
            final(self).start() == old(self).start(),
            exists|now: Instant|
                final(self).peers() == #[trigger] without_expired(
                    old(self).peers(),
                    secs_since(old(self).start(), now),
                ),
            r == peer_total(old(self).peers()) - peer_total(final(self).peers()),
    {
        let now: u32 = self.now_secs();
        self.evict_expired_at(now)
    }

    /// All infohashes, each once, in no particular order.
    pub fn all_infohashes(&self) -> (r: Vec<Infohash>)
        ensures
            r@.len() == self.peers().len(),
            r@.no_duplicates(),
            forall|ih: Infohash| #[trigger] r@.contains(ih) <==> self.peers().contains_key(ih@),
    {
        let mut out: Vec<Infohash> = Vec::with_capacity(self.peers.len());
        let n: usize = self.peers.len();
        let ghost entries = self.peers.seq();
        let mut i: usize = 0;
        while i < n
            invariant
                i <= n == entries.len(),
                entries == self.peers.seq(),
                out@.len() == i,
                forall|j: int| 0 <= j < i ==> #[trigger] out@[j] == entries[j].0,
            decreases n - i,
        {
            out.push(*self.peers.key_at(i));
            i += 1;
        }
        proof {
            lemma_map_of(entries);
            assert(self.peers().dom() =~= self.peers@.dom());
            assert forall|a: int, b: int| 0 <= a < b < out@.len() implies out@[a] != out@[b] by {
                assert(entries[a].0@ != entries[b].0@);
            }
            assert forall|ih: Infohash| #[trigger]
                out@.contains(ih) <==> self.peers().contains_key(ih@) by {
                if out@.contains(ih) {
                    let j = choose|j: int| 0 <= j < out@.len() && out@[j] == ih;
                    assert(entries[j].0 == ih);
                }
                if self.peers().contains_key(ih@) {
                    let j = choose|j: int| 0 <= j < entries.len() && (#[trigger] entries[j]).0@ == ih@;
                    assert(entries[j].0 =~= ih);
                    assert(out@[j] == ih);
                }
            }
        }
        out
    }

    /// At most `max_samples` infohashes drawn at random (BEP 51), and the number of all.
    pub fn sample_infohashes(&self, max_samples: usize) -> (r: (Vec<Infohash>, usize))
        ensures
            r.1 == self.peers().len(),
            r.0@.len() == at_most(max_samples as int, self.peers().len() as int),
            r.0@.no_duplicates(),
            forall|i: int| 0 <= i < r.0@.len() ==> self.peers().contains_key((#[trigger] r.0@[i])@),
    {
        let all: Vec<Infohash> = self.all_infohashes();
        let total: usize = all.len();
        if total <= max_samples {
            assert forall|i: int| 0 <= i < all@.len() implies self.peers().contains_key(
                (#[trigger] all@[i])@,
            ) by {
                assert(all@.contains(all@[i]));
            }
            return (all, total);
        }
        let sample: Vec<Infohash> = choose_multiple(&all, max_samples);
        assert forall|i: int| 0 <= i < sample@.len() implies self.peers().contains_key(
            (#[trigger] sample@[i])@,
        ) by {
            assert(all@.contains(sample@[i]));
        }
        (sample, total)
    }

    /// An estimate of the memory in use, in bytes: 92 for each infohash and 20 for each peer.
    pub fn estimated_memory(&self) -> (r: usize)
        requires
            self.wf(),
            self.peers().len() * 92 + peer_total(self.peers()) * 20 <= usize::MAX,
        ensures
            r == self.peers().len() * 92 + peer_total(self.peers()) * 20,
    {
        self.total_infohashes() * (48 + 20 + 24) + self.total_peers * 20
    }
}

impl Default for DhtStore {
    fn default() -> (r: DhtStore)
        ensures
            r.wf(),
            r.peers() == Map::<Seq<u8>, Seq<PeerEntry>>::empty(),
    {
        DhtStore::new()
    }
}

/// What holds of every store: its lists are valid, and its announcements can be counted.
pub proof fn lemma_store_valid(store: DhtStore)
    requires
        store.wf(),
    ensures
        store.peers().dom().finite(),
        peer_total(store.peers()) <= usize::MAX,
        forall|k: Seq<u8>| #[trigger]
            store.peers().contains_key(k) ==> k.len() == 20 && valid_list(store.peers()[k]),
{
    assert(store.peers().dom() =~= store.peers@.dom());
}

/// The lists of a store hold no peer twice and stay within their limit.
pub proof fn lemma_store_lists(store: DhtStore, infohash: Seq<u8>)
    requires
        store.wf(),
    ensures
        distinct_peers(list_of(store.peers(), infohash)),
        list_of(store.peers(), infohash).len() <= MAX_PEERS_PER_INFOHASH,
{
}

/// A peer that was announced is among the peers of the infohash until the announcement expires.
pub proof fn law_announced_peer_is_found(
    peers: Map<Seq<u8>, Seq<PeerEntry>>,
    infohash: Seq<u8>,
    addr: CompactAddr,
    announced: u32,
    now: u32,
)
    requires
        distinct_peers(list_of(peers, infohash)),
        list_of(peers, infohash).len() <= MAX_PEERS_PER_INFOHASH,
        announced <= now <= announced + PEER_TTL_SECS,
    ensures
        addrs_of(
            list_with(list_of(peers, infohash), addr, announced).filter(fresh(now)),
        ).contains(addr),
{
    let list = list_with(list_of(peers, infohash), addr, announced);
    let e = PeerEntry { addr, last_seen: announced };
    lemma_list_with(list_of(peers, infohash), addr, announced);
    let i = choose|i: int| 0 <= i < list.len() && list[i] == e;
    list.lemma_filter_contains(fresh(now), i);
    let good = list.filter(fresh(now));
    let k = choose|k: int| 0 <= k < good.len() && good[k] == e;
    assert(addrs_of(good)[k] == addr);
}

/// Announcing a peer again changes when it was last seen and nothing else.
pub proof fn law_repeated_announcement(list: Seq<PeerEntry>, addr: CompactAddr, now: u32)
    requires
        exists|i: int| 0 <= i < list.len() && (#[trigger] list[i]).addr == addr,
    ensures
        addrs_of(list_with(list, addr, now)) == addrs_of(list),
{
    let i = choose|i: int| 0 <= i < list.len() && (#[trigger] list[i]).addr == addr;
    lemma_first_where(list, announced_by(addr));
    let at = first_where(list, announced_by(addr));
    if at >= list.len() {
        assert(!announced_by(addr)(list[i]));
    }
    assert(addrs_of(list_with(list, addr, now)) =~= addrs_of(list));
}

/// However many peers are announced for an infohash, the list stays within its limit and holds no
/// address twice.
pub proof fn law_list_stays_bounded(list: Seq<PeerEntry>, addr: CompactAddr, now: u32)
    requires
        distinct_peers(list),
        list.len() <= MAX_PEERS_PER_INFOHASH,
    ensures
        list_with(list, addr, now).len() <= MAX_PEERS_PER_INFOHASH,
        distinct_peers(list_with(list, addr, now)),
{
    lemma_list_with(list, addr, now);
}

/// A full list gives up a peer that was announced no later than any other.
pub proof fn law_full_list_drops_the_oldest(
    list: Seq<PeerEntry>,
    addr: CompactAddr,
    now: u32,
    x: PeerEntry,
)
    requires
        distinct_peers(list),
        list.len() == MAX_PEERS_PER_INFOHASH,
        forall|i: int| 0 <= i < list.len() ==> (#[trigger] list[i]).addr != addr,
        list.contains(x),
        !list_with(list, addr, now).contains(x),
    ensures
        forall|i: int| 0 <= i < list.len() ==> x.last_seen <= (#[trigger] list[i]).last_seen,
{
    lemma_first_where(list, announced_by(addr));
    let at = first_where(list, announced_by(addr));
    if at < list.len() {
        assert(announced_by(addr)(list[at]));
    }
    let sorted = stable_sorted(list);
    lemma_stable_sort_exists(list);
    vstd::seq_lib::to_multiset_len(list);
    vstd::seq_lib::to_multiset_len(sorted);
    vstd::seq_lib::to_multiset_contains(list, x);
    vstd::seq_lib::to_multiset_contains(sorted, x);
    let p = choose|p: int| 0 <= p < sorted.len() && sorted[p] == x;
    let out = list_with(list, addr, now);
    if p > 0 {
        assert(out[p - 1] == x);
    }
    assert forall|i: int| 0 <= i < list.len() implies x.last_seen <= (#[trigger] list[i]).last_seen by {
        vstd::seq_lib::to_multiset_contains(list, list[i]);
        vstd::seq_lib::to_multiset_contains(sorted, list[i]);
        assert(list.contains(list[i]));
        let q = choose|q: int| 0 <= q < sorted.len() && sorted[q] == list[i];
        assert(sorted[0].rank() <= sorted[q].rank());
    }
}

/// An announcement is noted with its time, in place of the earlier one of its address; no other one
/// is touched while there are fewer than 256, and a full list loses one other at most.
pub proof fn law_announcement_is_noted(
    list: Seq<PeerEntry>,
    addr: CompactAddr,
    now: u32,
    x: PeerEntry,
)
    requires
        distinct_peers(list),
        list.len() <= 256,
    ensures
        ({
            let after = list_with(list, addr, now);
            let known = exists|i: int| 0 <= i < list.len() && (#[trigger] list[i]).addr == addr;
            &&& after.contains(PeerEntry { addr, last_seen: now })
            &&& x.addr == addr ==> (after.contains(x) <==> x.last_seen == now)
            &&& x.addr != addr && after.contains(x) ==> list.contains(x)
            &&& x.addr != addr && list.contains(x) && (known || list.len() < 256)
                ==> after.contains(x)
            &&& after.len() == if known || list.len() == 256 {
                list.len() as int
            } else {
                (list.len() + 1) as int
            }
        }),
{
    let after = list_with(list, addr, now);
    let e = PeerEntry { addr, last_seen: now };
    let at = first_where(list, announced_by(addr));
    lemma_first_where(list, announced_by(addr));
    lemma_list_with(list, addr, now);
    if exists|i: int| 0 <= i < list.len() && (#[trigger] list[i]).addr == addr {
        let i = choose|i: int| 0 <= i < list.len() && (#[trigger] list[i]).addr == addr;
        assert(announced_by(addr)(list[i]));
    }
    if at < list.len() {
        assert(announced_by(addr)(list[at]));
        assert(list[at].addr == addr);
        assert(after[at] == e);
        if after.contains(x) && x != e {
            let m = choose|m: int| 0 <= m < after.len() && after[m] == x;
            assert(list[m] == x);
        }
        if list.contains(x) && x.addr != addr {
            let m = choose|m: int| 0 <= m < list.len() && list[m] == x;
            assert(after[m] == x);
        }
    } else {
        assert(after[after.len() - 1] == e);
        let kept = if list.len() >= 256 {
            stable_sorted(list).drop_first()
        } else {
            list
        };
        lemma_stable_sort_exists(list);
        vstd::seq_lib::to_multiset_len(list);
        vstd::seq_lib::to_multiset_len(stable_sorted(list));
        vstd::seq_lib::to_multiset_contains(list, x);
        vstd::seq_lib::to_multiset_contains(stable_sorted(list), x);
        assert(after =~= kept.push(e));
        if after.contains(x) && x != e {
            let m = choose|m: int| 0 <= m < after.len() && after[m] == x;
            assert(kept[m] == x);
            if list.len() >= 256 {
                assert(stable_sorted(list)[m + 1] == x);
            }
            let k = choose|k: int| 0 <= k < list.len() && list[k] == x;
            assert(!announced_by(addr)(list[k]));
        }
        if list.contains(x) && list.len() < 256 {
            let m = choose|m: int| 0 <= m < list.len() && list[m] == x;
            assert(after[m] == x);
        }
    }
}

/// Peers that were announced within the half hour are given, others are not; what is not known has
/// none.
pub proof fn law_good_announcements_are_given(
    peers: Map<Seq<u8>, Seq<PeerEntry>>,
    infohash: Seq<u8>,
    now: u32,
    addr: CompactAddr,
)
    ensures
        addrs_of(list_of(peers, infohash).filter(fresh(now))).contains(addr)
            <==> peers.contains_key(infohash) && exists|i: int|
            0 <= i < peers[infohash].len() && (#[trigger] peers[infohash][i]).addr == addr && now
                - peers[infohash][i].last_seen <= 1800,
{
    let list = list_of(peers, infohash);
    let good = list.filter(fresh(now));
    if addrs_of(good).contains(addr) {
        let j = choose|j: int| 0 <= j < addrs_of(good).len() && addrs_of(good)[j] == addr;
        list.lemma_filter_pred(fresh(now), j);
        assert(good.contains(good[j]));
        list.lemma_filter_contains_rev(fresh(now), good[j]);
        let i = choose|i: int| 0 <= i < list.len() && list[i] == good[j];
        assert(peers[infohash][i].addr == addr);
    }
    if peers.contains_key(infohash) && exists|i: int|
        0 <= i < peers[infohash].len() && (#[trigger] peers[infohash][i]).addr == addr && now
            - peers[infohash][i].last_seen <= 1800 {
        let i = choose|i: int|
            0 <= i < peers[infohash].len() && (#[trigger] peers[infohash][i]).addr == addr && now
                - peers[infohash][i].last_seen <= 1800;
        assert(fresh(now)(list[i]));
        list.lemma_filter_contains(fresh(now), i);
        let j = choose|j: int| 0 <= j < good.len() && good[j] == list[i];
        assert(addrs_of(good)[j] == addr);
    }
}

/// A cleanup drops the announcements that are no longer good, keeps the others in their order, and
/// keeps an infohash if and only if it has one left.
pub proof fn law_cleanup_of_the_store(
    peers: Map<Seq<u8>, Seq<PeerEntry>>,
    now: u32,
    k: Seq<u8>,
    e: PeerEntry,
)
    ensures
        ({
            let after = without_expired(peers, now);
            &&& after.contains_key(k) && after[k].contains(e) <==> peers.contains_key(k)
                && peers[k].contains(e) && now - e.last_seen <= 1800
            &&& after.contains_key(k) ==> after[k].len() > 0
        }),
{
    let list = peers[k];
    let good = list.filter(fresh(now));
    if good.contains(e) {
        list.lemma_filter_contains_rev(fresh(now), e);
        let j = choose|j: int| 0 <= j < good.len() && good[j] == e;
        list.lemma_filter_pred(fresh(now), j);
    }
    if list.contains(e) && now - e.last_seen <= 1800 {
        let i = choose|i: int| 0 <= i < list.len() && list[i] == e;
        assert(fresh(now)(list[i]));
        list.lemma_filter_contains(fresh(now), i);
    }
}

} // verus!
