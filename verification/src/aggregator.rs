//! Bringing the peers of all discoverers together.
//!
//! The discoverers are called by the caller: [`PeerDiscoveryAggregator::plan`] says which, and
//! [`PeerDiscoveryAggregator::merge_results`] takes what they found.

use crate::addrset::ascends;
use crate::cache::{
    law_found_peer_is_added_or_renewed, law_found_peers_are_there, lists_group, not_expired, PeerCache,
};
use crate::clock::unix_nanos;
use crate::discoverers::{Calls, DiscovererRegistry};
use crate::net::SocketAddr;
use crate::seqs::{at_most, first_where, lemma_first_where};
use crate::sort::{
    is_stable_sort, lemma_sorted_views, lemma_stable_sort_exists, of_rank, stable_sort,
    stable_sorted, views, HasRank, Ranked,
};
use crate::traits::{DiscovererStats, PeerDiscoverer};
use crate::types::{
    addr_le, addr_rank, best_of, by_priority, law_best_come_first, lemma_addr_rank_injective, lemma_all_fit,
    DiscoveryResult, Event, Infohash, PeerInfo, PeerModel,
    PeerSource,
};
use crate::vecmap::VecMap;
use vstd::prelude::*;

verus! {

/// The settings of a discovery.
#[derive(Debug, Clone, Copy)]
pub struct PeerDiscoveryConfig {
    pub max_cached_peers: usize,
    pub peer_ttl_secs: u64,
    pub discovery_timeout_secs: u64,
    /// How many discoverers are called at once.
    pub max_concurrent_discoverers: usize,
    pub max_peers_per_discovery: usize,
}

impl Default for PeerDiscoveryConfig {
    fn default() -> (r: PeerDiscoveryConfig)
        ensures
            r == (PeerDiscoveryConfig {
                max_cached_peers: 10000,
                peer_ttl_secs: 86400,
                discovery_timeout_secs: 30,
                max_concurrent_discoverers: 10,
                max_peers_per_discovery: 200,
            }),
    {
        PeerDiscoveryConfig {
            max_cached_peers: 10000,
            peer_ttl_secs: 86400,
            discovery_timeout_secs: 30,
            max_concurrent_discoverers: 10,
            max_peers_per_discovery: 200,
        }
    }
}

/// What a discoverer came back with.
pub struct DiscovererOutcome {
    /// The name of the discoverer.
    pub name: String,
    /// The peers that it found, `None` if it failed.
    pub peers: Option<Vec<PeerInfo>>,
    /// Nanoseconds that it took.
    pub duration: u64,
}

impl DiscovererOutcome {
    /// The peers that were found, none after a failure.
    pub open spec fn found(&self) -> Seq<PeerModel> {
        match self.peers {
            Some(v) => views(v@),
            None => Seq::empty(),
        }
    }
}

/// The peers of several outcomes, one after the other.
pub open spec fn all_found(outcomes: Seq<DiscovererOutcome>) -> Seq<PeerModel>
    decreases outcomes.len(),
{
    if outcomes.len() == 0 {
        Seq::empty()
    } else {
        all_found(outcomes.drop_last()) + outcomes.last().found()
    }
}

/// How long each discoverer took.
pub open spec fn durations_of(outcomes: Seq<DiscovererOutcome>) -> Map<Seq<char>, u64>
    decreases outcomes.len(),
{
    if outcomes.len() == 0 {
        Map::empty()
    } else {
        durations_of(outcomes.drop_last()).insert(outcomes.last().name@, outcomes.last().duration)
    }
}

/// How many peers come from a source.
pub open spec fn count_from(peers: Seq<PeerModel>, source: PeerSource) -> nat
    decreases peers.len(),
{
    if peers.len() == 0 {
        0
    } else {
        count_from(peers.drop_last(), source) + if peers.last().source == source {
            1nat
        } else {
            0
        }
    }
}

/// Whether `counts` has how many peers come from each source that has any.
pub open spec fn counts_sources(counts: Map<PeerSource, usize>, peers: Seq<PeerModel>) -> bool {
    forall|s: PeerSource|
        #![trigger counts.contains_key(s)]
        (counts.contains_key(s) <==> count_from(peers, s) > 0) && (counts.contains_key(s)
            ==> counts[s] == count_from(peers, s))
}

/// Peers with an address.
pub open spec fn with_addr(addr: SocketAddr) -> spec_fn(PeerModel) -> bool {
    |p: PeerModel| p.addr == addr
}

/// The addresses of peers.
pub open spec fn peer_addrs(peers: Seq<PeerModel>) -> Seq<SocketAddr> {
    peers.map_values(|p: PeerModel| p.addr)
}

/// Whether `out` has of all peers with one address the first, in the order of the addresses.
pub open spec fn is_deduped(peers: Seq<PeerModel>, out: Seq<PeerModel>) -> bool {
    &&& ascends(peer_addrs(out))
    &&& forall|i: int|
        0 <= i < out.len() ==> first_where(peers, with_addr((#[trigger] out[i]).addr)) < peers.len()
            && out[i] == peers[first_where(peers, with_addr(out[i].addr))]
    &&& forall|j: int|
        0 <= j < peers.len() ==> exists|i: int|
            0 <= i < out.len() && (#[trigger] out[i]).addr == (#[trigger] peers[j]).addr
}

/// Of all peers with one address the first, in the order of the addresses. `law_deduped_is_unique`
/// shows that there is only one such list.
pub open spec fn deduped(peers: Seq<PeerModel>) -> Seq<PeerModel> {
    choose|out: Seq<PeerModel>| is_deduped(peers, out)
}

/// Peers with their scores at time `now`.
pub open spec fn scored(peers: Seq<PeerModel>, now: u64) -> Seq<PeerModel> {
    peers.map_values(|p: PeerModel| p.prioritized(now))
}

/// The outcome of a discovery: the peers with the highest scores out of all that were found, each
/// address once.
pub open spec fn discovered(peers: Seq<PeerModel>, limit: int, now: u64) -> Seq<PeerModel> {
    best_of(scored(deduped(peers), now), limit)
}

/// Lists that have of all peers with one address the first, in the order of the addresses, are
/// equal.
pub proof fn law_deduped_is_unique(peers: Seq<PeerModel>, a: Seq<PeerModel>, b: Seq<PeerModel>)
    requires
        is_deduped(peers, a),
        is_deduped(peers, b),
    ensures
        a == b,
{
    let x = peer_addrs(a);
    let y = peer_addrs(b);
    assert forall|c: SocketAddr| #[trigger] y.contains(c) <==> x.contains(c) by {
        if x.contains(c) {
            let i = choose|i: int| 0 <= i < x.len() && x[i] == c;
            let j = first_where(peers, with_addr(a[i].addr));
            lemma_first_where(peers, with_addr(a[i].addr));
            assert(peers[j].addr == c);
            let k = choose|k: int| 0 <= k < b.len() && (#[trigger] b[k]).addr == peers[j].addr;
            assert(y[k] == c);
        }
        if y.contains(c) {
            let i = choose|i: int| 0 <= i < y.len() && y[i] == c;
            let j = first_where(peers, with_addr(b[i].addr));
            lemma_first_where(peers, with_addr(b[i].addr));
            assert(peers[j].addr == c);
            let k = choose|k: int| 0 <= k < a.len() && (#[trigger] a[k]).addr == peers[j].addr;
            assert(x[k] == c);
        }
    }
    crate::addrset::law_sorted_set_is_unique(x, x, y);
    assert forall|i: int| 0 <= i < a.len() implies a[i] == b[i] by {
        assert(x[i] == y[i]);
        assert(a[i].addr == b[i].addr);
    }
    assert(a =~= b);
}

/// A peer ranked by its address.
struct ByAddr {
    peer: PeerInfo,
}

/// The model of a peer ranked by its address.
pub struct ByAddrModel {
    pub peer: PeerModel,
}

impl View for ByAddr {
    type V = ByAddrModel;

    closed spec fn view(&self) -> ByAddrModel {
        ByAddrModel { peer: self.peer@ }
    }
}

impl HasRank for ByAddrModel {
    open spec fn rank(&self) -> int {
        addr_rank(self.peer.addr)
    }
}

impl HasRank for ByAddr {
    closed spec fn rank(&self) -> int {
        addr_rank(self.peer.addr)
    }
}

impl Ranked for ByAddr {
    fn rank_le(&self, other: &Self) -> (r: bool) {
        addr_le(&self.peer.addr, &other.peer.addr)
    }
}

/// The peers of models ranked by address.
spec fn unranked(s: Seq<ByAddrModel>) -> Seq<PeerModel> {
    s.map_values(|m: ByAddrModel| m.peer)
}

/// Models ranked by address.
spec fn ranked(s: Seq<PeerModel>) -> Seq<ByAddrModel> {
    s.map_values(|p: PeerModel| ByAddrModel { peer: p })
}

/// The first element of a filtered sequence is the first one that satisfies the predicate.
proof fn lemma_filter_head<T>(s: Seq<T>, p: spec_fn(T) -> bool)
    requires
        first_where(s, p) < s.len(),
    ensures
        s.filter(p).len() > 0,
        s.filter(p)[0] == s[first_where(s, p)],
    decreases s.len(),
{
    lemma_first_where(s, p);
    let rest = s.drop_first();
    assert(s =~= seq![s[0]] + rest);
    Seq::filter_distributes_over_add(seq![s[0]], rest, p);
    reveal_with_fuel(Seq::filter, 2);
    assert(seq![s[0]].drop_last() =~= Seq::empty());
    if p(s[0]) {
        assert(seq![s[0]].filter(p) =~= seq![s[0]]);
    } else {
        assert(seq![s[0]].filter(p) =~= Seq::empty());
        lemma_filter_head(rest, p);
        assert(s.filter(p) =~= rest.filter(p));
    }
}

/// In a stable sort by address, the first peer with an address is the first one of the input.
proof fn lemma_first_of_address(input: Seq<ByAddrModel>, out: Seq<ByAddrModel>, i: int)
    requires
        is_stable_sort(input, out),
        0 <= i < out.len(),
        i == 0 || out[i - 1].peer.addr != out[i].peer.addr,
    ensures
        first_where(unranked(input), with_addr(out[i].peer.addr)) < input.len(),
        out[i].peer == unranked(input)[first_where(
            unranked(input),
            with_addr(out[i].peer.addr),
        )],
{
    let k = out[i].rank();
    let p = of_rank::<ByAddrModel>(k);
    let addr = out[i].peer.addr;
    assert(out.filter(p) =~= input.filter(p));
    assert forall|j: int| 0 <= j < i implies !p(#[trigger] out[j]) by {
        if out[j].rank() == k {
            assert(out[j].rank() <= out[i - 1].rank());
            assert(out[i - 1].rank() <= out[i].rank());
            lemma_addr_rank_injective(out[i - 1].peer.addr, out[i].peer.addr);
        }
    }
    crate::seqs::lemma_first_where_at(out, p, i);
    lemma_filter_head(out, p);
    lemma_first_where(input, p);
    if first_where(input, p) >= input.len() {
        assert(input.filter(p).len() > 0);
        input.lemma_filter_pred(p, 0);
        input.lemma_filter_contains_rev(p, input.filter(p)[0]);
        let j = choose|j: int| 0 <= j < input.len() && input[j] == input.filter(p)[0];
        assert(!p(input[j]));
    }
    lemma_filter_head(input, p);
    let f = first_where(input, p);
    let plain = unranked(input);
    assert(input[f] == out[i]);
    assert forall|j: int| 0 <= j < f implies !with_addr(addr)(#[trigger] plain[j]) by {
        assert(!p(input[j]));
    }
    assert(with_addr(addr)(plain[f]));
    crate::seqs::lemma_first_where_at(plain, with_addr(addr), f);
}

/// Orders peers by address and keeps of those with one address the first.
pub(crate) fn dedup(peers: &Vec<PeerInfo>) -> (r: Vec<PeerInfo>)
    ensures
        is_deduped(views(peers@), views(r@)),
        views(r@) == deduped(views(peers@)),
{
    let ghost all = views(peers@);
    let mut keyed: Vec<ByAddr> = Vec::with_capacity(peers.len());
    let mut n: usize = 0;
    while n < peers.len()
        invariant
            n <= peers@.len(),
            keyed@.len() == n,
            forall|j: int| 0 <= j < n ==> (#[trigger] keyed@[j]).peer@ == peers@[j]@,
        decreases peers@.len() - n,
    {
        keyed.push(ByAddr { peer: peers[n].duplicate() });
        n += 1;
    }
    proof {
        assert(views(keyed@) =~= ranked(all));
        lemma_sorted_views(keyed@);
        lemma_stable_sort_exists(views(keyed@));
        vstd::seq_lib::to_multiset_len(views(keyed@));
        vstd::seq_lib::to_multiset_len(stable_sorted(views(keyed@)));
    }
    let sorted: Vec<ByAddr> = stable_sort(keyed);
    let ghost input = ranked(all);
    let ghost models = views(sorted@);
    proof {
        assert(models == stable_sorted(input));
        assert(is_stable_sort(input, models));
        assert(unranked(input) =~= all);
    }
    let mut out: Vec<PeerInfo> = Vec::new();
    let mut i: usize = 0;
    while i < sorted.len()
        invariant
            i <= sorted@.len() == models.len(),
            models == views(sorted@),
            input == ranked(all),
            unranked(input) == all,
            is_stable_sort(input, models),
            out@.len() == 0 <==> i == 0,
            i > 0 ==> out@.last().addr == sorted@[i - 1].peer.addr,
            ascends(peer_addrs(views(out@))),
            forall|k: int|
                0 <= k < out@.len() ==> first_where(
                    all,
                    with_addr((#[trigger] views(out@)[k]).addr),
                ) < all.len() && views(out@)[k] == all[first_where(
                    all,
                    with_addr(views(out@)[k].addr),
                )],
            forall|j: int|
                0 <= j < i ==> exists|k: int|
                    0 <= k < out@.len() && (#[trigger] views(out@)[k]).addr == (
                    #[trigger] models[j]).peer.addr,
        decreases sorted@.len() - i,
    {
        let ghost before = out@;
        let fresh: bool = if i == 0 {
            true
        } else {
            !sorted[i].peer.addr.same(&sorted[i - 1].peer.addr)
        };
        if fresh {
            out.push(sorted[i].peer.duplicate());
            proof {
                assert(models[i as int].peer == sorted@[i as int].peer@);
                if i > 0 {
                    assert(models[i - 1].peer == sorted@[i - 1].peer@);
                    assert(models[i - 1].rank() <= models[i as int].rank());
                    if models[i - 1].rank() == models[i as int].rank() {
                        lemma_addr_rank_injective(
                            models[i - 1].peer.addr,
                            models[i as int].peer.addr,
                        );
                    }
                }
                lemma_first_of_address(input, models, i as int);
                let a = peer_addrs(views(out@));
                let b = peer_addrs(views(before));
                assert forall|x: int, y: int|
                    #![trigger a[x], a[y]]
                    0 <= x < y < a.len() implies addr_rank(a[x]) < addr_rank(a[y]) by {
                    assert(a[x] == b[x]);
                    if y < b.len() {
                        assert(a[y] == b[y]);
                    } else if x < b.len() - 1 {
                        assert(addr_rank(b[x]) < addr_rank(b[b.len() - 1]));
                    }
                }
                assert forall|k: int| 0 <= k < out@.len() implies first_where(
                    all,
                    with_addr((#[trigger] views(out@)[k]).addr),
                ) < all.len() && views(out@)[k] == all[first_where(
                    all,
                    with_addr(views(out@)[k].addr),
                )] by {
                    if k < before.len() {
                        assert(views(out@)[k] == views(before)[k]);
                    }
                }
            }
        }
        proof {
            assert forall|j: int| 0 <= j < i + 1 implies exists|k: int|
                0 <= k < out@.len() && (#[trigger] views(out@)[k]).addr == (
                #[trigger] models[j]).peer.addr by {
                if j < i {
                    let k = choose|k: int|
                        0 <= k < before.len() && (#[trigger] views(before)[k]).addr
                            == models[j].peer.addr;
                    assert(views(out@)[k] == views(before)[k]);
                } else {
                    assert(models[j].peer == sorted@[j].peer@);
                    assert(views(out@)[out@.len() - 1].addr == models[j].peer.addr);
                }
            }
        }
        i += 1;
    }
    proof {
        let r = views(out@);
        assert forall|j: int| 0 <= j < all.len() implies exists|k: int|
            0 <= k < r.len() && (#[trigger] r[k]).addr == (#[trigger] all[j]).addr by {
            let x = input[j];
            vstd::seq_lib::to_multiset_contains(input, x);
            vstd::seq_lib::to_multiset_contains(models, x);
            assert(input.contains(x));
            let m = choose|m: int| 0 <= m < models.len() && models[m] == x;
            let k = choose|k: int|
                0 <= k < out@.len() && (#[trigger] views(out@)[k]).addr == models[m].peer.addr;
            assert(r[k].addr == all[j].addr);
        }
        law_deduped_is_unique(all, r, deduped(all));
    }
    out
}

/// Scores peers at time `now`.
fn score_all(peers: Vec<PeerInfo>, now: u64) -> (r: Vec<PeerInfo>)
    ensures
        views(r@) == scored(views(peers@), now),
{
    let ghost all = views(peers@);
    let mut out: Vec<PeerInfo> = Vec::with_capacity(peers.len());
    let mut i: usize = 0;
    while i < peers.len()
        invariant
            i <= peers@.len(),
            out@.len() == i,
            forall|j: int| 0 <= j < i ==> (#[trigger] out@[j])@ == peers@[j]@.prioritized(now),
        decreases peers@.len() - i,
    {
        let mut p: PeerInfo = peers[i].duplicate();
        p.calculate_priority_at(now);
        out.push(p);
        i += 1;
    }
    assert(views(out@) =~= scored(all, now));
    out
}

/// Copies peers.
fn copy_peers(peers: &Vec<PeerInfo>) -> (r: Vec<PeerInfo>)
    ensures
        views(r@) == views(peers@),
{
    let mut out: Vec<PeerInfo> = Vec::with_capacity(peers.len());
    let mut i: usize = 0;
    while i < peers.len()
        invariant
            i <= peers@.len(),
            out@.len() == i,
            forall|j: int| 0 <= j < i ==> (#[trigger] out@[j])@ == peers@[j]@,
        decreases peers@.len() - i,
    {
        out.push(peers[i].duplicate());
        i += 1;
    }
    assert(views(out@) =~= views(peers@));
    out
}

/// Counting a peer of a source.
proof fn lemma_count_push(peers: Seq<PeerModel>, p: PeerModel)
    ensures
        forall|s: PeerSource| #[trigger]
            count_from(peers.push(p), s) == count_from(peers, s) + if p.source == s {
                1nat
            } else {
                0
            },
        forall|s: PeerSource| #[trigger] count_from(peers, s) <= peers.len(),
{
    assert(peers.push(p).drop_last() =~= peers);
    assert forall|s: PeerSource| #[trigger] count_from(peers, s) <= peers.len() by {
        lemma_count_bound(peers, s);
    }
}

proof fn lemma_count_bound(peers: Seq<PeerModel>, s: PeerSource)
    ensures
        count_from(peers, s) <= peers.len(),
    decreases peers.len(),
{
    if peers.len() > 0 {
        lemma_count_bound(peers.drop_last(), s);
    }
}

/// Counts a peer of a source.
fn count_source(
    counts: &mut VecMap<PeerSource, usize>,
    source: PeerSource,
    Ghost(peers): Ghost<Seq<PeerModel>>,
    Ghost(p): Ghost<PeerModel>,
)
    requires
        counts_sources(old(counts)@, peers),
        p.source == source,
        peers.len() < usize::MAX,
    ensures
        counts_sources(final(counts)@, peers.push(p)),
{
    proof {
        lemma_count_push(peers, p);
        assert(old(counts)@.contains_key(source) ==> old(counts)@[source] == count_from(
            peers,
            source,
        ));
        assert(count_from(peers, source) <= peers.len());
        assert(count_from(peers.push(p), source) == count_from(peers, source) + 1);
    }
    let n: usize = match counts.get(&source) {
        Some(n) => *n,
        None => 0,
    };
    counts.insert(source, n + 1);
    proof {
        assert forall|s: PeerSource|
            #![trigger counts@.contains_key(s)]
            (counts@.contains_key(s) <==> count_from(peers.push(p), s) > 0) && (
            counts@.contains_key(s) ==> counts@[s] == count_from(peers.push(p), s)) by {
            assert(old(counts)@.contains_key(s) <==> count_from(peers, s) > 0);
            assert(count_from(peers.push(p), s) == count_from(peers, s) + if p.source == s {
                1nat
            } else {
                0
            });
        }
    }
}

/// The peers of all outcomes, with how many each source gave and how long each discoverer took.
pub(crate) struct Gathered {
    pub peers: Vec<PeerInfo>,
    pub source_stats: VecMap<PeerSource, usize>,
    pub durations: VecMap<String, u64>,
}

/// Puts the peers of all outcomes after those that are given.
pub(crate) fn gather(first: Vec<PeerInfo>, outcomes: &Vec<DiscovererOutcome>) -> (r: Gathered)
    requires
        all_found(outcomes@).len() <= usize::MAX,
    ensures
        views(r.peers@) == views(first@) + all_found(outcomes@),
        counts_sources(r.source_stats@, all_found(outcomes@)),
        r.durations@ == durations_of(outcomes@),
{
    let ghost start = views(first@);
    let mut peers: Vec<PeerInfo> = first;
    let mut source_stats: VecMap<PeerSource, usize> = VecMap::new();
    let mut durations: VecMap<String, u64> = VecMap::new();
    let mut i: usize = 0;
    proof {
        assert(all_found(outcomes@.take(0)) =~= Seq::empty());
        assert(views(peers@) =~= start + all_found(outcomes@.take(0)));
        assert(durations@ =~= durations_of(outcomes@.take(0)));
    }
    while i < outcomes.len()
        invariant
            i <= outcomes@.len(),
            all_found(outcomes@).len() <= usize::MAX,
            views(peers@) == start + all_found(outcomes@.take(i as int)),
            counts_sources(source_stats@, all_found(outcomes@.take(i as int))),
            durations@ == durations_of(outcomes@.take(i as int)),
        decreases outcomes@.len() - i,
    {
        let ghost done = all_found(outcomes@.take(i as int));
        let ghost found = outcomes@[i as int].found();
        proof {
            assert(outcomes@.take(i + 1).drop_last() =~= outcomes@.take(i as int));
            assert(outcomes@.take(i + 1).last() == outcomes@[i as int]);
            lemma_found_prefix(outcomes@, i + 1);
            assert(done + found.take(0) =~= done);
        }
        durations.insert(outcomes[i].name.clone(), outcomes[i].duration);
        match &outcomes[i].peers {
            Some(list) => {
                let mut k: usize = 0;
                while k < list.len()
                    invariant
                        k <= list@.len() == found.len(),
                        found == views(list@),
                        (done + found).len() <= usize::MAX,
                        views(peers@) == start + (done + found.take(k as int)),
                        counts_sources(source_stats@, done + found.take(k as int)),
                    decreases list@.len() - k,
                {
                    let ghost before = views(peers@);
                    let ghost so_far = done + found.take(k as int);
                    count_source(
                        &mut source_stats,
                        list[k].source,
                        Ghost(so_far),
                        Ghost(found[k as int]),
                    );
                    peers.push(list[k].duplicate());
                    k += 1;
                    proof {
                        assert(so_far.push(found[k - 1]) =~= done + found.take(k as int));
                        assert(views(peers@) =~= before.push(found[k - 1]));
                        assert(views(peers@) =~= start + (done + found.take(k as int)));
                    }
                }
                assert(found.take(k as int) =~= found);
            },
            None => {
                assert(done + found =~= done);
            },
        }
        i += 1;
    }
    assert(outcomes@.take(i as int) =~= outcomes@);
    Gathered { peers, source_stats, durations }
}

proof fn lemma_found_prefix(outcomes: Seq<DiscovererOutcome>, i: int)
    requires
        0 <= i <= outcomes.len(),
    ensures
        all_found(outcomes.take(i)).len() <= all_found(outcomes).len(),
    decreases outcomes.len() - i,
{
    if i < outcomes.len() {
        lemma_found_prefix(outcomes, i + 1);
        assert(outcomes.take(i + 1).drop_last() =~= outcomes.take(i));
    } else {
        assert(outcomes.take(i) =~= outcomes);
    }
}

/// The discoverers, the cache, and how they are used.
pub struct PeerDiscoveryAggregator<D: PeerDiscoverer> {
    pub registry: DiscovererRegistry<D>,
    pub cache: PeerCache,
    pub config: PeerDiscoveryConfig,
}

/// What a discovery came to, and the event that tells of it.
pub struct Merged {
    pub result: DiscoveryResult,
    /// None if no peer was found.
    pub event: Option<Event>,
}

impl<D: PeerDiscoverer> PeerDiscoveryAggregator<D> {
    /// An aggregator with an empty cache.
    pub fn new(config: PeerDiscoveryConfig, registry: DiscovererRegistry<D>) -> (r:
        PeerDiscoveryAggregator<D>)
        ensures
            r.config == config,
            r.registry == registry,
            r.cache.wf(),
            r.cache.known() == Set::<Infohash>::empty(),
            r.cache.max_peers == config.max_cached_peers,
            r.cache.ttl_secs == config.peer_ttl_secs,
            r.cache.max_per_infohash == if config.max_cached_peers / 10 < 100 {
                100
            } else {
                (config.max_cached_peers / 10) as int
            },
    {
        let cache: PeerCache = PeerCache::new(config.max_cached_peers, config.peer_ttl_secs);
        assert(cache.known() =~= Set::<Infohash>::empty());
        PeerDiscoveryAggregator { registry, cache, config }
    }

    /// An aggregator with a given cache.
    pub fn with_cache(
        config: PeerDiscoveryConfig,
        registry: DiscovererRegistry<D>,
        cache: PeerCache,
    ) -> (r: PeerDiscoveryAggregator<D>)
        ensures
            r.config == config,
            r.registry == registry,
            r.cache == cache,
    {
        PeerDiscoveryAggregator { registry, cache, config }
    }

    /// All discoverers.
    pub fn discoverers(&self) -> (r: &Vec<D>)
        ensures
            r@ == self.registry.discoverers@,
    {
        self.registry.all()
    }

    /// The number of discoverers.
    pub fn discoverer_count(&self) -> (r: usize)
        ensures
            r == self.registry.discoverers@.len(),
    {
        self.registry.len()
    }

    /// The discoverers to call for a discovery: all that are to be used, as many at once as the
    /// settings allow.
    pub fn plan(&self) -> (r: Calls)
        ensures
            r.calls_all(self.registry.discoverers@, self.config.max_concurrent_discoverers),
    {
        self.registry.to_call(self.config.max_concurrent_discoverers)
    }

    /// Whether this is what `before` becomes, and `r` what it returns, when discoverers found
    /// something at time `now` and `cached` peers were known: the best of the peers are returned and
    /// go into the cache, and an event tells of them.
    pub open spec fn merges(
        &self,
        before: Self,
        infohash: Infohash,
        limit: usize,
        cached: Seq<PeerModel>,
        outcomes: Seq<DiscovererOutcome>,
        duration: u64,
        now: u64,
        r: Merged,
    ) -> bool {
        &&& self.config == before.config
        &&& self.registry == before.registry
        &&& self.cache.same_limits(before.cache)
        &&& r.result.total_duration == duration
        &&& views(r.result.peers@) == discovered(cached + all_found(outcomes), limit as int, now)
        &&& counts_sources(r.result.source_stats@, all_found(outcomes))
        &&& r.result.discoverer_durations@ == durations_of(outcomes)
        &&& r.event is Some <==> r.result.peers@.len() > 0
        &&& r.event matches Some(e) ==> (e matches Event::PeerDiscovered {
            infohash: i,
            peers,
            source,
        } && i == infohash && views(peers@) == views(r.result.peers@) && source@ == "aggregator"@)
        &&& if outcomes.len() == 0 && cached.len() == 0 {
            self.cache == before.cache
        } else {
            self.cache.takes_in(before.cache, infohash, views(r.result.peers@), now)
        }
    }

    /// Takes what the discoverers found at time `now`, together with `cached` peers: of those with
    /// one address the first counts, and the ones with the highest scores stay, `limit` at most.
    /// They go into the cache. If no discoverer was called and nothing was cached, nothing happens.
    pub fn merge_at(
        &mut self,
        infohash: &Infohash,
        limit: usize,
        cached: Vec<PeerInfo>,
        outcomes: &Vec<DiscovererOutcome>,
        duration: u64,
        now: u64,
    ) -> (r: Merged)
        requires
            old(self).cache.wf(),
            all_found(outcomes@).len() <= usize::MAX,
        ensures
            final(self).cache.wf(),
            final(self).merges(
                *old(self),
                *infohash,
                limit,
                views(cached@),
                outcomes@,
                duration,
                now,
                r,
            ),
    {
        let nothing: bool = outcomes.len() == 0 && cached.len() == 0;
        let ghost all = views(cached@) + all_found(outcomes@);
        let gathered: Gathered = gather(cached, outcomes);
        let unique: Vec<PeerInfo> = dedup(&gathered.peers);
        let marked: Vec<PeerInfo> = score_all(unique, now);
        let peers: Vec<PeerInfo> = by_priority(marked, limit);
        let mut event: Option<Event> = None;
        if !nothing {
            self.cache.add_peers_at(infohash, peers.as_slice(), now);
        }
        if peers.len() > 0 {
            event = Some(
                Event::PeerDiscovered {
                    infohash: *infohash,
                    peers: copy_peers(&peers),
                    source: "aggregator".to_string(),
                },
            );
        }
        Merged {
            result: DiscoveryResult {
                peers,
                source_stats: gathered.source_stats,
                total_duration: duration,
                discoverer_durations: gathered.durations,
            },
            event,
        }
    }

    /// Takes what the discoverers found, together with what is in the cache. The clock decides what
    /// of it has expired.
    pub fn merge_results(
        &mut self,
        infohash: &Infohash,
        limit: usize,
        outcomes: &Vec<DiscovererOutcome>,
        duration: u64,
    ) -> (r: Merged)
        requires
            old(self).cache.wf(),
            all_found(outcomes@).len() <= usize::MAX,
        ensures
            final(self).cache.wf(),
            exists|s: Seq<PeerModel>, now: u64|
                #![trigger
                    lists_group(old(self).cache.group(*infohash), s),
                    not_expired(old(self).cache.ttl_secs, now)
                ]
                lists_group(old(self).cache.group(*infohash), s) && final(self).merges(
                    *old(self),
                    *infohash,
                    limit,
                    best_of(s.filter(not_expired(old(self).cache.ttl_secs, now)), limit as int),
                    outcomes@,
                    duration,
                    now,
                    r,
                ),
    {
        let now: u64 = unix_nanos();
        let cached: Vec<PeerInfo> = self.cache.get_peers_at(infohash, limit, now);
        let r: Merged = self.merge_at(infohash, limit, cached, outcomes, duration, now);
        assert(not_expired(old(self).cache.ttl_secs, now) == not_expired(
            old(self).cache.ttl_secs,
            now,
        ));
        r
    }

    /// The cache.
    pub fn cache(&self) -> (r: &PeerCache)
        ensures
            *r == self.cache,
    {
        &self.cache
    }

    /// The settings.
    pub fn config(&self) -> (r: &PeerDiscoveryConfig)
        ensures
            *r == self.config,
    {
        &self.config
    }

    /// The registry of discoverers.
    pub fn registry(&self) -> (r: &DiscovererRegistry<D>)
        ensures
            *r == self.registry,
    {
        &self.registry
    }

    /// The request counts of all discoverers together, given those of each by its name.
    pub fn aggregate_stats(&self, raw: Vec<(String, DiscovererStats)>) -> (r: AggregateStats)
        requires
            self.cache.total() <= usize::MAX,
            sum_of(raw@).0 <= u64::MAX,
            sum_of(raw@).1 <= u64::MAX,
            sum_of(raw@).2 <= u64::MAX,
            sum_of(raw@).3 <= u64::MAX,
        ensures
            (
                r.total_requests as nat,
                r.success_requests as nat,
                r.failed_requests as nat,
                r.total_peers_discovered as nat,
            ) == sum_of(raw@),
            r.cached_peers == self.cache.total(),
            r.discoverer_stats@ == stats_by_name(raw@),
    {
        let mut out: AggregateStats = AggregateStats {
            total_requests: 0,
            success_requests: 0,
            failed_requests: 0,
            total_peers_discovered: 0,
            cached_peers: self.cache.len(),
            discoverer_stats: VecMap::new(),
        };
        let mut i: usize = 0;
        assert(out.discoverer_stats@ =~= stats_by_name(raw@.take(0)));
        while i < raw.len()
            invariant
                i <= raw@.len(),
                sum_of(raw@).0 <= u64::MAX,
                sum_of(raw@).1 <= u64::MAX,
                sum_of(raw@).2 <= u64::MAX,
                sum_of(raw@).3 <= u64::MAX,
                (
                    out.total_requests as nat,
                    out.success_requests as nat,
                    out.failed_requests as nat,
                    out.total_peers_discovered as nat,
                ) == sum_of(raw@.take(i as int)),
                out.cached_peers == self.cache.total(),
                out.discoverer_stats@ == stats_by_name(raw@.take(i as int)),
            decreases raw@.len() - i,
        {
            proof {
                lemma_sum_prefix(raw@, i + 1);
                assert(raw@.take(i + 1).drop_last() =~= raw@.take(i as int));
                assert(raw@.take(i + 1).last() == raw@[i as int]);
            }
            let s: DiscovererStats = raw[i].1;
            out.total_requests = out.total_requests + s.total_requests;
            out.success_requests = out.success_requests + s.success_requests;
            out.failed_requests = out.failed_requests + s.failed_requests;
            out.total_peers_discovered = out.total_peers_discovered + s.total_peers_discovered;
            out.discoverer_stats.insert(raw[i].0.clone(), s);
            i += 1;
        }
        assert(raw@.take(i as int) =~= raw@);
        out
    }
}

/// The request counts of all discoverers together.
pub struct AggregateStats {
    pub total_requests: u64,
    pub success_requests: u64,
    pub failed_requests: u64,
    pub total_peers_discovered: u64,
    pub cached_peers: usize,
    pub discoverer_stats: VecMap<String, DiscovererStats>,
}

/// The sums of request counts.
pub open spec fn sum_of(raw: Seq<(String, DiscovererStats)>) -> (nat, nat, nat, nat)
    decreases raw.len(),
{
    if raw.len() == 0 {
        (0, 0, 0, 0)
    } else {
        let rest = sum_of(raw.drop_last());
        let s = raw.last().1;
        (
            rest.0 + s.total_requests as nat,
            rest.1 + s.success_requests as nat,
            rest.2 + s.failed_requests as nat,
            rest.3 + s.total_peers_discovered as nat,
        )
    }
}

/// The request counts by name.
pub open spec fn stats_by_name(raw: Seq<(String, DiscovererStats)>) -> Map<
    Seq<char>,
    DiscovererStats,
>
    decreases raw.len(),
{
    if raw.len() == 0 {
        Map::empty()
    } else {
        stats_by_name(raw.drop_last()).insert(raw.last().0@, raw.last().1)
    }
}

/// The sums of the first counts are no more than those of all.
pub proof fn lemma_sum_prefix(raw: Seq<(String, DiscovererStats)>, i: int)
    requires
        0 <= i <= raw.len(),
    ensures
        sum_of(raw.take(i)).0 <= sum_of(raw).0,
        sum_of(raw.take(i)).1 <= sum_of(raw).1,
        sum_of(raw.take(i)).2 <= sum_of(raw).2,
        sum_of(raw.take(i)).3 <= sum_of(raw).3,
    decreases raw.len() - i,
{
    if i < raw.len() {
        lemma_sum_prefix(raw, i + 1);
        assert(raw.take(i + 1).drop_last() =~= raw.take(i));
    } else {
        assert(raw.take(i) =~= raw);
    }
}

/// There is a list of the first peers of each address.
proof fn lemma_deduped_exists(peers: Seq<PeerModel>)
    ensures
        is_deduped(peers, deduped(peers)),
    decreases peers.len(),
{
    let out = if peers.len() == 0 {
        Seq::<PeerModel>::empty()
    } else {
        let rest = peers.drop_last();
        let p = peers.last();
        lemma_deduped_exists(rest);
        let o = deduped(rest);
        if exists|i: int| 0 <= i < o.len() && (#[trigger] o[i]).addr == p.addr {
            o
        } else {
            let after = |q: PeerModel| addr_rank(q.addr) > addr_rank(p.addr);
            o.insert(first_where(o, after), p)
        }
    };
    if peers.len() > 0 {
        let rest = peers.drop_last();
        let p = peers.last();
        let o = deduped(rest);
        assert(is_deduped(rest, o));
        assert forall|a: SocketAddr| first_where(rest, #[trigger] with_addr(a)) < rest.len() implies
            first_where(peers, with_addr(a)) == first_where(rest, with_addr(a)) by {
            let f = first_where(rest, with_addr(a));
            lemma_first_where(rest, with_addr(a));
            assert forall|j: int| 0 <= j < f implies !with_addr(a)(#[trigger] peers[j]) by {
                assert(peers[j] == rest[j]);
            }
            assert(peers[f] == rest[f]);
            crate::seqs::lemma_first_where_at(peers, with_addr(a), f);
        }
        let after = |q: PeerModel| addr_rank(q.addr) > addr_rank(p.addr);
        let k = first_where(o, after);
        lemma_first_where(o, after);
        let known = exists|i: int| 0 <= i < o.len() && (#[trigger] o[i]).addr == p.addr;
        if !known {
            assert forall|j: int| 0 <= j < rest.len() implies (#[trigger] rest[j]).addr != p.addr by {
                let i = choose|i: int| 0 <= i < o.len() && (#[trigger] o[i]).addr == rest[j].addr;
                assert(o[i].addr != p.addr);
            }
            let n = peers.len() - 1;
            assert forall|j: int| 0 <= j < n implies !with_addr(p.addr)(#[trigger] peers[j]) by {
                assert(peers[j] == rest[j]);
            }
            crate::seqs::lemma_first_where_at(peers, with_addr(p.addr), n);
            let a = peer_addrs(out);
            let b = peer_addrs(o);
            assert forall|x: int, y: int|
                #![trigger a[x], a[y]]
                0 <= x < y < a.len() implies addr_rank(a[x]) < addr_rank(a[y]) by {
                let ox = if x < k {
                    x
                } else {
                    x - 1
                };
                let oy = if y < k {
                    y
                } else {
                    y - 1
                };
                if x != k && y != k {
                    assert(a[x] == b[ox] && a[y] == b[oy]);
                } else if y == k {
                    assert(a[x] == b[x]);
                    assert(!after(o[x]));
                    if addr_rank(o[x].addr) == addr_rank(p.addr) {
                        lemma_addr_rank_injective(o[x].addr, p.addr);
                    }
                } else {
                    assert(a[y] == b[y - 1]);
                    assert(b[k] == o[k].addr);
                    if k < y - 1 {
                        assert(addr_rank(b[k]) < addr_rank(b[y - 1]));
                    }
                }
            }
        }
        assert forall|i: int| 0 <= i < out.len() implies first_where(
            peers,
            with_addr((#[trigger] out[i]).addr),
        ) < peers.len() && out[i] == peers[first_where(peers, with_addr(out[i].addr))] by {
            let oi = if known || i < k {
                i
            } else {
                i - 1
            };
            if known || i != k {
                assert(out[i] == o[oi]);
                let f = first_where(rest, with_addr(o[oi].addr));
                assert(f < rest.len());
                lemma_first_where(rest, with_addr(o[oi].addr));
                assert(peers[f] == rest[f]);
            }
        }
        assert forall|j: int| 0 <= j < peers.len() implies exists|i: int|
            0 <= i < out.len() && (#[trigger] out[i]).addr == (#[trigger] peers[j]).addr by {
            if j < rest.len() {
                assert(peers[j] == rest[j]);
                let i = choose|i: int| 0 <= i < o.len() && (#[trigger] o[i]).addr == rest[j].addr;
                let oi = if known || i < k {
                    i
                } else {
                    i + 1
                };
                assert(out[oi] == o[i]);
            } else if known {
                let i = choose|i: int| 0 <= i < o.len() && (#[trigger] o[i]).addr == p.addr;
                assert(out[i].addr == peers[j].addr);
            } else {
                assert(out[k] == p);
            }
        }
    }
    assert(is_deduped(peers, out));
}

/// Whether a peer is one of the given ones with its score at time `now`.
pub open spec fn is_scored_one_of(p: PeerModel, peers: Seq<PeerModel>, now: u64) -> bool {
    exists|j: int| 0 <= j < peers.len() && p == (#[trigger] peers[j]).prioritized(now)
}

/// A discovery gives as many peers as wanted and available, no address twice, only peers that were
/// found or cached, no peer before one with a higher score, and leaves none out with a higher score
/// than one that it gives.
pub proof fn law_discovery(peers: Seq<PeerModel>, limit: nat, now: u64)
    ensures
        is_deduped(peers, deduped(peers)),
        discovered(peers, limit as int, now).len() == at_most(
            limit as int,
            deduped(peers).len() as int,
        ),
        forall|k: int, i: int|
            #![trigger deduped(peers)[k], discovered(peers, limit as int, now)[i]]
            0 <= k < deduped(peers).len() && 0 <= i < discovered(peers, limit as int, now).len()
                && !discovered(peers, limit as int, now).contains(deduped(peers)[k].prioritized(now))
                ==> deduped(peers)[k].prioritized(now).priority_score <= discovered(
                peers,
                limit as int,
                now,
            )[i].priority_score,
        forall|i: int, j: int|
            #![trigger discovered(peers, limit as int, now)[i], discovered(peers, limit as int, now)[j]]
            0 <= i < j < discovered(peers, limit as int, now).len() ==> {
                &&& discovered(peers, limit as int, now)[i].addr != discovered(
                    peers,
                    limit as int,
                    now,
                )[j].addr
                &&& discovered(peers, limit as int, now)[i].priority_score >= discovered(
                    peers,
                    limit as int,
                    now,
                )[j].priority_score
            },
        forall|i: int|
            0 <= i < discovered(peers, limit as int, now).len() ==> is_scored_one_of(
                #[trigger] discovered(peers, limit as int, now)[i],
                peers,
                now,
            ),
{
    lemma_deduped_exists(peers);
    let d = deduped(peers);
    let s = scored(d, now);
    let r = discovered(peers, limit as int, now);
    law_best_come_first(s, limit);
    assert forall|i: int| 0 <= i < r.len() implies is_scored_one_of(
        #[trigger] r[i],
        peers,
        now,
    ) by {
        assert(s.contains(r[i]));
        let k = choose|k: int| 0 <= k < s.len() && s[k] == r[i];
        let f = first_where(peers, with_addr(d[k].addr));
        lemma_first_where(peers, with_addr(d[k].addr));
        assert(d[k] == peers[f]);
        assert(r[i] == peers[f].prioritized(now));
    }
    assert forall|k: int, i: int|
        #![trigger d[k], r[i]]
        0 <= k < d.len() && 0 <= i < r.len() && !r.contains(
            d[k].prioritized(now),
        ) implies d[k].prioritized(now).priority_score <= r[i].priority_score by {
        assert(s[k] == d[k].prioritized(now));
        assert(s.contains(s[k]));
    }
    let sorted = stable_sorted(s);
    lemma_stable_sort_exists(s);
    assert forall|i: int, j: int| 0 <= i < j < s.len() implies s[i].addr != s[j].addr by {
        let a = peer_addrs(d);
        assert(addr_rank(a[i]) < addr_rank(a[j]));
    }
    vstd::seq_lib::to_multiset_len(s);
    vstd::seq_lib::to_multiset_len(sorted);
    s.lemma_multiset_has_no_duplicates();
    sorted.lemma_multiset_has_no_duplicates_conv();
    assert forall|i: int, j: int|
        #![trigger r[i], r[j]]
        0 <= i < j < r.len() implies r[i].addr != r[j].addr by {
        assert(s.contains(r[i]) && s.contains(r[j]));
        let x = choose|x: int| 0 <= x < s.len() && s[x] == r[i];
        let y = choose|y: int| 0 <= y < s.len() && s[y] == r[j];
        if r[i].addr == r[j].addr {
            assert(x == y);
            assert(r[i] == sorted[i] && r[j] == sorted[j]);
        }
    }
}

/// A discoverer that failed takes nothing away: the discovery goes by what the others found.
pub proof fn law_failed_discoverer_is_passed_over(outcomes: Seq<DiscovererOutcome>, i: int)
    requires
        0 <= i < outcomes.len(),
        outcomes[i].peers is None,
    ensures
        all_found(outcomes) == all_found(outcomes.remove(i)),
    decreases outcomes.len(),
{
    let rest = outcomes.remove(i);
    if i < outcomes.len() - 1 {
        law_failed_discoverer_is_passed_over(outcomes.drop_last(), i);
        assert(rest.drop_last() =~= outcomes.drop_last().remove(i));
        assert(rest.last() == outcomes.last());
    } else {
        assert(rest =~= outcomes.drop_last());
        assert(all_found(outcomes) =~= all_found(rest));
    }
}

/// How many peers an outcome brought.
pub open spec fn brought(outcome: DiscovererOutcome) -> nat {
    match outcome.peers {
        Some(v) => v@.len(),
        None => 0,
    }
}

/// How many peers from a source an outcome brought.
pub open spec fn brought_from(outcome: DiscovererOutcome, source: PeerSource) -> nat {
    match outcome.peers {
        Some(v) => v@.filter(|p: PeerInfo| p.source == source).len(),
        None => 0,
    }
}

/// Whether a peer stands at place `j` of what outcome `i` brought.
pub open spec fn is_found_at(outcomes: Seq<DiscovererOutcome>, i: int, j: int, p: PeerModel) -> bool {
    0 <= i < outcomes.len() && outcomes[i].peers is Some && 0 <= j < outcomes[i].peers->0@.len()
        && outcomes[i].peers->0@[j]@ == p
}

/// Every peer of every outcome that succeeded is among the peers that were found, and their number is
/// the sum over the outcomes.
pub proof fn law_every_found_peer_is_gathered(outcomes: Seq<DiscovererOutcome>)
    ensures
        ({
            let all = all_found(outcomes);
            &&& forall|i: int, j: int|
                #![trigger outcomes[i].peers->0@[j]]
                0 <= i < outcomes.len() && outcomes[i].peers is Some && 0 <= j
                    < outcomes[i].peers->0@.len() ==> all.contains(outcomes[i].peers->0@[j]@)
            &&& all.len() == outcomes.fold_left(
                0int,
                |n: int, o: DiscovererOutcome| n + brought(o),
            )
        }),
    decreases outcomes.len(),
{
    let all = all_found(outcomes);
    let f = |n: int, o: DiscovererOutcome| n + brought(o);
    if outcomes.len() > 0 {
        let rest = outcomes.drop_last();
        let last = outcomes.len() - 1;
        law_every_found_peer_is_gathered(rest);
        let before = all_found(rest);
        assert(outcomes.fold_left(0int, f) == f(rest.fold_left(0int, f), outcomes.last()));
        assert(all.len() == before.len() + brought(outcomes.last()));
        assert forall|i: int, j: int|
            #![trigger outcomes[i].peers->0@[j]]
            0 <= i < outcomes.len() && outcomes[i].peers is Some && 0 <= j
                < outcomes[i].peers->0@.len() implies all.contains(outcomes[i].peers->0@[j]@) by {
            let p = outcomes[i].peers->0@[j]@;
            if i < last {
                assert(rest[i] == outcomes[i]);
                assert(rest[i].peers->0@[j]@ == p);
                let k = choose|k: int| 0 <= k < before.len() && before[k] == p;
                assert(all[k] == p);
            } else {
                assert(all[before.len() + j] == p);
            }
        }
        assert(all.len() == outcomes.fold_left(0int, f));
    } else {
        assert(all.len() == 0);
        assert(outcomes.fold_left(0int, f) == 0);
    }
}

/// Every peer that was found was brought by an outcome that succeeded.
pub proof fn law_found_peers_were_brought(outcomes: Seq<DiscovererOutcome>, k: int)
    requires
        0 <= k < all_found(outcomes).len(),
    ensures
        exists|i: int, j: int| #[trigger] is_found_at(outcomes, i, j, all_found(outcomes)[k]),
    decreases outcomes.len(),
{
    let all = all_found(outcomes);
    if outcomes.len() > 0 {
        let rest = outcomes.drop_last();
        let before = all_found(rest);
        let last = outcomes.len() - 1;
        if k < before.len() {
            law_found_peers_were_brought(rest, k);
            let (i, j) = choose|i: int, j: int| #[trigger] is_found_at(rest, i, j, before[k]);
            assert(is_found_at(outcomes, i, j, all[k]));
        } else {
            assert(is_found_at(outcomes, last, k - before.len(), all[k]));
        }
    }
}

proof fn lemma_count_concat(a: Seq<PeerModel>, b: Seq<PeerModel>, s: PeerSource)
    ensures
        count_from(a + b, s) == count_from(a, s) + count_from(b, s),
    decreases b.len(),
{
    if b.len() > 0 {
        lemma_count_concat(a, b.drop_last(), s);
        assert((a + b).drop_last() =~= a + b.drop_last());
    } else {
        assert(a + b =~= a);
    }
}

proof fn lemma_count_filtered(v: Seq<PeerInfo>, s: PeerSource)
    ensures
        count_from(views(v), s) == v.filter(|p: PeerInfo| p.source == s).len(),
    decreases v.len(),
{
    reveal(Seq::filter);
    if v.len() > 0 {
        lemma_count_filtered(v.drop_last(), s);
        assert(views(v).drop_last() =~= views(v.drop_last()));
    }
}

/// The number of peers that a source gave is the sum over the outcomes.
proof fn lemma_sources_are_summed(outcomes: Seq<DiscovererOutcome>, s: PeerSource)
    ensures
        count_from(all_found(outcomes), s) == outcomes.fold_left(
            0int,
            |n: int, o: DiscovererOutcome| n + brought_from(o, s),
        ),
    decreases outcomes.len(),
{
    let f = |n: int, o: DiscovererOutcome| n + brought_from(o, s);
    if outcomes.len() > 0 {
        let rest = outcomes.drop_last();
        lemma_sources_are_summed(rest, s);
        assert(outcomes.fold_left(0int, f) == f(rest.fold_left(0int, f), outcomes.last()));
        lemma_count_concat(all_found(rest), outcomes.last().found(), s);
        if let Some(v) = outcomes.last().peers {
            lemma_count_filtered(v@, s);
        }
    } else {
        assert(outcomes.fold_left(0int, f) == 0);
    }
}

/// The time of the last outcome under each name is kept.
proof fn lemma_durations(outcomes: Seq<DiscovererOutcome>)
    ensures
        forall|i: int|
            #![trigger outcomes[i]]
            0 <= i < outcomes.len() ==> durations_of(outcomes).contains_key(outcomes[i].name@) && ((
            forall|j: int|
                i < j < outcomes.len() ==> (#[trigger] outcomes[j]).name@ != outcomes[i].name@)
                ==> durations_of(outcomes)[outcomes[i].name@] == outcomes[i].duration),
        forall|name: Seq<char>| #[trigger]
            durations_of(outcomes).contains_key(name) ==> exists|i: int|
                0 <= i < outcomes.len() && (#[trigger] outcomes[i]).name@ == name,
    decreases outcomes.len(),
{
    let d = durations_of(outcomes);
    if outcomes.len() > 0 {
        let rest = outcomes.drop_last();
        let last = outcomes.len() - 1;
        lemma_durations(rest);
        assert forall|i: int|
            #![trigger outcomes[i]]
            0 <= i < outcomes.len() implies d.contains_key(outcomes[i].name@) && ((forall|j: int|
            i < j < outcomes.len() ==> (#[trigger] outcomes[j]).name@ != outcomes[i].name@)
            ==> d[outcomes[i].name@] == outcomes[i].duration) by {
            if i < last {
                assert(rest[i] == outcomes[i]);
                if forall|j: int|
                    i < j < outcomes.len() ==> (#[trigger] outcomes[j]).name@ != outcomes[i].name@ {
                    assert(outcomes[last].name@ != outcomes[i].name@);
                    assert forall|j: int| i < j < rest.len() implies (#[trigger] rest[j]).name@
                        != rest[i].name@ by {
                        assert(outcomes[j].name@ != outcomes[i].name@);
                    }
                }
            }
        }
        assert forall|name: Seq<char>| #[trigger] d.contains_key(name) implies exists|i: int|
            0 <= i < outcomes.len() && (#[trigger] outcomes[i]).name@ == name by {
            if name == outcomes.last().name@ {
                assert(outcomes[last].name@ == name);
            } else {
                assert(durations_of(rest).contains_key(name));
                let i = choose|i: int| 0 <= i < rest.len() && (#[trigger] rest[i]).name@ == name;
                assert(rest[i] == outcomes[i]);
                assert(outcomes[i].name@ == name);
            }
        }
    }
}

/// What a discovery comes to, told from what the discoverers found. Every peer of every discoverer that
/// succeeded, and every cached one, is returned by its address, unless as many as wanted are returned
/// that score no lower than one under that address; nobody else is returned, nobody twice, and the
/// highest scores come first. The sources count what the discoverers found, cached peers apart, and the
/// time of each discoverer is told.
pub proof fn law_discovery_brings_all_sources_together<D: PeerDiscoverer>(
    before: PeerDiscoveryAggregator<D>,
    after: PeerDiscoveryAggregator<D>,
    infohash: Infohash,
    limit: usize,
    cached: Seq<PeerModel>,
    outcomes: Seq<DiscovererOutcome>,
    duration: u64,
    now: u64,
    r: Merged,
)
    requires
        after.merges(before, infohash, limit, cached, outcomes, duration, now, r),
    ensures
        r.result.peers@.len() <= limit,
        forall|i: int, j: int|
            #![trigger outcomes[i].peers->0@[j]]
            0 <= i < outcomes.len() && outcomes[i].peers is Some && 0 <= j
                < outcomes[i].peers->0@.len() ==> is_returned(
                outcomes[i].peers->0@[j].addr,
                cached + all_found(outcomes),
                r.result.peers@,
                limit,
                now,
            ),
        forall|k: int|
            0 <= k < cached.len() ==> is_returned(
                (#[trigger] cached[k]).addr,
                cached + all_found(outcomes),
                r.result.peers@,
                limit,
                now,
            ),
        forall|n: int|
            0 <= n < r.result.peers@.len() ==> is_scored_one_of(
                (#[trigger] r.result.peers@[n])@,
                cached + all_found(outcomes),
                now,
            ),
        forall|m: int, n: int|
            #![trigger r.result.peers@[m], r.result.peers@[n]]
            0 <= m < n < r.result.peers@.len() ==> r.result.peers@[m].addr != r.result.peers@[n].addr
                && r.result.peers@[m].priority_score >= r.result.peers@[n].priority_score,
        forall|s: PeerSource|
            #![trigger r.result.source_stats@.contains_key(s)]
            ({
                let sum = outcomes.fold_left(
                    0int,
                    |n: int, o: DiscovererOutcome| n + brought_from(o, s),
                );
                &&& r.result.source_stats@.contains_key(s) <==> sum > 0
                &&& r.result.source_stats@.contains_key(s) ==> r.result.source_stats@[s] == sum
            }),
        forall|i: int|
            #![trigger outcomes[i]]
            0 <= i < outcomes.len() ==> r.result.discoverer_durations@.contains_key(
                outcomes[i].name@,
            ) && ((forall|j: int|
                i < j < outcomes.len() ==> (#[trigger] outcomes[j]).name@ != outcomes[i].name@)
                ==> r.result.discoverer_durations@[outcomes[i].name@] == outcomes[i].duration),
        forall|name: Seq<char>| #[trigger]
            r.result.discoverer_durations@.contains_key(name) ==> exists|i: int|
                0 <= i < outcomes.len() && (#[trigger] outcomes[i]).name@ == name,
        r.result.total_duration == duration,
        r.event is Some <==> r.result.peers@.len() > 0,
        r.event matches Some(e) ==> (e matches Event::PeerDiscovered { infohash: i, peers, source } && i
            == infohash && views(peers@) == views(r.result.peers@)),
{
    let all = cached + all_found(outcomes);
    let out = views(r.result.peers@);
    law_discovery(all, limit as nat, now);
    law_every_found_peer_is_gathered(outcomes);
    lemma_durations(outcomes);
    let d = deduped(all);
    assert(out.len() == r.result.peers@.len());
    assert forall|k: int| 0 <= k < all.len() implies is_returned(
        (#[trigger] all[k]).addr,
        all,
        r.result.peers@,
        limit,
        now,
    ) by {
        let x = choose|x: int| 0 <= x < d.len() && (#[trigger] d[x]).addr == all[k].addr;
        if out.contains(d[x].prioritized(now)) {
            let n = choose|n: int| 0 <= n < out.len() && out[n] == d[x].prioritized(now);
            assert(r.result.peers@[n].addr == all[k].addr);
        } else {
            if out.len() < limit {
                assert(out.len() == d.len());
                lemma_nobody_is_left_out(all, limit as nat, now, x);
            } else {
                let f = first_where(all, with_addr(d[x].addr));
                lemma_first_where(all, with_addr(d[x].addr));
                assert(all[f] == d[x]);
                assert forall|n: int| 0 <= n < r.result.peers@.len() implies all[f].prioritized(
                    now,
                ).priority_score <= (#[trigger] r.result.peers@[n]).priority_score by {
                    assert(out[n] == r.result.peers@[n]@);
                }
            }
        }
    }
    assert forall|i: int, j: int|
        #![trigger outcomes[i].peers->0@[j]]
        0 <= i < outcomes.len() && outcomes[i].peers is Some && 0 <= j
            < outcomes[i].peers->0@.len() implies is_returned(
        outcomes[i].peers->0@[j].addr,
        all,
        r.result.peers@,
        limit,
        now,
    ) by {
        let p = outcomes[i].peers->0@[j]@;
        let k = choose|k: int| 0 <= k < all_found(outcomes).len() && all_found(outcomes)[k] == p;
        assert(all[cached.len() + k] == p);
    }
    assert forall|k: int| 0 <= k < cached.len() implies is_returned(
        (#[trigger] cached[k]).addr,
        all,
        r.result.peers@,
        limit,
        now,
    ) by {
        assert(all[k] == cached[k]);
    }
    assert forall|n: int| 0 <= n < r.result.peers@.len() implies is_scored_one_of(
        (#[trigger] r.result.peers@[n])@,
        all,
        now,
    ) by {
        assert(out[n] == r.result.peers@[n]@);
    }
    assert forall|m: int, n: int|
        #![trigger r.result.peers@[m], r.result.peers@[n]]
        0 <= m < n < r.result.peers@.len() implies r.result.peers@[m].addr
        != r.result.peers@[n].addr && r.result.peers@[m].priority_score
        >= r.result.peers@[n].priority_score by {
        assert(out[m] == r.result.peers@[m]@);
        assert(out[n] == r.result.peers@[n]@);
    }
    assert forall|s: PeerSource|
        #![trigger r.result.source_stats@.contains_key(s)]
        ({
            let sum = outcomes.fold_left(
                0int,
                |n: int, o: DiscovererOutcome| n + brought_from(o, s),
            );
            &&& r.result.source_stats@.contains_key(s) <==> sum > 0
            &&& r.result.source_stats@.contains_key(s) ==> r.result.source_stats@[s] == sum
        }) by {
        lemma_sources_are_summed(outcomes, s);
    }
}

/// Whether a peer with an address is returned, or as many peers are as wanted and one of the given peers
/// with that address scores no higher than any of them.
pub open spec fn is_returned(
    addr: SocketAddr,
    all: Seq<PeerModel>,
    peers: Seq<PeerInfo>,
    limit: usize,
    now: u64,
) -> bool {
    ||| exists|n: int| 0 <= n < peers.len() && (#[trigger] peers[n]).addr == addr
    ||| peers.len() == limit && exists|k: int|
        0 <= k < all.len() && (#[trigger] all[k]).addr == addr && forall|n: int|
            0 <= n < peers.len() ==> all[k].prioritized(now).priority_score <= (
            #[trigger] peers[n]).priority_score
}

/// Where fewer peers are known than wanted, all of them are returned.
proof fn lemma_nobody_is_left_out(peers: Seq<PeerModel>, limit: nat, now: u64, x: int)
    requires
        deduped(peers).len() <= limit,
        0 <= x < deduped(peers).len(),
    ensures
        discovered(peers, limit as int, now).contains(deduped(peers)[x].prioritized(now)),
{
    let s = scored(deduped(peers), now);
    assert(s[x] == deduped(peers)[x].prioritized(now));
    assert(s.contains(s[x]));
    lemma_all_fit(s, limit, s[x]);
}

/// What a discovery returns is in the cache afterwards while there is room, but for what has expired:
/// somebody new just as it was returned.
pub proof fn law_discovered_peers_are_cached<D: PeerDiscoverer>(
    before: PeerDiscoveryAggregator<D>,
    after: PeerDiscoveryAggregator<D>,
    infohash: Infohash,
    limit: usize,
    cached: Seq<PeerModel>,
    outcomes: Seq<DiscovererOutcome>,
    duration: u64,
    now: u64,
    r: Merged,
)
    requires
        before.cache.wf(),
        after.merges(before, infohash, limit, cached, outcomes, duration, now, r),
        before.cache.group(infohash).len() + r.result.peers@.len() <= before.cache.max_per_infohash,
        before.cache.total() + r.result.peers@.len() <= before.cache.max_peers,
    ensures
        forall|n: int|
            0 <= n < r.result.peers@.len() && now <= (#[trigger] r.result.peers@[n]).last_active
                + before.cache.ttl_secs * 1_000_000_000 ==> {
                let p = r.result.peers@[n];
                &&& after.cache.group(infohash).contains_key(p.addr)
                &&& !before.cache.group(infohash).contains_key(p.addr) ==> after.cache.group(
                    infohash,
                )[p.addr] == p@
            },
        forall|other: Infohash|
            other != infohash ==> #[trigger] after.cache.group(other) == before.cache.group(other),
{
    let out = views(r.result.peers@);
    assert(out.len() == r.result.peers@.len());
    law_discovery_brings_all_sources_together(
        before,
        after,
        infohash,
        limit,
        cached,
        outcomes,
        duration,
        now,
        r,
    );
    if outcomes.len() == 0 && cached.len() == 0 {
        if out.len() > 0 {
            assert(is_scored_one_of(r.result.peers@[0]@, cached + all_found(outcomes), now));
        }
    } else {
        law_found_peers_are_there(before.cache, after.cache, infohash, out, now);
        let group = before.cache.group(infohash);
        assert forall|n: int|
            0 <= n < r.result.peers@.len() && now <= (#[trigger] r.result.peers@[n]).last_active
                + before.cache.ttl_secs * 1_000_000_000 implies {
            let p = r.result.peers@[n];
            &&& after.cache.group(infohash).contains_key(p.addr)
            &&& !before.cache.group(infohash).contains_key(p.addr) ==> after.cache.group(
                infohash,
            )[p.addr] == p@
        } by {
            let p = r.result.peers@[n];
            assert(out[n] == p@);
            assert forall|j: int| 0 <= j < out.len() && j != n implies (#[trigger] out[j]).addr
                != out[n].addr by {
                assert(out[j] == r.result.peers@[j]@);
                if j < n {
                    assert(r.result.peers@[j].addr != r.result.peers@[n].addr);
                } else {
                    assert(r.result.peers@[n].addr != r.result.peers@[j].addr);
                }
            }
            law_found_peer_is_added_or_renewed(group, out, now, n);
        }
    }
}

/// The counts of two lists of discoverers add up to those of the whole, one discoverer counts what it
/// counted, and each stands under its name.
pub proof fn law_request_counts_add_up(
    raw: Seq<(String, DiscovererStats)>,
    more: (String, DiscovererStats),
    name: Seq<char>,
)
    ensures
        sum_of(Seq::<(String, DiscovererStats)>::empty()) == (0nat, 0nat, 0nat, 0nat),
        ({
            let before = sum_of(raw);
            let after = sum_of(raw.push(more));
            &&& after.0 == before.0 + more.1.total_requests
            &&& after.1 == before.1 + more.1.success_requests
            &&& after.2 == before.2 + more.1.failed_requests
            &&& after.3 == before.3 + more.1.total_peers_discovered
        }),
        stats_by_name(raw.push(more)).contains_key(more.0@),
        stats_by_name(raw.push(more))[more.0@] == more.1,
        name != more.0@ ==> (stats_by_name(raw.push(more)).contains_key(name) <==> stats_by_name(
            raw,
        ).contains_key(name)),
        name != more.0@ && stats_by_name(raw).contains_key(name) ==> stats_by_name(
            raw.push(more),
        )[name] == stats_by_name(raw)[name],
        !stats_by_name(Seq::<(String, DiscovererStats)>::empty()).contains_key(name),
{
    assert(raw.push(more).drop_last() =~= raw);
}

/// Of the peers with one address the one that was found first is kept, nobody else; every address that
/// was found is there once, and the addresses ascend.
pub proof fn law_first_of_an_address_is_kept(
    peers: Seq<PeerModel>,
    out: Seq<PeerModel>,
    k: int,
    j: int,
)
    requires
        is_deduped(peers, out),
        0 <= k < out.len(),
        0 <= j < peers.len(),
    ensures
        exists|i: int| 0 <= i < out.len() && (#[trigger] out[i]).addr == peers[j].addr,
        peers[j].addr == out[k].addr ==> exists|i: int|
            0 <= i <= j && #[trigger] peers[i] == out[k] && forall|m: int|
                0 <= m < i ==> (#[trigger] peers[m]).addr != out[k].addr,
        k + 1 < out.len() ==> crate::types::addr_rank(out[k].addr) < crate::types::addr_rank(
            out[k + 1].addr,
        ),
{
    let p = with_addr(out[k].addr);
    lemma_first_where(peers, p);
    let i = first_where(peers, p);
    assert(peers[i] == out[k]);
    assert forall|m: int| 0 <= m < i implies (#[trigger] peers[m]).addr != out[k].addr by {
        assert(!p(peers[m]));
    }
    if peers[j].addr == out[k].addr && j < i {
        assert(!p(peers[j]));
    }
    assert(exists|i: int| 0 <= i < out.len() && (#[trigger] out[i]).addr == peers[j].addr);
    if k + 1 < out.len() {
        let a = peer_addrs(out);
        assert(crate::types::addr_rank(a[k]) < crate::types::addr_rank(a[k + 1]));
    }
}

} // verus!
