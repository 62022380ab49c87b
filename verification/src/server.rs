//! The node's own interface: what it has counted and what its requests are answered.

use crate::clock::{elapsed_nanos, instant_now, nanos_since, NANOS_PER_SEC};
use crate::config::PdcConfig;
use crate::digest::{hex_bytes, hex_decode, is_hex};
use crate::history::DiscoveryHistoryRecord;
use crate::protocol::{
    CachedPeersResponse, CapabilityResponse, DiscoverRequest, DiscoverResponse, HealthResponse,
    PeerResponse,
};
use crate::seqs::{at_most, lemma_filter_step};
use crate::text::texts;
use crate::vecmap::{lemma_weight_empty, lemma_weight_remove, weight, VecMap};
use crate::VERSION;
use dashmap::DashMap;
use std::time::Instant;
use vstd::prelude::*;
use vstd::string::*;

verus! {

/// How many cached peers are listed if a request does not say.
pub const DEFAULT_PEERS_LIMIT: usize = 50;

/// How many kinds of discoverers a node reports.
pub const REPORTED_DISCOVERERS: usize = 3;

/// Why a request failed.
#[derive(Debug)]
pub struct AppError {
    pub message: String,
}

/// What a map of cached peers holds, by the text of its keys.
pub uninterp spec fn cached_in(map: DashMap<String, Vec<PeerResponse>>) -> Map<
    Seq<char>,
    Seq<PeerResponse>,
>;

/// No peers at all.
pub open spec fn nothing_cached() -> Map<Seq<char>, Seq<PeerResponse>> {
    Map::empty()
}

/// `DashMap::new`: a map that holds nothing.
#[verifier::external_body]
fn new_cached() -> (r: DashMap<String, Vec<PeerResponse>>)
    ensures
        cached_in(r) == nothing_cached(),
{
    DashMap::new()
}

/// `DashMap::view`: what the given function makes of the value of a key, here an equal list; `None` if
/// the key is not there.
#[verifier::external_body]
fn view_cached(map: &DashMap<String, Vec<PeerResponse>>, key: &str) -> (r: Option<
    Vec<PeerResponse>,
>)
    ensures
        r is Some <==> cached_in(*map).contains_key(key@),
        r is Some ==> (r->0)@ == cached_in(*map)[key@],
{
    map.view(key, |_, peers| copy_responses(peers))
}

/// `DashMap::iter`: every key, once each, in no particular order.
#[verifier::external_body]
fn cached_keys(map: &DashMap<String, Vec<PeerResponse>>) -> (r: Vec<String>)
    ensures
        texts(r@).no_duplicates(),
        texts(r@).to_set() == cached_in(*map).dom(),
{
    map.iter().map(|entry| entry.key().clone()).collect()
}

/// An equal peer.
fn copy_response(p: &PeerResponse) -> (r: PeerResponse)
    ensures
        r == *p,
{
    PeerResponse {
        addr: p.addr.clone(),
        source: p.source.clone(),
        priority_score: p.priority_score,
        is_ipv6: p.is_ipv6,
    }
}

/// Equal peers.
fn copy_responses(peers: &Vec<PeerResponse>) -> (r: Vec<PeerResponse>)
    ensures
        r@ == peers@,
{
    let mut out: Vec<PeerResponse> = Vec::with_capacity(peers.len());
    let mut i: usize = 0;
    while i < peers.len()
        invariant
            i <= peers@.len(),
            out@ == peers@.take(i as int),
        decreases peers@.len() - i,
    {
        out.push(copy_response(&peers[i]));
        i += 1;
        assert(out@ =~= peers@.take(i as int));
    }
    assert(out@ =~= peers@);
    out
}

/// The peers under the given keys, one list after the other.
pub open spec fn listed(m: Map<Seq<char>, Seq<PeerResponse>>, keys: Seq<Seq<char>>) -> Seq<
    PeerResponse,
>
    decreases keys.len(),
{
    if keys.len() == 0 {
        Seq::empty()
    } else {
        listed(m, keys.drop_last()) + m[keys.last()]
    }
}

/// The length of a list.
pub open spec fn list_len() -> spec_fn(Seq<PeerResponse>) -> nat {
    |s: Seq<PeerResponse>| s.len()
}

/// Whether an infohash is made of 40 hexadecimal digits.
pub open spec fn is_infohash(s: Seq<char>) -> bool {
    is_hex(s) && hex_bytes(s).len() == 20
}

/// What a node has counted and cached.
pub struct ServerState {
    pub config: PdcConfig,
    pub started_at: Instant,
    pub total_requests: u64,
    pub success_requests: u64,
    pub failed_requests: u64,
    pub total_peers_discovered: u64,
    pub total_response_ms: u64,
    /// Peers, by infohash.
    pub cached_peers: DashMap<String, Vec<PeerResponse>>,
}

/// The peers that a source gave.
pub open spec fn from_source(name: Seq<char>) -> spec_fn(PeerResponse) -> bool {
    |p: PeerResponse| p.source@ == name
}

/// Whether `counts` has how many of the peers each source gave: the sources that gave any, and the
/// usual ones in any case.
pub open spec fn counts_names(counts: Map<Seq<char>, usize>, peers: Seq<PeerResponse>) -> bool {
    forall|k: Seq<char>|
        #![trigger counts.contains_key(k)]
        (counts.contains_key(k) <==> no_sources().contains_key(k) || peers.filter(
            from_source(k),
        ).len() > 0) && (counts.contains_key(k) ==> counts[k] == peers.filter(from_source(k)).len())
}

/// Counts how many peers each source gave.
fn count_names(peers: &Vec<PeerResponse>) -> (r: VecMap<String, usize>)
    ensures
        counts_names(r@, peers@),
{
    let mut counts: VecMap<String, usize> = zero_stats();
    let mut i: usize = 0;
    assert(counts_names(counts@, peers@.take(0))) by {
        reveal(Seq::filter);
    }
    while i < peers.len()
        invariant
            i <= peers@.len(),
            counts_names(counts@, peers@.take(i as int)),
        decreases peers@.len() - i,
    {
        let ghost before = counts@;
        let ghost name = peers@[i as int].source@;
        let ghost so_far = peers@.take(i as int);
        proof {
            assert(before.contains_key(name) ==> before[name] == so_far.filter(
                from_source(name),
            ).len());
            so_far.lemma_filter_len(from_source(name));
        }
        let n: usize = match counts.get(&peers[i].source) {
            Some(n) => *n,
            None => 0,
        };
        counts.insert(peers[i].source.clone(), n + 1);
        proof {
            assert forall|k: Seq<char>|
                #![trigger counts@.contains_key(k)]
                (counts@.contains_key(k) <==> no_sources().contains_key(k) || peers@.take(
                    i + 1,
                ).filter(from_source(k)).len() > 0) && (counts@.contains_key(k) ==> counts@[k]
                    == peers@.take(i + 1).filter(from_source(k)).len()) by {
                assert(before.contains_key(k) <==> no_sources().contains_key(k) || so_far.filter(
                    from_source(k),
                ).len() > 0);
                lemma_filter_step(peers@, i as int, from_source(k));
            }
        }
        i += 1;
    }
    assert(peers@.take(i as int) =~= peers@);
    counts
}

impl ServerState {
    /// Nothing was counted yet.
    pub fn new(config: PdcConfig) -> (r: ServerState)
        ensures
            r.config == config,
            r.total_requests == 0,
            r.success_requests == 0,
            r.failed_requests == 0,
            r.total_peers_discovered == 0,
            r.total_response_ms == 0,
            cached_in(r.cached_peers) == nothing_cached(),
    {
        ServerState {
            config,
            started_at: instant_now(),
            total_requests: 0,
            success_requests: 0,
            failed_requests: 0,
            total_peers_discovered: 0,
            total_response_ms: 0,
            cached_peers: new_cached(),
        }
    }

    /// Counts a request. The counts start again at zero when they are full.
    pub fn record_request(&mut self, success: bool, peers_count: usize, duration_ms: u64)
        ensures
            final(self).config == old(self).config,
            final(self).started_at == old(self).started_at,
            final(self).cached_peers == old(self).cached_peers,
            final(self).total_requests == old(self).total_requests.wrapping_add(1),
            final(self).success_requests == if success {
                old(self).success_requests.wrapping_add(1)
            } else {
                old(self).success_requests
            },
            final(self).failed_requests == if success {
                old(self).failed_requests
            } else {
                old(self).failed_requests.wrapping_add(1)
            },
            final(self).total_peers_discovered == old(self).total_peers_discovered.wrapping_add(
                peers_count as u64,
            ),
            final(self).total_response_ms == old(self).total_response_ms.wrapping_add(duration_ms),
    {
        self.total_requests = self.total_requests.wrapping_add(1);
        if success {
            self.success_requests = self.success_requests.wrapping_add(1);
        } else {
            self.failed_requests = self.failed_requests.wrapping_add(1);
        }
        self.total_peers_discovered = self.total_peers_discovered.wrapping_add(peers_count as u64);
        self.total_response_ms = self.total_response_ms.wrapping_add(duration_ms);
    }

    /// How many peers are cached.
    pub open spec fn cached_total(&self) -> nat {
        weight(cached_in(self.cached_peers), list_len())
    }

    /// How many peers are cached.
    pub fn cached_peers_count(&self) -> (r: usize)
        requires
            self.cached_total() <= usize::MAX,
        ensures
            r == self.cached_total(),
    {
        let keys: Vec<String> = cached_keys(&self.cached_peers);
        let ghost all = cached_in(self.cached_peers);
        let ghost names = texts(keys@);
        proof {
            vstd::seq_lib::seq_to_set_is_finite(names);
            assert forall|k: Seq<char>| names.contains(k) <==> #[trigger] all.contains_key(k) by {
                assert(names.to_set().contains(k) <==> names.contains(k));
            }
        }
        let mut count: usize = 0;
        let mut i: usize = 0;
        let ghost mut rest = all;
        while i < keys.len()
            invariant
                i <= keys@.len() == names.len(),
                names == texts(keys@),
                names.no_duplicates(),
                all == cached_in(self.cached_peers),
                rest.dom().finite(),
                rest.submap_of(all),
                forall|j: int| i <= j < names.len() ==> rest.contains_key(#[trigger] names[j]),
                forall|k: Seq<char>| #[trigger]
                    rest.contains_key(k) ==> exists|j: int| i <= j < names.len() && names[j] == k,
                count + weight(rest, list_len()) == self.cached_total(),
                self.cached_total() <= usize::MAX,
            decreases keys@.len() - i,
        {
            let ghost before = rest;
            let ghost k = names[i as int];
            proof {
                assert(before.contains_key(names[i as int]));
                assert(all.contains_key(k));
                lemma_weight_remove(before, k, list_len());
                rest = before.remove(k);
                assert forall|j: int| i + 1 <= j < names.len() implies rest.contains_key(
                    #[trigger] names[j],
                ) by {
                    assert(names[j] != names[i as int]);
                }
                assert forall|x: Seq<char>| #[trigger] rest.contains_key(x) implies exists|j: int|
                    i + 1 <= j < names.len() && names[j] == x by {
                    let j = choose|j: int| i <= j < names.len() && names[j] == x;
                    assert(j != i);
                }
            }
            if let Some(peers) = view_cached(&self.cached_peers, keys[i].as_str()) {
                assert(peers@.len() == list_len()(all[k]));
                count = count + peers.len();
            }
            i += 1;
        }
        proof {
            assert(rest.dom() =~= Set::empty());
            assert(rest =~= Map::empty());
            lemma_weight_empty::<Seq<char>, Seq<PeerResponse>>(list_len());
        }
        count
    }

    /// Answers a request for peers with those that were found for it, the first ones if they are more
    /// than wanted. Returns the answer and a record of it.
    pub fn discover(
        &mut self,
        req: &DiscoverRequest,
        found: Vec<PeerResponse>,
        duration_ms: u64,
    ) -> (r: Result<(DiscoverResponse, DiscoveryHistoryRecord), AppError>)
        ensures
            final(self).config == old(self).config,
            final(self).started_at == old(self).started_at,
            final(self).cached_peers == old(self).cached_peers,
            r is Ok <==> is_infohash(req.infohash@),
            r matches Err(e) ==> e.message@ == "无效的 infohash：必须是 40 字符的 hex 编码"@
                && *final(self) == *old(self),
            r matches Ok((answer, record)) ==> {
                &&& answer.peers@ == found@.take(at_most(req.limit as int, found@.len() as int))
                &&& answer.peers_count == answer.peers@.len()
                &&& answer.duration_ms == duration_ms
                &&& counts_names(answer.source_stats@, answer.peers@)
                &&& record.infohash@ == req.infohash@
                &&& record.peers_count == answer.peers_count
                &&& record.duration_ms == duration_ms
                &&& record.success
                &&& record.error_msg is None
                &&& counts_names(record.source_stats@, answer.peers@)
                &&& final(self).total_requests == old(self).total_requests.wrapping_add(1)
                &&& final(self).success_requests == old(self).success_requests.wrapping_add(1)
                &&& final(self).failed_requests == old(self).failed_requests
                &&& final(self).total_peers_discovered
                    == old(self).total_peers_discovered.wrapping_add(answer.peers_count as u64)
                &&& final(self).total_response_ms == old(self).total_response_ms.wrapping_add(
                    duration_ms,
                )
            },
    {
        let good: bool = match hex_decode(req.infohash.as_str()) {
            Ok(bytes) => bytes.len() == 20,
            Err(_) => false,
        };
        if !good {
            return Err(
                AppError {
                    message: "无效的 infohash：必须是 40 字符的 hex 编码".to_string(),
                },
            );
        }
        let ghost all = found@;
        let mut peers: Vec<PeerResponse> = found;
        if peers.len() > req.limit {
            peers.truncate(req.limit);
        }
        assert(peers@ =~= all.take(at_most(req.limit as int, all.len() as int)));
        let peers_count: usize = peers.len();
        self.record_request(true, peers_count, duration_ms);
        let record: DiscoveryHistoryRecord = DiscoveryHistoryRecord::new(
            req.infohash.clone(),
            peers_count,
            count_names(&peers),
            duration_ms,
            true,
            None,
        );
        let source_stats: VecMap<String, usize> = count_names(&peers);
        Ok((DiscoverResponse { peers_count, peers, duration_ms, source_stats }, record))
    }

    /// Lists cached peers, of one infohash or of all.
    pub fn list_peers(&self, infohash: Option<&str>, limit: Option<usize>) -> (r:
        CachedPeersResponse)
        ensures
            r.count == r.peers@.len(),
            ({
                let all = cached_in(self.cached_peers);
                let most = match limit {
                    Some(n) => n as int,
                    None => 50,
                };
                match infohash {
                    Some(h) => r.peers@ == if all.contains_key(h@) {
                        all[h@].take(at_most(most, all[h@].len() as int))
                    } else {
                        Seq::empty()
                    },
                    None => exists|keys: Seq<Seq<char>>|
                        #![trigger listed(all, keys)]
                        keys.no_duplicates() && keys.to_set() == all.dom() && r.peers@ == listed(
                            all,
                            keys,
                        ).take(at_most(most, listed(all, keys).len() as int)),
                }
            }),
    {
        let most: usize = match limit {
            Some(n) => n,
            None => DEFAULT_PEERS_LIMIT,
        };
        let ghost all = cached_in(self.cached_peers);
        let mut peers: Vec<PeerResponse> = Vec::new();
        match infohash {
            Some(h) => {
                if let Some(found) = view_cached(&self.cached_peers, h) {
                    peers = found;
                }
                let ghost found = peers@;
                if peers.len() > most {
                    peers.truncate(most);
                }
                assert(peers@ =~= found.take(at_most(most as int, found.len() as int)));
                assert(!all.contains_key(h@) ==> peers@ =~= Seq::empty());
            },
            None => {
                let keys: Vec<String> = cached_keys(&self.cached_peers);
                let ghost names = texts(keys@);
                let mut i: usize = 0;
                assert(listed(all, names.take(0)) =~= Seq::empty());
                while i < keys.len() && peers.len() < most
                    invariant
                        i <= keys@.len() == names.len(),
                        names == texts(keys@),
                        all == cached_in(self.cached_peers),
                        names.to_set() == all.dom(),
                        peers@ == listed(all, names.take(i as int)),
                    decreases keys@.len() - i,
                {
                    proof {
                        assert(names.take(i + 1).drop_last() =~= names.take(i as int));
                        assert(names.take(i + 1).last() == names[i as int]);
                        assert(names.contains(names[i as int]));
                        assert(names.to_set().contains(names[i as int]));
                    }
                    if let Some(found) = view_cached(&self.cached_peers, keys[i].as_str()) {
                        let mut found: Vec<PeerResponse> = found;
                        peers.append(&mut found);
                    }
                    i += 1;
                }
                let ghost so_far = peers@;
                if peers.len() > most {
                    peers.truncate(most);
                }
                proof {
                    lemma_listed_prefix(all, names, i as int);
                    let whole = listed(all, names);
                    assert(names.take(names.len() as int) =~= names);
                    assert(peers@ =~= whole.take(at_most(most as int, whole.len() as int)));
                }
            },
        }
        let count: usize = peers.len();
        CachedPeersResponse { count, peers }
    }

    /// How the node is doing.
    pub fn health(&self) -> (r: HealthResponse)
        requires
            self.cached_total() <= usize::MAX,
        ensures
            r.status@ == "ok"@,
            r.discoverers == 3,
            r.cached_peers == self.cached_total(),
            exists|now: Instant|
                r.uptime_secs == #[trigger] nanos_since(self.started_at, now) / NANOS_PER_SEC,
    {
        HealthResponse {
            status: "ok".to_string(),
            discoverers: REPORTED_DISCOVERERS,
            cached_peers: self.cached_peers_count(),
            uptime_secs: elapsed_nanos(&self.started_at) / NANOS_PER_SEC,
        }
    }

    /// What the node can do.
    pub fn capability(&self) -> (r: CapabilityResponse)
        requires
            self.cached_total() <= usize::MAX,
        ensures
            r.name@ == "pdc"@,
            r.version@ == VERSION@,
            texts(r.capabilities@) == self.config.capabilities(),
            r.max_concurrent_discoverers == self.config.discoverers.max_concurrent,
            r.cached_peers == self.cached_total(),
    {
        CapabilityResponse {
            name: "pdc".to_string(),
            version: VERSION.to_string(),
            capabilities: self.config.capability_tags(),
            max_concurrent_discoverers: self.config.discoverers.max_concurrent,
            cached_peers: self.cached_peers_count(),
        }
    }
}

/// Sources that gave no peers.
pub open spec fn no_sources() -> Map<Seq<char>, usize> {
    Map::<Seq<char>, usize>::empty().insert("tracker"@, 0).insert("dht"@, 0).insert("cache"@, 0)
}

/// Sources that gave no peers.
fn zero_stats() -> (r: VecMap<String, usize>)
    ensures
        r@ == no_sources(),
{
    let mut stats: VecMap<String, usize> = VecMap::new();
    stats.insert("tracker".to_string(), 0);
    stats.insert("dht".to_string(), 0);
    stats.insert("cache".to_string(), 0);
    stats
}

/// The lists under the first keys are the start of the lists under all keys.
proof fn lemma_listed_prefix(m: Map<Seq<char>, Seq<PeerResponse>>, keys: Seq<Seq<char>>, i: int)
    requires
        0 <= i <= keys.len(),
    ensures
        listed(m, keys.take(i)).len() <= listed(m, keys).len(),
        listed(m, keys.take(i)) == listed(m, keys).take(listed(m, keys.take(i)).len() as int),
    decreases keys.len() - i,
{
    let a = listed(m, keys.take(i));
    if i < keys.len() {
        lemma_listed_prefix(m, keys, i + 1);
        assert(keys.take(i + 1).drop_last() =~= keys.take(i));
        let b = listed(m, keys.take(i + 1));
        assert(b =~= a + m[keys[i]]);
        assert(a =~= b.take(a.len() as int));
        assert(a =~= listed(m, keys).take(a.len() as int));
    } else {
        assert(keys.take(i) =~= keys);
        assert(a =~= listed(m, keys).take(a.len() as int));
    }
}

/// The counts of sources add up to the peers: a source that gave a peer is counted as often as it gave
/// one, and the usual sources are there even if they gave none.
pub proof fn law_sources_are_counted(
    counts: Map<Seq<char>, usize>,
    more: Map<Seq<char>, usize>,
    peers: Seq<PeerResponse>,
    p: PeerResponse,
    k: Seq<char>,
)
    requires
        counts_names(counts, peers),
        counts_names(more, peers.push(p)),
    ensures
        counts.contains_key("tracker"@) && counts.contains_key("dht"@) && counts.contains_key(
            "cache"@,
        ),
        more.contains_key(p.source@),
        counts.contains_key(p.source@) ==> more[p.source@] == counts[p.source@] + 1,
        !counts.contains_key(p.source@) ==> more[p.source@] == 1,
        k != p.source@ ==> (more.contains_key(k) <==> counts.contains_key(k)),
        k != p.source@ && counts.contains_key(k) ==> more[k] == counts[k],
        peers.len() == 0 && counts.contains_key(k) ==> counts[k] == 0,
{
    reveal(Seq::filter);
    assert(peers.push(p).drop_last() =~= peers);
    let s = p.source@;
    assert(from_source(s)(p));
    assert(no_sources().contains_key("tracker"@));
    assert(no_sources().contains_key("dht"@));
    assert(no_sources().contains_key("cache"@));
    assert(counts.contains_key("tracker"@) && counts.contains_key("dht"@) && counts.contains_key(
        "cache"@,
    ));
    assert(peers.push(p).filter(from_source(s)).len() == peers.filter(from_source(s)).len() + 1);
    assert(more.contains_key(s));
    assert(counts.contains_key(s) || !counts.contains_key(s));
    if k != s {
        assert(!from_source(k)(p));
        assert(peers.push(p).filter(from_source(k)) =~= peers.filter(from_source(k)));
        assert(more.contains_key(k) <==> counts.contains_key(k));
    }
}

/// A list of the cached peers holds all of them: as many as there are under all keys together, and every
/// one under each key.
pub proof fn law_all_cached_peers_are_listed(
    m: Map<Seq<char>, Seq<PeerResponse>>,
    keys: Seq<Seq<char>>,
    i: int,
    j: int,
)
    requires
        0 <= i < keys.len(),
        0 <= j < m[keys[i]].len(),
    ensures
        listed(m, keys).contains(m[keys[i]][j]),
    decreases keys.len(),
{
    let rest = keys.drop_last();
    let before = listed(m, rest);
    if i < rest.len() {
        law_all_cached_peers_are_listed(m, rest, i, j);
        assert(rest[i] == keys[i]);
        let k = choose|k: int| 0 <= k < before.len() && before[k] == m[keys[i]][j];
        assert(listed(m, keys)[k] == m[keys[i]][j]);
    } else {
        assert(listed(m, keys)[before.len() + j] == m[keys[i]][j]);
    }
}

/// Nobody is listed who is not cached.
pub proof fn law_listed_peers_are_cached(
    m: Map<Seq<char>, Seq<PeerResponse>>,
    keys: Seq<Seq<char>>,
    k: int,
)
    requires
        0 <= k < listed(m, keys).len(),
    ensures
        exists|i: int|
            0 <= i < keys.len() && m[#[trigger] keys[i]].contains(listed(m, keys)[k]),
    decreases keys.len(),
{
    let rest = keys.drop_last();
    let before = listed(m, rest);
    if k < before.len() {
        law_listed_peers_are_cached(m, rest, k);
        let i = choose|i: int| 0 <= i < rest.len() && m[#[trigger] rest[i]].contains(before[k]);
        assert(keys[i] == rest[i]);
        assert(listed(m, keys)[k] == before[k]);
    } else {
        let last = keys[keys.len() - 1];
        assert(m[last][k - before.len()] == listed(m, keys)[k]);
        assert(m[last].contains(listed(m, keys)[k]));
    }
}

/// The hexadecimal text of 20 bytes is an infohash, and whatever is one stands for 20 bytes.
pub proof fn law_what_an_infohash_is(infohash: Seq<u8>, s: Seq<char>)
    requires
        infohash.len() == 20,
    ensures
        is_infohash(crate::digest::hex_text(infohash)),
        is_infohash(s) ==> is_hex(s) && hex_bytes(s).len() == 20,
        !is_hex(s) ==> !is_infohash(s),
{
    crate::digest::law_hex_round_trip(infohash);
}

} // verus!
