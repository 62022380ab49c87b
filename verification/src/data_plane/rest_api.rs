//! The requests that are made over HTTP and what they are answered.
//!
//! Requests and answers are plain values here; how they travel is up to the caller.

use crate::aggregator::{
    all_found, dedup, deduped, gather, DiscovererOutcome,
};
use crate::bytes::{append_decimal, decimal_text, take_20};
use crate::cache::{
    can_count, connected_once, group_failed, law_best_live_peers_are_given, law_connections_are_counted,
    lists_group, not_expired, PeerCache,
};
use crate::clock::unix_nanos;
use crate::digest::{hex_bytes, hex_complaint, hex_decode, is_hex, lemma_hex_is_ascii};
use crate::discoverers::{counts_in, AnyDiscoverer, DiscovererRegistry};
use crate::net::SocketAddr;
use crate::seqs::at_most;
use crate::sort::views;
use crate::traits::{DiscovererStats, PeerDiscoverer};
use crate::types::{best_of, Infohash, PeerInfo, PeerModel};
use crate::VERSION;
use vstd::prelude::*;
use vstd::string::*;
use vstd::utf8::encode_utf8;

verus! {

/// How many peers are returned if a request does not say.
pub const DEFAULT_LIMIT: usize = 100;

/// How the service is doing.
#[derive(Debug)]
pub struct HealthResponse {
    pub status: String,
    pub version: String,
    pub discoverers: usize,
    pub cached_infohashes: usize,
    pub cached_peers: usize,
    pub super_tracker_infohashes: usize,
    pub super_tracker_peers: usize,
    pub uptime_seconds: u64,
}

/// What a discoverer has done.
#[derive(Debug)]
pub struct DiscovererStat {
    pub name: String,
    pub discoverer_type: String,
    pub enabled: bool,
    pub total_requests: u64,
    pub success_requests: u64,
    pub failed_requests: u64,
    pub total_peers_discovered: u64,
}

/// What the cache holds.
#[derive(Debug, Clone, Copy)]
pub struct CacheStats {
    pub total_infohashes: usize,
    pub total_peers: usize,
}

/// What the tracker that this node offers holds.
#[derive(Debug, Clone, Copy)]
pub struct SuperTrackerStats {
    pub total_infohashes: usize,
    pub total_peers: usize,
}

/// What the service has done.
#[derive(Debug)]
pub struct StatsResponse {
    pub discoverer_stats: Vec<DiscovererStat>,
    pub cache_stats: CacheStats,
    pub super_tracker_stats: SuperTrackerStats,
}

/// A request for peers.
#[derive(Debug)]
pub struct DiscoverRequest {
    /// The infohash in hexadecimal.
    pub infohash: String,
    pub limit: usize,
    /// Whether what is cached does not count.
    pub force_refresh: bool,
}

/// The peers of an infohash.
pub struct DiscoverResponse {
    pub infohash: String,
    pub peers: Vec<PeerInfo>,
    /// How many peers of the infohash are cached.
    pub total: usize,
    pub from_cache: bool,
    pub duration_ms: u64,
}

/// A discoverer.
#[derive(Debug)]
pub struct DiscovererInfo {
    pub name: String,
    pub discoverer_type: String,
    pub enabled: bool,
}

/// All discoverers.
#[derive(Debug)]
pub struct DiscovererListResponse {
    pub discoverers: Vec<DiscovererInfo>,
}

/// The cached peers of an infohash.
pub struct CacheQueryResponse {
    pub infohash: String,
    pub peers: Vec<PeerInfo>,
    pub count: usize,
}

/// Why a request was refused.
#[derive(Debug)]
pub struct ErrorResponse {
    pub error: String,
}

/// How a connection to a peer went.
#[derive(Debug)]
pub struct PeerFeedbackRequest {
    /// The infohash in hexadecimal.
    pub infohash: String,
    /// The address and the port of the peer.
    pub addr: String,
    pub success: bool,
    pub latency_ms: Option<u64>,
    /// Bytes per second.
    pub download_speed: Option<u64>,
}

/// What became of the feedback.
#[derive(Debug)]
pub struct PeerFeedbackResponse {
    pub status: String,
    pub updated: bool,
}

/// Why a text is no infohash.
#[derive(Debug)]
pub enum InfohashError {
    /// It has only, or as many as, so many bytes.
    Length(usize),
    /// It is not hexadecimal, for the given reason.
    NotHex(String),
}

/// What an [`InfohashError`] says.
pub enum InfohashFault {
    Length(nat),
    NotHex(Seq<char>),
}

impl View for InfohashError {
    type V = InfohashFault;

    open spec fn view(&self) -> InfohashFault {
        match self {
            InfohashError::Length(n) => InfohashFault::Length(*n as nat),
            InfohashError::NotHex(why) => InfohashFault::NotHex(why@),
        }
    }
}

impl InfohashFault {
    /// The error as text.
    pub open spec fn text(self) -> Seq<char> {
        match self {
            InfohashFault::Length(n) => "infohash 必须是 40 字符的 hex 字符串，当前长度: "@
                + decimal_text(n),
            InfohashFault::NotHex(why) => "无效的 hex 字符串: "@ + why,
        }
    }
}

impl InfohashError {
    /// The error as text.
    pub fn message(&self) -> (r: String)
        ensures
            r@ == self@.text(),
    {
        match self {
            InfohashError::Length(n) => {
                let mut text: String =
                    "infohash 必须是 40 字符的 hex 字符串，当前长度: ".to_string();
                append_decimal(&mut text, *n as u64);
                text
            },
            InfohashError::NotHex(why) => {
                let mut text: String = "无效的 hex 字符串: ".to_string();
                text.append(why.as_str());
                text
            },
        }
    }
}

/// The infohash that a text of 40 hexadecimal digits stands for.
pub open spec fn infohash_in(s: Seq<char>) -> Result<Seq<u8>, InfohashFault> {
    if encode_utf8(s).len() != 40 {
        Err(InfohashFault::Length(encode_utf8(s).len()))
    } else if !is_hex(s) {
        Err(InfohashFault::NotHex(hex_complaint(s)))
    } else {
        Ok(hex_bytes(s))
    }
}

/// Whether a result is the one of a text.
pub open spec fn is_infohash_in(s: Seq<char>, r: Result<Infohash, InfohashError>) -> bool {
    match infohash_in(s) {
        Ok(h) => r matches Ok(ih) && ih@ == h,
        Err(f) => r matches Err(e) && e@ == f,
    }
}

/// Reads an infohash out of 40 hexadecimal digits.
pub fn parse_infohash(s: &str) -> (r: Result<Infohash, InfohashError>)
    ensures
        is_infohash_in(s@, r),
{
    let len: usize = s.as_bytes().len();
    if len != 40 {
        return Err(InfohashError::Length(len));
    }
    match hex_decode(s) {
        Ok(bytes) => {
            proof {
                lemma_hex_is_ascii(s@);
            }
            let id: Infohash = take_20(bytes.as_slice(), 0);
            assert(id@ =~= bytes@);
            Ok(id)
        },
        Err(why) => Err(InfohashError::NotHex(why)),
    }
}

/// Peers, and how many of the infohash are cached.
pub struct FoundPeers {
    pub peers: Vec<PeerInfo>,
    pub total: usize,
}

/// What to do about a request for peers.
pub enum DiscoverPlan {
    /// The request is refused.
    Refuse(InfohashError),
    /// The cache has the answer.
    Cached(FoundPeers),
    /// The discoverers are to be called.
    Search(Infohash),
}

/// Whether the cache has these peers of an infohash to give at time `now`.
pub open spec fn cache_gives(
    cache: PeerCache,
    infohash: Infohash,
    limit: usize,
    now: u64,
    peers: Seq<PeerModel>,
) -> bool {
    exists|s: Seq<PeerModel>| #[trigger]
        lists_group(cache.group(infohash), s) && peers == best_of(
            s.filter(not_expired(cache.ttl_secs, now)),
            limit as int,
        )
}

/// Whether a plan is the one for a request at time `now`.
pub open spec fn is_plan(cache: PeerCache, req: DiscoverRequest, now: u64, plan: DiscoverPlan) -> bool {
    match infohash_in(req.infohash@) {
        Err(f) => plan matches DiscoverPlan::Refuse(e) && e@ == f,
        Ok(h) => match plan {
            DiscoverPlan::Refuse(_) => false,
            DiscoverPlan::Cached(found) => {
                &&& !req.force_refresh
                &&& found.peers@.len() > 0
                &&& exists|ih: Infohash|
                    #![trigger cache.group(ih)]
                    ih@ == h && cache_gives(cache, ih, req.limit, now, views(found.peers@))
                        && found.total == cache.group(ih).len()
            },
            DiscoverPlan::Search(ih) => {
                &&& ih@ == h
                &&& req.force_refresh || cache_gives(cache, ih, req.limit, now, Seq::empty())
            },
        },
    }
}

/// What to do about a request for peers at time `now`.
pub fn begin_discover_at(cache: &PeerCache, req: &DiscoverRequest, now: u64) -> (r: DiscoverPlan)
    ensures
        is_plan(*cache, *req, now, r),
{
    let infohash: Infohash = match parse_infohash(req.infohash.as_str()) {
        Ok(h) => h,
        Err(e) => {
            return DiscoverPlan::Refuse(e);
        },
    };
    if !req.force_refresh {
        let cached: Vec<PeerInfo> = cache.get_peers_at(&infohash, req.limit, now);
        assert(cache_gives(*cache, infohash, req.limit, now, views(cached@)));
        if cached.len() > 0 {
            let total: usize = cache.peer_count(&infohash);
            return DiscoverPlan::Cached(FoundPeers { peers: cached, total });
        }
        assert(views(cached@) =~= Seq::empty());
    }
    DiscoverPlan::Search(infohash)
}

/// What to do about a request for peers.
pub fn begin_discover(cache: &PeerCache, req: &DiscoverRequest) -> (r: DiscoverPlan)
    ensures
        exists|now: u64| #[trigger] is_plan(*cache, *req, now, r),
{
    let now: u64 = unix_nanos();
    begin_discover_at(cache, req, now)
}

/// Whether `after` is a cache that takes peers of an infohash in that were found at time `now`. If
/// none were found, it stays as it is.
pub open spec fn holds_found(
    before: PeerCache,
    after: PeerCache,
    infohash: Infohash,
    found: Seq<PeerModel>,
    now: u64,
) -> bool {
    if found.len() == 0 {
        after == before
    } else {
        after.takes_in(before, infohash, found, now)
    }
}

/// Takes what the discoverers found at time `now`: each address once, in order. All of it is cached,
/// and the first `limit` peers are returned.
pub fn finish_discover_at(
    cache: &mut PeerCache,
    infohash: &Infohash,
    limit: usize,
    outcomes: &Vec<DiscovererOutcome>,
    now: u64,
) -> (r: FoundPeers)
    requires
        old(cache).wf(),
        all_found(outcomes@).len() <= usize::MAX,
    ensures
        final(cache).wf(),
        final(cache).same_limits(*old(cache)),
        views(r.peers@) == deduped(all_found(outcomes@)).take(
            at_most(limit as int, deduped(all_found(outcomes@)).len() as int),
        ),
        r.total == final(cache).group(*infohash).len(),
        holds_found(*old(cache), *final(cache), *infohash, deduped(all_found(outcomes@)), now),
{
    let ghost all = all_found(outcomes@);
    let found: Vec<PeerInfo> = gather(Vec::new(), outcomes).peers;
    assert(views(found@) =~= all);
    let mut peers: Vec<PeerInfo> = dedup(&found);
    if peers.len() > 0 {
        cache.add_peers_at(infohash, peers.as_slice(), now);
    }
    let ghost unique = peers@;
    assert(views(unique).len() == unique.len());
    if peers.len() > limit {
        peers.truncate(limit);
    }
    assert(views(peers@) =~= views(unique).take(at_most(limit as int, unique.len() as int)));
    let total: usize = cache.peer_count(infohash);
    FoundPeers { peers, total }
}

/// Takes what the discoverers found.
pub fn finish_discover(
    cache: &mut PeerCache,
    infohash: &Infohash,
    limit: usize,
    outcomes: &Vec<DiscovererOutcome>,
) -> (r: FoundPeers)
    requires
        old(cache).wf(),
        all_found(outcomes@).len() <= usize::MAX,
    ensures
        final(cache).wf(),
        final(cache).same_limits(*old(cache)),
        views(r.peers@) == deduped(all_found(outcomes@)).take(
            at_most(limit as int, deduped(all_found(outcomes@)).len() as int),
        ),
        r.total == final(cache).group(*infohash).len(),
        exists|now: u64| #[trigger]
            holds_found(*old(cache), *final(cache), *infohash, deduped(all_found(outcomes@)), now),
{
    finish_discover_at(cache, infohash, limit, outcomes, unix_nanos())
}

/// The answer to a request for peers.
pub fn discover_response(
    req: DiscoverRequest,
    found: FoundPeers,
    from_cache: bool,
    duration_ms: u64,
) -> (r: DiscoverResponse)
    ensures
        r.infohash == req.infohash,
        r.peers == found.peers,
        r.total == found.total,
        r.from_cache == from_cache,
        r.duration_ms == duration_ms,
{
    DiscoverResponse {
        infohash: req.infohash,
        peers: found.peers,
        total: found.total,
        from_cache,
        duration_ms,
    }
}

/// The answer to a question about the cache.
pub fn cache_query(cache: &PeerCache, infohash: String) -> (r: Result<
    CacheQueryResponse,
    InfohashError,
>)
    ensures
        match infohash_in(infohash@) {
            Err(f) => r matches Err(e) && e@ == f,
            Ok(h) => r matches Ok(found) && found.infohash == infohash && found.count
                == found.peers@.len() && exists|ih: Infohash, s: Seq<PeerModel>, now: u64|
                #![trigger lists_group(cache.group(ih), s), not_expired(cache.ttl_secs, now)]
                ih@ == h && lists_group(cache.group(ih), s) && views(found.peers@) == best_of(
                    s.filter(not_expired(cache.ttl_secs, now)),
                    usize::MAX as int,
                ),
        },
{
    match parse_infohash(infohash.as_str()) {
        Ok(h) => {
            let peers: Vec<PeerInfo> = cache.get_peers(&h, usize::MAX);
            let count: usize = peers.len();
            Ok(CacheQueryResponse { infohash, peers, count })
        },
        Err(e) => Err(e),
    }
}

/// The cache after feedback about a peer that came at time `now`.
pub open spec fn group_after_feedback(
    group: Map<SocketAddr, PeerModel>,
    addr: SocketAddr,
    success: bool,
    now: u64,
) -> Map<SocketAddr, PeerModel> {
    if !success {
        group_failed(group, addr, now)
    } else if group.contains_key(addr) {
        group.insert(addr, connected_once(group[addr], now))
    } else {
        group
    }
}

/// Takes feedback about a peer at time `now`. Says whether peers of the infohash are left, which is
/// taken for granted after a success.
pub fn apply_feedback_at(
    cache: &mut PeerCache,
    infohash: &Infohash,
    addr: &SocketAddr,
    success: bool,
    now: u64,
) -> (r: PeerFeedbackResponse)
    requires
        old(cache).wf(),
        can_count(old(cache).group(*infohash), *addr),
    ensures
        final(cache).wf(),
        final(cache).same_limits(*old(cache)),
        final(cache).known() == old(cache).known(),
        final(cache).group(*infohash) == group_after_feedback(
            old(cache).group(*infohash),
            *addr,
            success,
            now,
        ),
        forall|other: Infohash|
            other != *infohash ==> #[trigger] final(cache).group(other) == old(cache).group(other),
        r.status@ == "ok"@,
        r.updated == (success || final(cache).group(*infohash).len() > 0),
{
    let updated: bool = if success {
        cache.mark_connection_success_at(infohash, addr, now);
        true
    } else {
        cache.mark_connection_failure_at(infohash, addr, now);
        cache.len_for_infohash(infohash) > 0
    };
    PeerFeedbackResponse { status: "ok".to_string(), updated }
}

/// Whether `r` is the answer to feedback about a peer, and `after` the cache, if the address was read
/// as `addr` at time `now`. A request with a bad infohash or a bad address is refused and changes
/// nothing.
pub open spec fn answers_feedback(
    before: PeerCache,
    after: PeerCache,
    req: PeerFeedbackRequest,
    addr: Result<SocketAddr, String>,
    now: u64,
    r: Result<PeerFeedbackResponse, ErrorResponse>,
) -> bool {
    match (infohash_in(req.infohash@), addr) {
        (Err(f), _) => after == before && (r matches Err(e) && e.error@ == f.text()),
        (Ok(_), Err(why)) => after == before && (r matches Err(e) && e.error@ == "无效的 addr: "@
            + why@),
        (Ok(h), Ok(a)) => exists|ih: Infohash|
            #![trigger after.group(ih)]
            ih@ == h && after.known() == before.known() && after.group(ih) == group_after_feedback(
                before.group(ih),
                a,
                req.success,
                now,
            ) && (forall|other: Infohash|
                other != ih ==> #[trigger] after.group(other) == before.group(other)) && (
            r matches Ok(response) && response.status@ == "ok"@ && response.updated == (req.success
                || after.group(ih).len() > 0)),
    }
}

/// Whether the attempts to connect to a peer can be counted.
pub open spec fn can_take_feedback(
    cache: PeerCache,
    req: PeerFeedbackRequest,
    addr: Result<SocketAddr, String>,
) -> bool {
    forall|ih: Infohash|
        #![trigger cache.group(ih)]
        infohash_in(req.infohash@) == Ok::<Seq<u8>, InfohashFault>(ih@) && addr is Ok ==> can_count(
            cache.group(ih),
            addr->Ok_0,
        )
}

/// Answers feedback about a peer at time `now`, given what its address was read as: the address, or
/// why it could not be read.
pub fn peer_feedback_at(
    cache: &mut PeerCache,
    req: &PeerFeedbackRequest,
    addr: Result<SocketAddr, String>,
    now: u64,
) -> (r: Result<PeerFeedbackResponse, ErrorResponse>)
    requires
        old(cache).wf(),
        can_take_feedback(*old(cache), *req, addr),
    ensures
        final(cache).wf(),
        final(cache).same_limits(*old(cache)),
        answers_feedback(*old(cache), *final(cache), *req, addr, now, r),
{
    let infohash: Infohash = match parse_infohash(req.infohash.as_str()) {
        Ok(ih) => ih,
        Err(e) => {
            return Err(ErrorResponse { error: e.message() });
        },
    };
    match addr {
        Ok(a) => {
            let response: PeerFeedbackResponse = apply_feedback_at(
                cache,
                &infohash,
                &a,
                req.success,
                now,
            );
            Ok(response)
        },
        Err(why) => {
            let mut error: String = "无效的 addr: ".to_string();
            error.append(why.as_str());
            Err(ErrorResponse { error })
        },
    }
}

/// Answers feedback about a peer.
pub fn peer_feedback(
    cache: &mut PeerCache,
    req: &PeerFeedbackRequest,
    addr: Result<SocketAddr, String>,
) -> (r: Result<PeerFeedbackResponse, ErrorResponse>)
    requires
        old(cache).wf(),
        can_take_feedback(*old(cache), *req, addr),
    ensures
        final(cache).wf(),
        final(cache).same_limits(*old(cache)),
        exists|now: u64| #[trigger]
            answers_feedback(*old(cache), *final(cache), *req, addr, now, r),
{
    let now: u64 = unix_nanos();
    peer_feedback_at(cache, req, addr, now)
}

/// How the service is doing after it was up for a while.
pub fn health(
    registry: &DiscovererRegistry<AnyDiscoverer>,
    cache: &PeerCache,
    super_tracker: SuperTrackerStats,
    uptime_seconds: u64,
) -> (r: HealthResponse)
    requires
        cache.total() <= usize::MAX,
    ensures
        r.status@ == "ok"@,
        r.version@ == VERSION@,
        r.discoverers == registry.discoverers@.len(),
        r.cached_infohashes == cache.known().len(),
        r.cached_peers == cache.total(),
        r.super_tracker_infohashes == super_tracker.total_infohashes,
        r.super_tracker_peers == super_tracker.total_peers,
        r.uptime_seconds == uptime_seconds,
{
    let (cached_infohashes, cached_peers): (usize, usize) = cache.stats();
    HealthResponse {
        status: "ok".to_string(),
        version: VERSION.to_string(),
        discoverers: registry.len(),
        cached_infohashes,
        cached_peers,
        super_tracker_infohashes: super_tracker.total_infohashes,
        super_tracker_peers: super_tracker.total_peers,
        uptime_seconds,
    }
}

/// Whether `r` tells of a discoverer.
pub open spec fn tells_of(d: AnyDiscoverer, r: DiscovererStat) -> bool {
    &&& r.name@ == d.label()
    &&& r.discoverer_type@ == d.kind().label()
    &&& r.enabled == d.enabled()
    &&& (
        r.total_requests as nat,
        r.success_requests as nat,
        r.failed_requests as nat,
        r.total_peers_discovered as nat,
    ) == d.counts()
}

/// What the service has done.
pub fn statistics(
    registry: &DiscovererRegistry<AnyDiscoverer>,
    cache: &PeerCache,
    super_tracker: SuperTrackerStats,
) -> (r: StatsResponse)
    requires
        cache.total() <= usize::MAX,
        forall|i: int|
            0 <= i < registry.discoverers@.len() ==> (
            #[trigger] registry.discoverers@[i]).countable(),
    ensures
        r.discoverer_stats@.len() == registry.discoverers@.len(),
        forall|i: int|
            0 <= i < r.discoverer_stats@.len() ==> tells_of(
                registry.discoverers@[i],
                #[trigger] r.discoverer_stats@[i],
            ),
        r.cache_stats.total_infohashes == cache.known().len(),
        r.cache_stats.total_peers == cache.total(),
        r.super_tracker_stats == super_tracker,
{
    let mut out: Vec<DiscovererStat> = Vec::new();
    let mut i: usize = 0;
    while i < registry.discoverers.len()
        invariant
            i <= registry.discoverers@.len(),
            forall|j: int|
                0 <= j < registry.discoverers@.len() ==> (
                #[trigger] registry.discoverers@[j]).countable(),
            out@.len() == i,
            forall|j: int|
                0 <= j < i ==> tells_of(registry.discoverers@[j], #[trigger] out@[j]),
        decreases registry.discoverers@.len() - i,
    {
        let d: &AnyDiscoverer = &registry.discoverers[i];
        let s: DiscovererStats = d.stats();
        assert(counts_in(s) == d.counts());
        out.push(
            DiscovererStat {
                name: d.name().to_string(),
                discoverer_type: d.discoverer_type().as_str().to_string(),
                enabled: d.is_enabled(),
                total_requests: s.total_requests,
                success_requests: s.success_requests,
                failed_requests: s.failed_requests,
                total_peers_discovered: s.total_peers_discovered,
            },
        );
        i += 1;
    }
    let (total_infohashes, total_peers): (usize, usize) = cache.stats();
    StatsResponse {
        discoverer_stats: out,
        cache_stats: CacheStats { total_infohashes, total_peers },
        super_tracker_stats: super_tracker,
    }
}

/// All discoverers.
pub fn list_discoverers(registry: &DiscovererRegistry<AnyDiscoverer>) -> (r: DiscovererListResponse)
    ensures
        r.discoverers@.len() == registry.discoverers@.len(),
        forall|i: int|
            #![trigger r.discoverers@[i]]
            0 <= i < r.discoverers@.len() ==> {
                &&& r.discoverers@[i].name@ == registry.discoverers@[i].label()
                &&& r.discoverers@[i].discoverer_type@ == registry.discoverers@[i].kind().label()
                &&& r.discoverers@[i].enabled == registry.discoverers@[i].enabled()
            },
{
    let mut out: Vec<DiscovererInfo> = Vec::new();
    let mut i: usize = 0;
    while i < registry.discoverers.len()
        invariant
            i <= registry.discoverers@.len(),
            out@.len() == i,
            forall|j: int|
                #![trigger out@[j]]
                0 <= j < i ==> {
                    &&& out@[j].name@ == registry.discoverers@[j].label()
                    &&& out@[j].discoverer_type@ == registry.discoverers@[j].kind().label()
                    &&& out@[j].enabled == registry.discoverers@[j].enabled()
                },
        decreases registry.discoverers@.len() - i,
    {
        let d: &AnyDiscoverer = &registry.discoverers[i];
        out.push(
            DiscovererInfo {
                name: d.name().to_string(),
                discoverer_type: d.discoverer_type().as_str().to_string(),
                enabled: d.is_enabled(),
            },
        );
        i += 1;
    }
    DiscovererListResponse { discoverers: out }
}

/// An infohash is read back from its hexadecimal text.
pub proof fn law_infohash_text_is_read(infohash: Seq<u8>)
    requires
        infohash.len() == 20,
    ensures
        infohash_in(crate::digest::hex_text(infohash)) == Ok::<Seq<u8>, InfohashFault>(infohash),
{
    crate::digest::law_hex_round_trip(infohash);
    lemma_hex_is_ascii(crate::digest::hex_text(infohash));
}

/// A text that is not 40 bytes long is refused with its length; what is accepted stands for 20 bytes.
pub proof fn law_other_texts_are_refused(s: Seq<char>)
    ensures
        encode_utf8(s).len() != 40 ==> infohash_in(s) == Err::<Seq<u8>, InfohashFault>(
            InfohashFault::Length(encode_utf8(s).len()),
        ),
        encode_utf8(s).len() == 40 && !is_hex(s) ==> (infohash_in(s) matches Err(f) && f is NotHex),
        encode_utf8(s).len() == 40 && is_hex(s) ==> infohash_in(s) is Ok,
{
}

/// A request that wants fresh peers is searched for. Without that wish it is answered from the cache if
/// that has a live peer of the infohash, with live peers of that infohash, the ones with the highest
/// scores first, and else is searched for.
pub proof fn law_what_a_request_leads_to(
    cache: PeerCache,
    req: DiscoverRequest,
    now: u64,
    plan: DiscoverPlan,
    infohash: Infohash,
)
    requires
        is_plan(cache, req, now, plan),
        req.infohash@ == crate::digest::hex_text(infohash@),
        cache.group(infohash).dom().finite(),
        req.limit > 0,
    ensures
        req.force_refresh ==> plan == DiscoverPlan::Search(infohash),
        !req.force_refresh && (exists|a: SocketAddr| #[trigger]
            cache.group(infohash).contains_key(a) && now <= cache.group(infohash)[a].last_active
                + 1_000_000_000 * cache.ttl_secs) ==> plan is Cached,
        !req.force_refresh && !(exists|a: SocketAddr| #[trigger]
            cache.group(infohash).contains_key(a) && now <= cache.group(infohash)[a].last_active
                + 1_000_000_000 * cache.ttl_secs) ==> plan == DiscoverPlan::Search(infohash),
        plan matches DiscoverPlan::Cached(found) ==> {
            let given = views(found.peers@);
            &&& 0 < given.len() <= req.limit
            &&& found.total == cache.group(infohash).len()
            &&& forall|i: int|
                0 <= i < given.len() ==> (exists|a: SocketAddr| #[trigger]
                    cache.group(infohash).contains_key(a) && cache.group(infohash)[a] == given[i])
                    && now <= (#[trigger] given[i]).last_active + cache.ttl_secs * 1_000_000_000
            &&& forall|i: int, j: int|
                #![trigger given[i], given[j]]
                0 <= i <= j < given.len() ==> given[i].priority_score >= given[j].priority_score
        },
{
    law_infohash_text_is_read(infohash@);
    let group = cache.group(infohash);
    match plan {
        DiscoverPlan::Refuse(_) => {},
        DiscoverPlan::Cached(found) => {
            let ih = choose|ih: Infohash|
                #![trigger cache.group(ih)]
                ih@ == infohash@ && cache_gives(cache, ih, req.limit, now, views(found.peers@))
                    && found.total == cache.group(ih).len();
            assert(ih =~= infohash);
            let s = choose|s: Seq<PeerModel>| #[trigger]
                lists_group(cache.group(infohash), s) && views(found.peers@) == best_of(
                    s.filter(not_expired(cache.ttl_secs, now)),
                    req.limit as int,
                );
            law_best_live_peers_are_given(group, s, cache.ttl_secs, req.limit, now);
            let given = views(found.peers@);
            assert(given.len() == found.peers@.len());
            assert(group.contains_key(
                choose|a: SocketAddr| #[trigger] group.contains_key(a) && group[a] == given[0],
            ));
        },
        DiscoverPlan::Search(ih) => {
            assert(ih =~= infohash);
            if !req.force_refresh {
                let s = choose|s: Seq<PeerModel>| #[trigger]
                    lists_group(group, s) && Seq::<PeerModel>::empty() == best_of(
                        s.filter(not_expired(cache.ttl_secs, now)),
                        req.limit as int,
                    );
                law_best_live_peers_are_given(group, s, cache.ttl_secs, req.limit, now);
            }
        },
    }
}

/// Feedback reaches the peer that it is about: a success counts as one for a peer that is known, a
/// failure as one, and the fifth in a row drops the peer. Nobody else is touched, and nobody comes in.
pub proof fn law_feedback_reaches_the_peer(
    group: Map<SocketAddr, PeerModel>,
    addr: SocketAddr,
    success: bool,
    now: u64,
    other: SocketAddr,
)
    requires
        group.contains_key(addr) ==> group[addr].connection_attempts < u32::MAX
            && group[addr].connection_successes < u32::MAX && group[addr].consecutive_failures
            < u32::MAX,
    ensures
        ({
            let after = group_after_feedback(group, addr, success, now);
            &&& !group.contains_key(addr) ==> after == group
            &&& other != addr ==> (after.contains_key(other) <==> group.contains_key(other))
            &&& other != addr && group.contains_key(other) ==> after[other] == group[other]
            &&& group.contains_key(addr) && success ==> after.contains_key(addr)
                && after[addr].connection_attempts == group[addr].connection_attempts + 1
                && after[addr].connection_successes == group[addr].connection_successes + 1
                && after[addr].consecutive_failures == 0 && after[addr].last_active == now
            &&& group.contains_key(addr) && !success ==> (after.contains_key(addr)
                <==> group[addr].consecutive_failures < 4)
            &&& group.contains_key(addr) && !success && after.contains_key(addr)
                ==> after[addr].connection_attempts == group[addr].connection_attempts + 1
                && after[addr].connection_successes == group[addr].connection_successes
                && after[addr].consecutive_failures == group[addr].consecutive_failures + 1
        }),
{
    if group.contains_key(addr) {
        law_connections_are_counted(group[addr], now);
    }
}

/// What the discoverers found is taken into the cache, and nothing found leaves it as it was.
pub proof fn law_found_peers_go_to_the_cache(
    before: PeerCache,
    after: PeerCache,
    infohash: Infohash,
    found: Seq<PeerModel>,
    now: u64,
)
    requires
        holds_found(before, after, infohash, found, now),
    ensures
        found.len() == 0 ==> after == before,
        found.len() > 0 ==> after.takes_in(before, infohash, found, now),
{
}

/// Feedback with a bad infohash or a bad address is refused and changes nothing. Good feedback reaches
/// the group of the infohash and no other, and is answered with "ok".
pub proof fn law_feedback_is_answered(
    before: PeerCache,
    after: PeerCache,
    req: PeerFeedbackRequest,
    addr: Result<SocketAddr, String>,
    now: u64,
    r: Result<PeerFeedbackResponse, ErrorResponse>,
    infohash: Infohash,
    other: Infohash,
)
    requires
        answers_feedback(before, after, req, addr, now, r),
    ensures
        addr is Err ==> r is Err && after == before,
        infohash_in(req.infohash@) is Err ==> r is Err && after == before,
        addr is Ok && req.infohash@ == crate::digest::hex_text(infohash@) ==> {
            &&& r is Ok
            &&& r->Ok_0.status@ == "ok"@
            &&& req.success ==> r->Ok_0.updated
            &&& !req.success ==> (r->Ok_0.updated <==> after.group(infohash).len() > 0)
            &&& after.group(infohash) == group_after_feedback(
                before.group(infohash),
                addr->Ok_0,
                req.success,
                now,
            )
            &&& other != infohash ==> after.group(other) == before.group(other)
        },
{
    if addr is Ok && req.infohash@ == crate::digest::hex_text(infohash@) {
        law_infohash_text_is_read(infohash@);
        let ih = choose|ih: Infohash|
            #![trigger after.group(ih)]
            ih@ == infohash@ && after.known() == before.known() && after.group(ih)
                == group_after_feedback(before.group(ih), addr->Ok_0, req.success, now) && (forall|
                other: Infohash,
            |
                other != ih ==> #[trigger] after.group(other) == before.group(other)) && (
            r matches Ok(response) && response.status@ == "ok"@ && response.updated == (req.success
                || after.group(ih).len() > 0));
        assert(ih =~= infohash);
    }
}

/// A report tells of a discoverer what it is called, whether it is used, and what it counted.
pub proof fn law_report_tells_of_the_discoverer(d: AnyDiscoverer, r: DiscovererStat)
    requires
        tells_of(d, r),
    ensures
        r.name@ == d.label(),
        r.discoverer_type@ == d.kind().label(),
        r.enabled == d.enabled(),
        r.total_requests == d.counts().0,
        r.success_requests == d.counts().1,
        r.failed_requests == d.counts().2,
        r.total_peers_discovered == d.counts().3,
{
}

} // verus!
