//! Finding peers by asking trackers.
//!
//! Requests are sent by the caller: [`TrackerDiscoverer::discover_requests`] says which,
//! [`TrackerDiscoverer::record_result`] takes how each went, and
//! [`TrackerDiscoverer::collect_peers`] puts the peers together.

use crate::addrset::{sorted_set, sorted_set_of};
use crate::bencode::bytes_encoding;
use crate::bytes::{
    append_decimal, bytes_at, decimal, decimal_text, find_bytes, is_digit, law_decimal_round_trip,
    lemma_decimal_text_len, number_in, parse_number, position_from, sub_vec,
};
use crate::clock::{instant_now, nanos_between, nanos_of, nanos_since, unix_nanos, NANOS_PER_SEC};
use crate::compact::{
    carried, compact_peers, law_compact_round_trip, peers_of, read_compact_peers,
};
use crate::digest::{hex_bytes, hex_encode, hex_text, is_hex, law_hex_round_trip};
use crate::discoverers::tracker::query::{
    append_query, pair_texts, short_pairs, url_with_pairs, MAX_URL_LEN,
};
use crate::discoverers::tracker::udp::{host_part, UdpTrackerClient};
use crate::discoverers::tracker::{lemma_public_trackers_are_short, PUBLIC_TRACKERS};
use crate::net::SocketAddr;
use crate::random::random_peer_id;
use crate::seqs::{at_most, lemma_filter_all, lemma_filter_step};
use crate::sort::views;
use crate::text::{occurs_at, text_starts_with, texts};
use crate::traits::{AnnounceEvent, DiscovererStats, DiscovererType, PeerDiscoverer};
use crate::turns::Turns;
use crate::types::{fresh_models, fresh_peers, Infohash, PeerInfo, PeerSource};
use crate::vecmap::VecMap;
use std::time::Instant;
use vstd::prelude::*;
use vstd::string::*;

verus! {

/// How many trackers an announcement goes to.
pub const ANNOUNCE_TRACKERS: usize = 5;

/// The settings for trackers.
pub struct TrackerConfig {
    pub trackers: Vec<String>,
    pub timeout_secs: u64,
    pub max_concurrent_requests: usize,
    /// After how many failures in a row a tracker is left alone for a while.
    pub max_consecutive_failures: u32,
    /// Seconds for which a tracker is left alone.
    pub cooldown_secs: u64,
    pub listen_port: u16,
    pub uploaded: u64,
    pub downloaded: u64,
    pub left: u64,
    pub peer_id: [u8; 20],
    pub user_agent: String,
}

impl TrackerConfig {
    /// Whether the addresses are of a length that can be handled.
    pub open spec fn addressable(&self) -> bool {
        forall|i: int|
            0 <= i < self.trackers@.len() ==> (#[trigger] self.trackers@[i])@.len() <= MAX_URL_LEN
    }
}

/// The addresses of the public trackers.
pub open spec fn public_texts() -> Seq<Seq<char>> {
    PUBLIC_TRACKERS@.map_values(|t: &'static str| t@)
}

fn public_list() -> (r: Vec<String>)
    ensures
        texts(r@) == public_texts(),
        r@.len() == 101,
        forall|i: int| 0 <= i < r@.len() ==> (#[trigger] r@[i])@.len() <= 100,
{
    let all: [&'static str; 101] = PUBLIC_TRACKERS;
    let mut out: Vec<String> = Vec::new();
    let mut i: usize = 0;
    while i < 101
        invariant
            i <= 101,
            all == PUBLIC_TRACKERS,
            texts(out@) == public_texts().take(i as int),
            out@.len() == i,
            forall|j: int| 0 <= j < out@.len() ==> (#[trigger] out@[j])@.len() <= 100,
        decreases 101 - i,
    {
        let ghost before = texts(out@);
        proof {
            lemma_public_trackers_are_short(i as int);
        }
        out.push(all[i].to_string());
        i += 1;
        proof {
            assert(texts(out@) =~= before.push(public_texts()[i - 1]));
            assert(texts(out@) =~= public_texts().take(i as int));
        }
    }
    assert(public_texts().take(101) =~= public_texts());
    out
}

/// Whether all settings but the trackers are the usual ones.
pub open spec fn has_usual_settings(c: TrackerConfig) -> bool {
    &&& c.timeout_secs == 15
    &&& c.max_concurrent_requests == 10
    &&& c.max_consecutive_failures == 3
    &&& c.cooldown_secs == 300
    &&& c.listen_port == 6881
    &&& c.uploaded == 0
    &&& c.downloaded == 0
    &&& c.left == 0
    &&& c.peer_id@.take(8) == "PD-0200-".spec_bytes()
    &&& c.user_agent@ == "PeerDiscoveryCenter/0.2.0"@
}

impl Default for TrackerConfig {
    /// The public trackers, and a random peer id that names this program.
    fn default() -> (r: TrackerConfig)
        ensures
            texts(r.trackers@) == public_texts(),
            r.trackers@.len() > 100,
            r.addressable(),
            has_usual_settings(r),
    {
        proof {
            reveal_strlit("PD-0200-");
            assert(is_ascii("PD-0200-"));
        }
        TrackerConfig {
            trackers: public_list(),
            timeout_secs: 15,
            max_concurrent_requests: 10,
            max_consecutive_failures: 3,
            cooldown_secs: 300,
            listen_port: 6881,
            uploaded: 0,
            downloaded: 0,
            left: 0,
            peer_id: random_peer_id("PD-0200-"),
            user_agent: "PeerDiscoveryCenter/0.2.0".to_string(),
        }
    }
}

/// How a tracker has done.
#[derive(Debug, Clone, Copy)]
pub struct TrackerState {
    pub consecutive_failures: u32,
    pub last_failure_at: Option<Instant>,
    /// Whether the tracker is left alone.
    pub disabled: bool,
    pub stats: DiscovererStats,
}

impl TrackerState {
    /// Whether nothing is known of the tracker.
    pub open spec fn is_initial(self) -> bool {
        &&& self.consecutive_failures == 0
        &&& self.last_failure_at is None
        &&& !self.disabled
        &&& self.stats == (DiscovererStats {
            total_requests: 0,
            success_requests: 0,
            failed_requests: 0,
            total_peers_discovered: 0,
            last_success_at: None,
            last_failure_at: None,
        })
    }

    /// Whether another request can be counted.
    pub open spec fn has_room(self, peers_count: nat) -> bool {
        &&& self.consecutive_failures < u32::MAX
        &&& self.stats.total_requests < u64::MAX
        &&& self.stats.success_requests < u64::MAX
        &&& self.stats.failed_requests < u64::MAX
        &&& self.stats.total_peers_discovered + peers_count <= u64::MAX
    }
}

impl Default for TrackerState {
    fn default() -> (r: TrackerState)
        ensures
            r.is_initial(),
    {
        TrackerState {
            consecutive_failures: 0,
            last_failure_at: None,
            disabled: false,
            stats: DiscovererStats::default(),
        }
    }
}

/// The state after a request succeeded at time `at` with so many peers.
pub open spec fn after_success(s: TrackerState, peers_count: nat, at: u64) -> TrackerState {
    TrackerState {
        consecutive_failures: 0,
        disabled: false,
        stats: DiscovererStats {
            total_requests: (s.stats.total_requests + 1) as u64,
            success_requests: (s.stats.success_requests + 1) as u64,
            total_peers_discovered: (s.stats.total_peers_discovered + peers_count) as u64,
            last_success_at: Some(at),
            ..s.stats
        },
        ..s
    }
}

/// The state after a request failed: the tracker is left alone after too many failures in a row.
pub open spec fn after_failure(
    s: TrackerState,
    max_failures: u32,
    now: Instant,
    at: u64,
) -> TrackerState {
    TrackerState {
        consecutive_failures: (s.consecutive_failures + 1) as u32,
        last_failure_at: Some(now),
        disabled: s.disabled || s.consecutive_failures + 1 >= max_failures,
        stats: DiscovererStats {
            total_requests: (s.stats.total_requests + 1) as u64,
            failed_requests: (s.stats.failed_requests + 1) as u64,
            last_failure_at: Some(at),
            ..s.stats
        },
    }
}

/// The state after the cool-down, `since` nanoseconds after the last failure.
pub open spec fn recovered(s: TrackerState, since: u64, cooldown_secs: u64) -> TrackerState {
    if s.disabled && s.last_failure_at is Some && since >= cooldown_secs * NANOS_PER_SEC {
        TrackerState { disabled: false, consecutive_failures: 0, ..s }
    } else {
        s
    }
}

/// Nanoseconds from the last failure of a tracker to a point in time, zero without a failure.
pub open spec fn since_failure(s: TrackerState, now: Instant) -> u64 {
    match s.last_failure_at {
        Some(t) => nanos_since(t, now),
        None => 0,
    }
}

/// The trackers that are not left alone. A tracker without a state is not.
pub open spec fn active(states: Map<Seq<char>, TrackerState>) -> spec_fn(Seq<char>) -> bool {
    |url: Seq<char>| states.contains_key(url) ==> !states[url].disabled
}

/// A request to a tracker.
#[derive(Debug)]
pub enum TrackerRequest {
    /// Fetch `url`; none if the tracker's address is malformed.
    Http { tracker: String, url: Option<String> },
    /// Announce to the UDP tracker at `host`.
    Udp { tracker: String, host: String },
    /// The tracker's protocol is not supported.
    Unsupported { tracker: String },
}

/// Whether an address is one of an HTTP tracker.
pub open spec fn is_http(url: Seq<char>) -> bool {
    occurs_at(url, "http://"@, 0) || occurs_at(url, "https://"@, 0)
}

/// The parameters of a request for peers.
pub open spec fn discover_pairs(config: TrackerConfig, infohash: Seq<u8>, limit: usize) -> Seq<
    (Seq<char>, Seq<char>),
> {
    seq![
        ("info_hash"@, hex_text(infohash)),
        ("peer_id"@, hex_text(config.peer_id@)),
        ("port"@, decimal_text(config.listen_port as nat)),
        ("uploaded"@, "0"@),
        ("downloaded"@, "0"@),
        ("left"@, "0"@),
        ("event"@, "started"@),
        ("compact"@, "1"@),
        ("numwant"@, decimal_text(limit as nat)),
    ]
}

/// The parameters of an announcement.
pub open spec fn announce_pairs(
    config: TrackerConfig,
    infohash: Seq<u8>,
    port: u16,
    event: AnnounceEvent,
) -> Seq<(Seq<char>, Seq<char>)> {
    seq![
        ("info_hash"@, hex_text(infohash)),
        ("peer_id"@, hex_text(config.peer_id@)),
        ("port"@, decimal_text(port as nat)),
        ("uploaded"@, "0"@),
        ("downloaded"@, "0"@),
        ("left"@, "0"@),
        ("event"@, event.label()),
        ("compact"@, "1"@),
    ]
}

/// The parameters of a request for peers are short.
proof fn lemma_discover_pairs_are_short(config: TrackerConfig, infohash: Infohash, limit: usize)
    ensures
        short_pairs(discover_pairs(config, infohash@, limit)),
{
    reveal_strlit("info_hash");
    reveal_strlit("peer_id");
    reveal_strlit("port");
    reveal_strlit("uploaded");
    reveal_strlit("downloaded");
    reveal_strlit("left");
    reveal_strlit("event");
    reveal_strlit("compact");
    reveal_strlit("numwant");
    reveal_strlit("started");
    reveal_strlit("0");
    reveal_strlit("1");
    lemma_decimal_is_short(config.listen_port as nat);
    lemma_decimal_is_short(limit as nat);
}

/// The parameters of an announcement are short.
proof fn lemma_announce_pairs_are_short(
    config: TrackerConfig,
    infohash: Infohash,
    port: u16,
    event: AnnounceEvent,
)
    ensures
        short_pairs(announce_pairs(config, infohash@, port, event)),
{
    reveal_strlit("info_hash");
    reveal_strlit("peer_id");
    reveal_strlit("port");
    reveal_strlit("uploaded");
    reveal_strlit("downloaded");
    reveal_strlit("left");
    reveal_strlit("event");
    reveal_strlit("compact");
    reveal_strlit("started");
    reveal_strlit("stopped");
    reveal_strlit("completed");
    reveal_strlit("none");
    reveal_strlit("0");
    reveal_strlit("1");
    lemma_decimal_is_short(port as nat);
}

proof fn lemma_decimal_is_short(n: nat)
    requires
        n <= u64::MAX,
    ensures
        decimal_text(n).len() <= 20,
{
    assert(vstd::arithmetic::power::pow(10, 20) == 100_000_000_000_000_000_000) by {
        reveal_with_fuel(vstd::arithmetic::power::pow, 21);
    }
    lemma_decimal_text_len(n, 20);
}

/// Whether `r` is the request to the tracker at `url` with the given parameters.
pub open spec fn is_request(
    r: TrackerRequest,
    url: Seq<char>,
    pairs: Seq<(Seq<char>, Seq<char>)>,
) -> bool {
    if is_http(url) {
        r matches TrackerRequest::Http { tracker, url: full } && tracker@ == url && (match full {
            Some(u) => url_with_pairs(url, pairs) == Some(u@),
            None => url_with_pairs(url, pairs) is None,
        })
    } else if occurs_at(url, "udp://"@, 0) {
        r matches TrackerRequest::Udp { tracker, host } && tracker@ == url && host@ == host_part(url)
    } else {
        r matches TrackerRequest::Unsupported { tracker } && tracker@ == url
    }
}

/// The addresses to announce to over HTTP, in the order of the trackers; malformed ones are left
/// out.
pub open spec fn announce_addresses(
    trackers: Seq<Seq<char>>,
    pairs: Seq<(Seq<char>, Seq<char>)>,
) -> Seq<Seq<char>>
    decreases trackers.len(),
{
    if trackers.len() == 0 {
        Seq::empty()
    } else {
        let rest = announce_addresses(trackers.drop_last(), pairs);
        let url = trackers.last();
        if is_http(url) && url_with_pairs(url, pairs) is Some {
            rest.push(url_with_pairs(url, pairs)->0)
        } else {
            rest
        }
    }
}

/// The position of the first colon, the length if there is none.
pub open spec fn colon_position(s: Seq<u8>) -> int
    decreases s.len(),
{
    if s.len() == 0 || s[0] == 58 {
        0
    } else {
        1 + colon_position(s.drop_first())
    }
}

/// The peers in the body of a tracker's answer: those of the first compact list under `peers`, none
/// if there is no such list.
pub open spec fn body_peers(body: Seq<u8>) -> Seq<SocketAddr> {
    match position_from(body, "5:peers".spec_bytes(), 0) {
        Some(p) => {
            let rest = body.skip(p + 7);
            let n = colon_position(rest);
            match number_in(rest.take(n), usize::MAX as nat) {
                Some(len) => if n + 1 + len <= rest.len() {
                    peers_of(rest.subrange(n + 1, n + 1 + len), true)
                } else {
                    Seq::empty()
                },
                None => Seq::empty(),
            }
        },
        None => Seq::empty(),
    }
}

proof fn lemma_colon_position(s: Seq<u8>, i: int)
    requires
        0 <= i <= s.len(),
        forall|j: int| 0 <= j < i ==> #[trigger] s[j] != 58,
        i < s.len() ==> s[i] == 58,
    ensures
        colon_position(s) == i,
    decreases s.len(),
{
    if i > 0 {
        let rest = s.drop_first();
        assert forall|j: int| 0 <= j < i - 1 implies #[trigger] rest[j] != 58 by {
            assert(s[j + 1] != 58);
        }
        assert(s[0] != 58);
        lemma_colon_position(rest, i - 1);
    }
}

/// The sum of the counts of trackers.
pub open spec fn total_counts(states: Seq<TrackerState>) -> (nat, nat, nat, nat)
    decreases states.len(),
{
    if states.len() == 0 {
        (0, 0, 0, 0)
    } else {
        let rest = total_counts(states.drop_last());
        let s = states.last().stats;
        (
            rest.0 + s.total_requests as nat,
            rest.1 + s.success_requests as nat,
            rest.2 + s.failed_requests as nat,
            rest.3 + s.total_peers_discovered as nat,
        )
    }
}

/// The states in the order in which they are kept.
pub open spec fn states_of(m: VecMap<String, TrackerState>) -> Seq<TrackerState> {
    m.seq().map_values(|e: (String, TrackerState)| e.1)
}

proof fn lemma_total_counts_prefix(states: Seq<TrackerState>, i: int)
    requires
        0 <= i <= states.len(),
    ensures
        total_counts(states.take(i)).0 <= total_counts(states).0,
        total_counts(states.take(i)).1 <= total_counts(states).1,
        total_counts(states.take(i)).2 <= total_counts(states).2,
        total_counts(states.take(i)).3 <= total_counts(states).3,
    decreases states.len() - i,
{
    if i < states.len() {
        lemma_total_counts_prefix(states, i + 1);
        assert(states.take(i + 1).drop_last() =~= states.take(i));
    } else {
        assert(states.take(i) =~= states);
    }
}

/// Trackers as a source of peers.
pub struct TrackerDiscoverer {
    pub config: TrackerConfig,
    pub states: VecMap<String, TrackerState>,
}

impl TrackerDiscoverer {
    /// The addresses of the trackers that are not left alone.
    pub open spec fn active_texts(&self) -> Seq<Seq<char>> {
        texts(self.config.trackers@).filter(active(self.states@))
    }

    /// Whether no tracker was asked yet.
    pub open spec fn untried(&self) -> bool {
        &&& forall|t: Seq<char>| #[trigger]
            self.states@.contains_key(t) <==> texts(self.config.trackers@).contains(t)
        &&& forall|t: Seq<char>| #[trigger]
            self.states@.contains_key(t) ==> self.states@[t].is_initial()
    }

    /// A discoverer that knows nothing of its trackers yet.
    pub fn new(config: TrackerConfig) -> (r: TrackerDiscoverer)
        ensures
            r.config == config,
            r.untried(),
    {
        let mut states: VecMap<String, TrackerState> = VecMap::new();
        let mut i: usize = 0;
        let ghost all = texts(config.trackers@);
        while i < config.trackers.len()
            invariant
                i <= config.trackers@.len() == all.len(),
                all == texts(config.trackers@),
                forall|t: Seq<char>| #[trigger]
                    states@.contains_key(t) <==> all.take(i as int).contains(t),
                forall|t: Seq<char>| #[trigger]
                    states@.contains_key(t) ==> states@[t].is_initial(),
            decreases config.trackers@.len() - i,
        {
            states.insert(config.trackers[i].clone(), TrackerState::default());
            proof {
                let before = all.take(i as int);
                let after = all.take(i + 1);
                assert(after =~= before.push(all[i as int]));
                assert forall|t: Seq<char>| #[trigger]
                    states@.contains_key(t) <==> after.contains(t) by {
                    if before.contains(t) {
                        let k = choose|k: int| 0 <= k < before.len() && before[k] == t;
                        assert(after[k] == t);
                    }
                    if t == all[i as int] {
                        assert(after[i as int] == t);
                    }
                    if after.contains(t) && t != all[i as int] {
                        let k = choose|k: int| 0 <= k < after.len() && after[k] == t;
                        assert(before[k] == t);
                    }
                }
            }
            i += 1;
        }
        assert(all.take(i as int) =~= all);
        TrackerDiscoverer { config, states }
    }

    /// A discoverer with the public trackers.
    pub fn with_default_config() -> (r: TrackerDiscoverer)
        ensures
            texts(r.config.trackers@) == public_texts(),
            r.config.addressable(),
            has_usual_settings(r.config),
            r.untried(),
    {
        Self::new(TrackerConfig::default())
    }

    /// A discoverer with the given trackers.
    pub fn with_trackers(trackers: Vec<String>) -> (r: TrackerDiscoverer)
        ensures
            r.config.trackers == trackers,
            has_usual_settings(r.config),
            r.untried(),
    {
        let mut config: TrackerConfig = TrackerConfig::default();
        config.trackers = trackers;
        Self::new(config)
    }

    /// The trackers that are not left alone.
    pub fn active_trackers(&self) -> (r: Vec<String>)
        ensures
            texts(r@) == self.active_texts(),
            self.config.addressable() ==> forall|i: int|
                0 <= i < r@.len() ==> (#[trigger] r@[i])@.len() <= MAX_URL_LEN,
    {
        let ghost all = texts(self.config.trackers@);
        let ghost p = active(self.states@);
        let mut out: Vec<String> = Vec::new();
        let mut i: usize = 0;
        assert(texts(out@) =~= all.take(0).filter(p)) by {
            reveal(Seq::filter);
        }
        while i < self.config.trackers.len()
            invariant
                i <= self.config.trackers@.len() == all.len(),
                all == texts(self.config.trackers@),
                p == active(self.states@),
                texts(out@) == all.take(i as int).filter(p),
                self.config.addressable() ==> forall|j: int|
                    0 <= j < out@.len() ==> (#[trigger] out@[j])@.len() <= MAX_URL_LEN,
            decreases self.config.trackers@.len() - i,
        {
            proof {
                lemma_filter_step(all, i as int, p);
            }
            let ghost before = texts(out@);
            let disabled: bool = match self.states.get(&self.config.trackers[i]) {
                Some(s) => s.disabled,
                None => false,
            };
            if !disabled {
                out.push(self.config.trackers[i].clone());
                assert(texts(out@) =~= before.push(all[i as int]));
            }
            i += 1;
        }
        assert(all.take(i as int) =~= all);
        out
    }

    /// The peers in the body of a tracker's answer.
    pub fn parse_http_peers(body: &[u8]) -> (r: Vec<SocketAddr>)
        ensures
            r@ == body_peers(body@),
    {
        proof {
            reveal_strlit("5:peers");
            assert(is_ascii("5:peers"));
        }
        let none: Vec<SocketAddr> = Vec::new();
        assert(none@ =~= Seq::<SocketAddr>::empty());
        assert(body@.len() == body.len());
        let start: usize = match find_bytes(body, "5:peers".as_bytes()) {
            Some(p) => p + 7,
            None => {
                return none;
            },
        };
        let rest: Vec<u8> = sub_vec(body, start, body.len());
        assert(rest@ =~= body@.skip(start as int));
        let mut n: usize = 0;
        while n < rest.len() && rest[n] != 58
            invariant
                n <= rest@.len(),
                forall|j: int| 0 <= j < n ==> #[trigger] rest@[j] != 58,
            decreases rest@.len() - n,
        {
            n += 1;
        }
        proof {
            lemma_colon_position(rest@, n as int);
        }
        let digits: Vec<u8> = sub_vec(rest.as_slice(), 0, n);
        assert(digits@ =~= rest@.take(n as int));
        match parse_number(digits.as_slice(), usize::MAX as u64) {
            Some(len) => {
                let len: usize = len as usize;
                if n < rest.len() && len <= rest.len() - n - 1 {
                    let data: Vec<u8> = sub_vec(rest.as_slice(), n + 1, n + 1 + len);
                    Self::parse_compact_peers(data.as_slice())
                } else {
                    none
                }
            },
            None => none,
        }
    }

    /// The peers of a compact list: six bytes each, the address and the port.
    pub fn parse_compact_peers(data: &[u8]) -> (r: Vec<SocketAddr>)
        ensures
            r@ == peers_of(data@, true),
    {
        read_compact_peers(data, true)
    }

    /// Notes how a request to a tracker went. A tracker that is not known is passed over.
    pub fn record_result_at(
        &mut self,
        tracker_url: &str,
        success: bool,
        peers_count: usize,
        now: Instant,
        at: u64,
    )
        requires
            old(self).states@.contains_key(tracker_url@) ==> old(
                self,
            ).states@[tracker_url@].has_room(peers_count as nat),
        ensures
            final(self).config == old(self).config,
            final(self).states@ == if old(self).states@.contains_key(tracker_url@) {
                let s = old(self).states@[tracker_url@];
                old(self).states@.insert(
                    tracker_url@,
                    if success {
                        after_success(s, peers_count as nat, at)
                    } else {
                        after_failure(s, old(self).config.max_consecutive_failures, now, at)
                    },
                )
            } else {
                old(self).states@
            },
    {
        let key: String = tracker_url.to_string();
        let found: Option<TrackerState> = match self.states.get(&key) {
            Some(s) => Some(*s),
            None => None,
        };
        if let Some(found) = found {
            let mut state: TrackerState = found;
            if success {
                state.consecutive_failures = 0;
                state.disabled = false;
                state.stats.record_success_at(peers_count, at);
            } else {
                state.consecutive_failures = state.consecutive_failures + 1;
                state.last_failure_at = Some(now);
                state.stats.record_failure_at(at);
                if state.consecutive_failures >= self.config.max_consecutive_failures {
                    state.disabled = true;
                }
            }
            self.states.insert(key, state);
        }
    }

    /// Notes how a request to a tracker went just now.
    pub fn record_result(&mut self, tracker_url: &str, success: bool, peers_count: usize)
        requires
            old(self).states@.contains_key(tracker_url@) ==> old(
                self,
            ).states@[tracker_url@].has_room(peers_count as nat),
        ensures
            final(self).config == old(self).config,
            !old(self).states@.contains_key(tracker_url@) ==> final(self).states@ == old(
                self,
            ).states@,
            old(self).states@.contains_key(tracker_url@) && success ==> exists|at: u64|
                final(self).states@ == old(self).states@.insert(
                    tracker_url@,
                    #[trigger] after_success(
                        old(self).states@[tracker_url@],
                        peers_count as nat,
                        at,
                    ),
                ),
            old(self).states@.contains_key(tracker_url@) && !success ==> exists|
                now: Instant,
                at: u64,
            |
                final(self).states@ == old(self).states@.insert(
                    tracker_url@,
                    #[trigger] after_failure(
                        old(self).states@[tracker_url@],
                        old(self).config.max_consecutive_failures,
                        now,
                        at,
                    ),
                ),
    {
        let now: Instant = instant_now();
        let at: u64 = unix_nanos();
        self.record_result_at(tracker_url, success, peers_count, now, at);
    }

    /// Takes trackers up again that were left alone for long enough, given the nanoseconds since
    /// the last failure of each.
    pub fn recover_after(&mut self, since: &Vec<u64>)
        requires
            since@.len() == old(self).states.seq().len(),
        ensures
            final(self).config == old(self).config,
            final(self).states.seq().len() == old(self).states.seq().len(),
            forall|i: int|
                0 <= i < since@.len() ==> (#[trigger] final(self).states.seq()[i]) == (
                    old(self).states.seq()[i].0,
                    recovered(
                        old(self).states.seq()[i].1,
                        since@[i],
                        old(self).config.cooldown_secs,
                    ),
                ),
    {
        let n: usize = self.states.len();
        let ghost before = self.states.seq();
        let cooldown: u128 = nanos_of(self.config.cooldown_secs);
        let mut i: usize = 0;
        while i < n
            invariant
                i <= n == before.len() == since@.len(),
                self.states.seq().len() == n,
                self.config == old(self).config,
                cooldown == self.config.cooldown_secs * NANOS_PER_SEC,
                forall|j: int|
                    0 <= j < i ==> (#[trigger] self.states.seq()[j]) == (
                        before[j].0,
                        recovered(before[j].1, since@[j], self.config.cooldown_secs),
                    ),
                forall|j: int| i <= j < n ==> (#[trigger] self.states.seq()[j]) == before[j],
            decreases n - i,
        {
            let found: TrackerState = *self.states.value_at(i);
            if found.disabled && found.last_failure_at.is_some() && since[i] as u128 >= cooldown {
                let mut state: TrackerState = found;
                state.disabled = false;
                state.consecutive_failures = 0;
                self.states.set_value_at(i, state);
            }
            i += 1;
        }
    }

    /// Takes trackers up again that were left alone for long enough.
    pub fn recover_cooldown_trackers(&mut self)
        ensures
            final(self).config == old(self).config,
            exists|now: Instant| #[trigger] final(self).has_recovered(*old(self), now),
    {
        self.recover_at(instant_now());
    }

    /// Whether this is what `before` becomes when the trackers that were left alone for long enough
    /// at a point in time are taken up again.
    pub open spec fn has_recovered(&self, before: TrackerDiscoverer, now: Instant) -> bool {
        &&& self.states.seq().len() == before.states.seq().len()
        &&& forall|i: int|
            0 <= i < self.states.seq().len() ==> (#[trigger] self.states.seq()[i]) == (
                before.states.seq()[i].0,
                recovered(
                    before.states.seq()[i].1,
                    since_failure(before.states.seq()[i].1, now),
                    before.config.cooldown_secs,
                ),
            )
    }

    /// Takes trackers up again that were left alone for long enough at a point in time.
    pub fn recover_at(&mut self, now: Instant)
        ensures
            final(self).config == old(self).config,
            final(self).has_recovered(*old(self), now),
    {
        let n: usize = self.states.len();
        let mut since: Vec<u64> = Vec::with_capacity(n);
        let mut i: usize = 0;
        while i < n
            invariant
                i <= n == self.states.seq().len(),
                *self == *old(self),
                since@.len() == i,
                forall|j: int|
                    0 <= j < i ==> #[trigger] since@[j] == since_failure(
                        self.states.seq()[j].1,
                        now,
                    ),
            decreases n - i,
        {
            let nanos: u64 = match &self.states.value_at(i).last_failure_at {
                Some(t) => nanos_between(t, &now),
                None => 0,
            };
            since.push(nanos);
            i += 1;
        }
        self.recover_after(&since);
        assert forall|i: int| 0 <= i < self.states.seq().len() implies (
        #[trigger] self.states.seq()[i]) == (
            old(self).states.seq()[i].0,
            recovered(
                old(self).states.seq()[i].1,
                since_failure(old(self).states.seq()[i].1, now),
                old(self).config.cooldown_secs,
            ),
        ) by {
            assert(since@[i] == since_failure(old(self).states.seq()[i].1, now));
        }
    }

    /// The parameters of a request for peers.
    fn discover_parameters(&self, infohash: &Infohash, limit: usize) -> (r: Vec<(String, String)>)
        ensures
            pair_texts(r@) == discover_pairs(self.config, infohash@, limit),
            short_pairs(pair_texts(r@)),
    {
        let mut port: String = String::new();
        append_decimal(&mut port, self.config.listen_port as u64);
        let mut numwant: String = String::new();
        append_decimal(&mut numwant, limit as u64);
        let r: Vec<(String, String)> = vec![
            ("info_hash".to_string(), hex_encode(infohash)),
            ("peer_id".to_string(), hex_encode(&self.config.peer_id)),
            ("port".to_string(), port),
            ("uploaded".to_string(), "0".to_string()),
            ("downloaded".to_string(), "0".to_string()),
            ("left".to_string(), "0".to_string()),
            ("event".to_string(), "started".to_string()),
            ("compact".to_string(), "1".to_string()),
            ("numwant".to_string(), numwant),
        ];
        proof {
            assert(port@ =~= decimal_text(self.config.listen_port as nat));
            assert(numwant@ =~= decimal_text(limit as nat));
            assert(pair_texts(r@) =~= discover_pairs(self.config, infohash@, limit));
            lemma_discover_pairs_are_short(self.config, *infohash, limit);
        }
        r
    }

    /// The parameters of an announcement.
    fn announce_parameters(&self, infohash: &Infohash, port: u16, event: AnnounceEvent) -> (r: Vec<
        (String, String),
    >)
        ensures
            pair_texts(r@) == announce_pairs(self.config, infohash@, port, event),
            short_pairs(pair_texts(r@)),
    {
        let mut port_text: String = String::new();
        append_decimal(&mut port_text, port as u64);
        let r: Vec<(String, String)> = vec![
            ("info_hash".to_string(), hex_encode(infohash)),
            ("peer_id".to_string(), hex_encode(&self.config.peer_id)),
            ("port".to_string(), port_text),
            ("uploaded".to_string(), "0".to_string()),
            ("downloaded".to_string(), "0".to_string()),
            ("left".to_string(), "0".to_string()),
            ("event".to_string(), event.as_str().to_string()),
            ("compact".to_string(), "1".to_string()),
        ];
        proof {
            assert(port_text@ =~= decimal_text(port as nat));
            assert(pair_texts(r@) =~= announce_pairs(self.config, infohash@, port, event));
            lemma_announce_pairs_are_short(self.config, *infohash, port, event);
        }
        r
    }

    /// The request to one tracker.
    fn request_to(tracker: &String, pairs: &Vec<(String, String)>) -> (r: TrackerRequest)
        requires
            tracker@.len() <= MAX_URL_LEN,
            short_pairs(pair_texts(pairs@)),
        ensures
            is_request(r, tracker@, pair_texts(pairs@)),
    {
        if text_starts_with(tracker.as_str(), "http://") || text_starts_with(
            tracker.as_str(),
            "https://",
        ) {
            TrackerRequest::Http {
                tracker: tracker.clone(),
                url: append_query(tracker.as_str(), pairs),
            }
        } else {
            match UdpTrackerClient::tracker_host(tracker.as_str()) {
                Some(host) => TrackerRequest::Udp { tracker: tracker.clone(), host },
                None => TrackerRequest::Unsupported { tracker: tracker.clone() },
            }
        }
    }

    /// The turns of the requests for peers: as many at once as the settings allow.
    pub fn request_turns(&self, requests: usize) -> (r: Turns)
        ensures
            r == (Turns {
                total: requests,
                started: 0,
                running: 0,
                max_running: self.config.max_concurrent_requests,
            }),
            r.wf(),
    {
        Turns::new(requests, self.config.max_concurrent_requests)
    }

    /// The requests for peers of an infohash: one to each tracker that is not left alone.
    pub fn discover_requests(&self, infohash: &Infohash, limit: usize) -> (r: Vec<TrackerRequest>)
        requires
            self.config.addressable(),
        ensures
            r@.len() == self.active_texts().len(),
            forall|i: int|
                0 <= i < r@.len() ==> is_request(
                    #[trigger] r@[i],
                    self.active_texts()[i],
                    discover_pairs(self.config, infohash@, limit),
                ),
    {
        let trackers: Vec<String> = self.active_trackers();
        let pairs: Vec<(String, String)> = self.discover_parameters(infohash, limit);
        let keep: usize = trackers.len();
        assert(texts(trackers@).len() == trackers@.len());
        let mut out: Vec<TrackerRequest> = Vec::new();
        let mut i: usize = 0;
        while i < keep
            invariant
                i <= keep <= trackers@.len(),
                out@.len() == i,
                texts(trackers@) == self.active_texts(),
                pair_texts(pairs@) == discover_pairs(self.config, infohash@, limit),
                short_pairs(pair_texts(pairs@)),
                forall|j: int|
                    0 <= j < trackers@.len() ==> (#[trigger] trackers@[j])@.len() <= MAX_URL_LEN,
                forall|j: int|
                    0 <= j < i ==> is_request(
                        #[trigger] out@[j],
                        self.active_texts()[j],
                        discover_pairs(self.config, infohash@, limit),
                    ),
            decreases keep - i,
        {
            assert(self.active_texts()[i as int] == trackers@[i as int]@);
            out.push(Self::request_to(&trackers[i], &pairs));
            i += 1;
        }
        out
    }

    /// The peers that trackers answered with, as of time `now`: each once, in ascending order,
    /// `limit` at most.
    pub fn collect_peers_at(addrs: Vec<SocketAddr>, limit: usize, now: u64) -> (r: Vec<PeerInfo>)
        ensures
            views(r@) == fresh_models(
                sorted_set_of(addrs@).take(
                    at_most(limit as int, sorted_set_of(addrs@).len() as int),
                ),
                PeerSource::Tracker,
                now,
            ),
    {
        let all: Vec<SocketAddr> = sorted_set(addrs);
        fresh_peers(all.as_slice(), limit, PeerSource::Tracker, now)
    }

    /// The peers that trackers answered with: each once, in ascending order, `limit` at most.
    pub fn collect_peers(addrs: Vec<SocketAddr>, limit: usize) -> (r: Vec<PeerInfo>)
        ensures
            exists|now: u64|
                views(r@) == #[trigger] fresh_models(
                    sorted_set_of(addrs@).take(
                        at_most(limit as int, sorted_set_of(addrs@).len() as int),
                    ),
                    PeerSource::Tracker,
                    now,
                ),
    {
        Self::collect_peers_at(addrs, limit, unix_nanos())
    }

    /// The addresses to fetch to announce an infohash: those of the first few HTTP trackers that
    /// are not left alone.
    pub fn announce_urls(&self, infohash: &Infohash, port: u16, event: AnnounceEvent) -> (r: Vec<
        String,
    >)
        requires
            self.config.addressable(),
        ensures
            texts(r@) == announce_addresses(
                self.active_texts().take(
                    at_most(5, self.active_texts().len() as int),
                ),
                announce_pairs(self.config, infohash@, port, event),
            ),
    {
        let trackers: Vec<String> = self.active_trackers();
        let pairs: Vec<(String, String)> = self.announce_parameters(infohash, port, event);
        let ghost all = self.active_texts();
        let ghost p = announce_pairs(self.config, infohash@, port, event);
        assert(texts(trackers@).len() == trackers@.len());
        let keep: usize = if ANNOUNCE_TRACKERS < trackers.len() {
            ANNOUNCE_TRACKERS
        } else {
            trackers.len()
        };
        let mut out: Vec<String> = Vec::new();
        let mut i: usize = 0;
        assert(texts(out@) =~= announce_addresses(all.take(0), p));
        while i < keep
            invariant
                i <= keep <= trackers@.len() == all.len(),
                texts(trackers@) == all,
                pair_texts(pairs@) == p,
                short_pairs(p),
                forall|j: int|
                    0 <= j < trackers@.len() ==> (#[trigger] trackers@[j])@.len() <= MAX_URL_LEN,
                texts(out@) == announce_addresses(all.take(i as int), p),
            decreases keep - i,
        {
            let ghost before = texts(out@);
            assert(all[i as int] == trackers@[i as int]@);
            match Self::request_to(&trackers[i], &pairs) {
                TrackerRequest::Http { tracker: _, url: Some(url) } => {
                    out.push(url);
                    assert(texts(out@) =~= before.push(url@));
                },
                _ => {},
            }
            i += 1;
            proof {
                assert(all.take(i as int).drop_last() =~= all.take(i - 1));
                assert(all.take(i as int).last() == all[i - 1]);
            }
        }
        out
    }

    /// Whether there is a tracker that is not left alone.
    pub open spec fn is_healthy(&self) -> bool {
        exists|i: int|
            0 <= i < states_of(self.states).len() && !(#[trigger] states_of(
                self.states,
            )[i]).disabled
    }

    /// Whether there is a tracker that is not left alone.
    pub fn health_check(&self) -> (r: bool)
        ensures
            r == self.is_healthy(),
    {
        let n: usize = self.states.len();
        let ghost all = states_of(self.states);
        let mut i: usize = 0;
        while i < n
            invariant
                i <= n == all.len(),
                all == states_of(self.states),
                forall|j: int| 0 <= j < i ==> (#[trigger] all[j]).disabled,
            decreases n - i,
        {
            assert(all[i as int] == self.states.seq()[i as int].1);
            if !self.states.value_at(i).disabled {
                return true;
            }
            i += 1;
        }
        false
    }

    /// The request counts of all trackers together.
    pub fn stats(&self) -> (r: DiscovererStats)
        requires
            total_counts(states_of(self.states)).0 <= u64::MAX,
            total_counts(states_of(self.states)).1 <= u64::MAX,
            total_counts(states_of(self.states)).2 <= u64::MAX,
            total_counts(states_of(self.states)).3 <= u64::MAX,
        ensures
            (
                r.total_requests as nat,
                r.success_requests as nat,
                r.failed_requests as nat,
                r.total_peers_discovered as nat,
            ) == total_counts(states_of(self.states)),
            r.last_success_at is None,
            r.last_failure_at is None,
    {
        let n: usize = self.states.len();
        let ghost all = states_of(self.states);
        let mut sum: DiscovererStats = DiscovererStats::default();
        let mut i: usize = 0;
        while i < n
            invariant
                i <= n == all.len(),
                all == states_of(self.states),
                total_counts(all).0 <= u64::MAX,
                total_counts(all).1 <= u64::MAX,
                total_counts(all).2 <= u64::MAX,
                total_counts(all).3 <= u64::MAX,
                (
                    sum.total_requests as nat,
                    sum.success_requests as nat,
                    sum.failed_requests as nat,
                    sum.total_peers_discovered as nat,
                ) == total_counts(all.take(i as int)),
                sum.last_success_at is None,
                sum.last_failure_at is None,
            decreases n - i,
        {
            proof {
                lemma_total_counts_prefix(all, i + 1);
                assert(all.take(i + 1).drop_last() =~= all.take(i as int));
                assert(all.take(i + 1).last() == all[i as int]);
            }
            let s: DiscovererStats = self.states.value_at(i).stats;
            sum.total_requests = sum.total_requests + s.total_requests;
            sum.success_requests = sum.success_requests + s.success_requests;
            sum.failed_requests = sum.failed_requests + s.failed_requests;
            sum.total_peers_discovered = sum.total_peers_discovered + s.total_peers_discovered;
            i += 1;
        }
        assert(all.take(i as int) =~= all);
        sum
    }
}

/// A tracker that fails as often in a row as the settings allow is left alone; one success takes it
/// up again.
pub proof fn law_failing_tracker_is_left_alone(
    s: TrackerState,
    max_failures: u32,
    now: Instant,
    at: u64,
)
    requires
        s.consecutive_failures < u32::MAX,
    ensures
        s.consecutive_failures + 1 >= max_failures ==> after_failure(
            s,
            max_failures,
            now,
            at,
        ).disabled,
        s.consecutive_failures + 1 < max_failures && !s.disabled ==> !after_failure(
            s,
            max_failures,
            now,
            at,
        ).disabled,
        !after_success(s, 0, at).disabled,
        after_success(s, 0, at).consecutive_failures == 0,
{
}

/// A tracker that was left alone for the cool-down is taken up again and not before.
pub proof fn law_cooldown(s: TrackerState, since: u64, cooldown_secs: u64)
    requires
        s.disabled,
        s.last_failure_at is Some,
    ensures
        recovered(s, since, cooldown_secs).disabled <==> since < cooldown_secs * NANOS_PER_SEC,
{
}

proof fn lemma_position_skip(s: Seq<u8>, part: Seq<u8>, i: int, p: int)
    requires
        0 <= i <= p,
        bytes_at(s, part, p),
        forall|j: int| i <= j < p ==> !#[trigger] bytes_at(s, part, j),
    ensures
        position_from(s, part, i) == Some(p),
    decreases p - i,
{
    if i < p {
        assert(!bytes_at(s, part, i));
        lemma_position_skip(s, part, i + 1, p);
    }
}

/// The peers of the first compact list in an answer are read back as they were written, but for
/// those that are not IPv4.
pub proof fn law_compact_list_is_read(before: Seq<u8>, peers: Seq<SocketAddr>, after: Seq<u8>)
    requires
        compact_peers(peers).len() <= usize::MAX,
        forall|i: int|
            0 <= i < before.len() ==> !#[trigger] bytes_at(
                before + "5:peers".spec_bytes() + bytes_encoding(compact_peers(peers)) + after,
                "5:peers".spec_bytes(),
                i,
            ),
    ensures
        body_peers(before + "5:peers".spec_bytes() + bytes_encoding(compact_peers(peers)) + after)
            == peers.filter(carried(true)),
{
    let key = "5:peers".spec_bytes();
    reveal_strlit("5:peers");
    assert(is_ascii("5:peers"));
    let data = compact_peers(peers);
    let body = before + key + bytes_encoding(data) + after;
    let p = before.len() as int;
    assert(body.subrange(p, p + 7) =~= key);
    lemma_position_skip(body, key, 0, p);
    let rest = body.skip(p + 7);
    let digits = decimal(data.len());
    assert(rest =~= digits + seq![58u8] + data + after);
    law_decimal_round_trip(data.len());
    let n = digits.len() as int;
    assert forall|j: int| 0 <= j < n implies #[trigger] rest[j] != 58 by {
        assert(rest[j] == digits[j]);
        assert(is_digit(digits[j]));
    }
    lemma_colon_position(rest, n);
    assert(rest.take(n) =~= digits);
    assert(is_digit(digits[0]));
    assert(number_in(digits, usize::MAX as nat) == Some(data.len()));
    assert(rest.subrange(n + 1, n + 1 + data.len()) =~= data);
    law_compact_round_trip(peers, true);
}

/// Whether `value` is the one value under `name`.
pub open spec fn sole_value(pairs: Seq<(Seq<char>, Seq<char>)>, name: Seq<char>, value: Seq<char>) -> bool {
    &&& exists|i: int| 0 <= i < pairs.len() && (#[trigger] pairs[i]).0 == name
    &&& forall|i: int| 0 <= i < pairs.len() && (#[trigger] pairs[i]).0 == name ==> pairs[i].1 == value
}

proof fn lemma_parameter_names()
    ensures
        "info_hash"@.len() == 9 && "info_hash"@[0] == 'i',
        "peer_id"@.len() == 7 && "peer_id"@[0] == 'p',
        "port"@.len() == 4 && "port"@[0] == 'p',
        "uploaded"@.len() == 8 && "uploaded"@[0] == 'u',
        "downloaded"@.len() == 10 && "downloaded"@[0] == 'd',
        "left"@.len() == 4 && "left"@[0] == 'l',
        "event"@.len() == 5 && "event"@[0] == 'e',
        "compact"@.len() == 7 && "compact"@[0] == 'c',
        "numwant"@.len() == 7 && "numwant"@[0] == 'n',
{
    reveal_strlit("info_hash");
    reveal_strlit("peer_id");
    reveal_strlit("port");
    reveal_strlit("uploaded");
    reveal_strlit("downloaded");
    reveal_strlit("left");
    reveal_strlit("event");
    reveal_strlit("compact");
    reveal_strlit("numwant");
}

/// A request for peers asks for the infohash that is searched, in the name of the configured peer: what
/// stands under `info_hash` is the hexadecimal text of the one, what stands under `peer_id` that of the
/// other. It names the port that the node listens on and the number of peers that are wanted, and says
/// that a transfer starts of which nothing was transferred yet.
pub proof fn law_request_asks_for_the_infohash(config: TrackerConfig, infohash: Seq<u8>, limit: usize)
    ensures
        ({
            let pairs = discover_pairs(config, infohash, limit);
            &&& exists|i: int| 0 <= i < pairs.len() && (#[trigger] pairs[i]).0 == "info_hash"@
            &&& exists|i: int| 0 <= i < pairs.len() && (#[trigger] pairs[i]).0 == "peer_id"@
            &&& forall|i: int|
                0 <= i < pairs.len() && (#[trigger] pairs[i]).0 == "info_hash"@ ==> is_hex(
                    pairs[i].1,
                ) && hex_bytes(pairs[i].1) == infohash
            &&& forall|i: int|
                0 <= i < pairs.len() && (#[trigger] pairs[i]).0 == "peer_id"@ ==> is_hex(
                    pairs[i].1,
                ) && hex_bytes(pairs[i].1) == config.peer_id@
            &&& sole_value(pairs, "port"@, decimal_text(config.listen_port as nat))
            &&& sole_value(pairs, "numwant"@, decimal_text(limit as nat))
            &&& sole_value(pairs, "event"@, "started"@)
            &&& sole_value(pairs, "compact"@, "1"@)
            &&& sole_value(pairs, "uploaded"@, "0"@)
            &&& sole_value(pairs, "downloaded"@, "0"@)
            &&& sole_value(pairs, "left"@, "0"@)
        }),
{
    let pairs = discover_pairs(config, infohash, limit);
    lemma_parameter_names();
    law_hex_round_trip(infohash);
    law_hex_round_trip(config.peer_id@);
    assert(pairs[0].0 == "info_hash"@);
    assert(pairs[1].0 == "peer_id"@);
    assert(pairs[2].0 == "port"@);
    assert(pairs[3].0 == "uploaded"@);
    assert(pairs[4].0 == "downloaded"@);
    assert(pairs[5].0 == "left"@);
    assert(pairs[6].0 == "event"@);
    assert(pairs[7].0 == "compact"@);
    assert(pairs[8].0 == "numwant"@);
}

/// Requests for two infohashes differ in what stands under `info_hash` and agree in all else.
pub proof fn law_requests_differ_in_the_infohash(
    config: TrackerConfig,
    a: Seq<u8>,
    b: Seq<u8>,
    limit: usize,
)
    ensures
        ({
            let x = discover_pairs(config, a, limit);
            let y = discover_pairs(config, b, limit);
            &&& x.len() == y.len()
            &&& forall|i: int|
                0 <= i < x.len() ==> (#[trigger] x[i]).0 == y[i].0 && (x[i].0 != "info_hash"@ ==> x[i]
                    == y[i])
            &&& forall|i: int|
                0 <= i < x.len() && (#[trigger] x[i]).0 == "info_hash"@ && x[i].1 == y[i].1 ==> a == b
        }),
{
    let x = discover_pairs(config, a, limit);
    let y = discover_pairs(config, b, limit);
    lemma_parameter_names();
    law_hex_round_trip(a);
    law_hex_round_trip(b);
    assert(x[0].0 == "info_hash"@);
}

/// An announcement names the infohash that is announced and the configured peer, the port that it is
/// announced under, and the event by its name.
pub proof fn law_announcement_names_the_infohash(
    config: TrackerConfig,
    infohash: Seq<u8>,
    port: u16,
    event: AnnounceEvent,
)
    ensures
        ({
            let pairs = announce_pairs(config, infohash, port, event);
            &&& exists|i: int| 0 <= i < pairs.len() && (#[trigger] pairs[i]).0 == "info_hash"@
            &&& exists|i: int| 0 <= i < pairs.len() && (#[trigger] pairs[i]).0 == "peer_id"@
            &&& forall|i: int|
                0 <= i < pairs.len() && (#[trigger] pairs[i]).0 == "info_hash"@ ==> is_hex(
                    pairs[i].1,
                ) && hex_bytes(pairs[i].1) == infohash
            &&& forall|i: int|
                0 <= i < pairs.len() && (#[trigger] pairs[i]).0 == "peer_id"@ ==> is_hex(
                    pairs[i].1,
                ) && hex_bytes(pairs[i].1) == config.peer_id@
            &&& sole_value(pairs, "port"@, decimal_text(port as nat))
            &&& sole_value(pairs, "compact"@, "1"@)
            &&& sole_value(pairs, "uploaded"@, "0"@)
            &&& sole_value(pairs, "downloaded"@, "0"@)
            &&& sole_value(pairs, "left"@, "0"@)
            &&& event == AnnounceEvent::Started ==> sole_value(pairs, "event"@, "started"@)
            &&& event == AnnounceEvent::Stopped ==> sole_value(pairs, "event"@, "stopped"@)
            &&& event == AnnounceEvent::Completed ==> sole_value(pairs, "event"@, "completed"@)
            &&& event == AnnounceEvent::Regular ==> sole_value(pairs, "event"@, "none"@)
        }),
{
    let pairs = announce_pairs(config, infohash, port, event);
    lemma_parameter_names();
    law_hex_round_trip(infohash);
    law_hex_round_trip(config.peer_id@);
    assert(pairs[0].0 == "info_hash"@);
    assert(pairs[1].0 == "peer_id"@);
    assert(pairs[2].0 == "port"@);
    assert(pairs[3].0 == "uploaded"@);
    assert(pairs[4].0 == "downloaded"@);
    assert(pairs[5].0 == "left"@);
    assert(pairs[6].0 == "event"@);
    assert(pairs[7].0 == "compact"@);
}

/// The protocol at the start of a tracker's address decides how it is asked: HTTP and HTTPS trackers by
/// fetching an address, UDP trackers by a packet, others not at all. Every request tells its tracker.
pub proof fn law_protocol_decides_the_request(
    r: TrackerRequest,
    url: Seq<char>,
    pairs: Seq<(Seq<char>, Seq<char>)>,
)
    requires
        is_request(r, url, pairs),
    ensures
        url.len() >= 7 && url.take(7) == "http://"@ || url.len() >= 8 && url.take(8) == "https://"@
            <==> r is Http,
        url.len() >= 6 && url.take(6) == "udp://"@ <==> r is Udp,
        r matches TrackerRequest::Http { tracker, url: full } ==> tracker@ == url && (match full {
            Some(u) => url_with_pairs(url, pairs) == Some(u@),
            None => url_with_pairs(url, pairs) is None,
        }),
        r matches TrackerRequest::Udp { tracker, host } ==> tracker@ == url,
        r matches TrackerRequest::Unsupported { tracker } ==> tracker@ == url,
{
    reveal_strlit("http://");
    reveal_strlit("https://");
    reveal_strlit("udp://");
    assert(url.len() >= 7 ==> url.take(7) =~= url.subrange(0, 7));
    assert(url.len() >= 8 ==> url.take(8) =~= url.subrange(0, 8));
    assert(url.len() >= 6 ==> url.take(6) =~= url.subrange(0, 6));
    if url.len() >= 6 && url.take(6) == "udp://"@ {
        assert(url.take(6)[0] == 'u');
        assert(url[0] == 'u');
        if url.len() >= 7 && url.take(7) == "http://"@ {
            assert(url.take(7)[0] == 'h');
        }
        if url.len() >= 8 && url.take(8) == "https://"@ {
            assert(url.take(8)[0] == 'h');
        }
    }
}

/// The trackers that are asked are those of the settings that are not left alone.
pub proof fn law_active_trackers(d: TrackerDiscoverer, url: Seq<char>)
    ensures
        d.active_texts().contains(url) <==> (exists|i: int|
            0 <= i < d.config.trackers@.len() && (#[trigger] d.config.trackers@[i])@ == url) && (
        d.states@.contains_key(url) ==> !d.states@[url].disabled),
        (forall|t: Seq<char>| #[trigger] d.states@.contains_key(t) ==> !d.states@[t].disabled)
            ==> d.active_texts() == texts(d.config.trackers@),
{
    let all = texts(d.config.trackers@);
    let p = active(d.states@);
    if d.active_texts().contains(url) {
        all.lemma_filter_contains_rev(p, url);
        let k = choose|k: int| 0 <= k < all.filter(p).len() && all.filter(p)[k] == url;
        all.lemma_filter_pred(p, k);
        let i = choose|i: int| 0 <= i < all.len() && all[i] == url;
        assert(d.config.trackers@[i]@ == url);
    }
    if (exists|i: int| 0 <= i < d.config.trackers@.len() && (#[trigger] d.config.trackers@[i])@ == url)
        && (d.states@.contains_key(url) ==> !d.states@[url].disabled) {
        let i = choose|i: int|
            0 <= i < d.config.trackers@.len() && (#[trigger] d.config.trackers@[i])@ == url;
        assert(all[i] == url);
        all.lemma_filter_contains(p, i);
    }
    if forall|t: Seq<char>| #[trigger] d.states@.contains_key(t) ==> !d.states@[t].disabled {
        lemma_filter_all(all, p);
    }
}

/// An announcement goes to every HTTP tracker among the given ones whose address is well-formed, and
/// nowhere else, once for each.
pub proof fn law_announcement_goes_to_http_trackers(
    trackers: Seq<Seq<char>>,
    pairs: Seq<(Seq<char>, Seq<char>)>,
)
    ensures
        ({
            let out = announce_addresses(trackers, pairs);
            &&& out.len() <= trackers.len()
            &&& forall|i: int|
                0 <= i < trackers.len() && is_http(#[trigger] trackers[i]) && url_with_pairs(
                    trackers[i],
                    pairs,
                ) is Some ==> out.contains(url_with_pairs(trackers[i], pairs)->0)
            &&& forall|k: int|
                0 <= k < out.len() ==> exists|i: int|
                    0 <= i < trackers.len() && is_http(#[trigger] trackers[i]) && url_with_pairs(
                        trackers[i],
                        pairs,
                    ) == Some(#[trigger] out[k])
            &&& (forall|i: int|
                0 <= i < trackers.len() ==> is_http(#[trigger] trackers[i]) && url_with_pairs(
                    trackers[i],
                    pairs,
                ) is Some) ==> out.len() == trackers.len()
        }),
    decreases trackers.len(),
{
    let out = announce_addresses(trackers, pairs);
    if trackers.len() > 0 {
        let rest = trackers.drop_last();
        let before = announce_addresses(rest, pairs);
        let last = trackers.len() - 1;
        law_announcement_goes_to_http_trackers(rest, pairs);
        assert forall|i: int|
            0 <= i < trackers.len() && is_http(#[trigger] trackers[i]) && url_with_pairs(
                trackers[i],
                pairs,
            ) is Some implies out.contains(url_with_pairs(trackers[i], pairs)->0) by {
            let u = url_with_pairs(trackers[i], pairs)->0;
            if i < last {
                assert(rest[i] == trackers[i]);
                let k = choose|k: int| 0 <= k < before.len() && before[k] == u;
                assert(out[k] == u);
            } else {
                assert(out[out.len() - 1] == u);
            }
        }
        assert forall|k: int| 0 <= k < out.len() implies exists|i: int|
            0 <= i < trackers.len() && is_http(#[trigger] trackers[i]) && url_with_pairs(
                trackers[i],
                pairs,
            ) == Some(#[trigger] out[k]) by {
            if k < before.len() {
                assert(out[k] == before[k]);
                let i = choose|i: int|
                    0 <= i < rest.len() && is_http(#[trigger] rest[i]) && url_with_pairs(rest[i], pairs)
                        == Some(before[k]);
                assert(trackers[i] == rest[i]);
            } else {
                assert(trackers[last] == trackers.last());
            }
        }
        if forall|i: int|
            0 <= i < trackers.len() ==> is_http(#[trigger] trackers[i]) && url_with_pairs(
                trackers[i],
                pairs,
            ) is Some {
            assert forall|i: int| 0 <= i < rest.len() implies is_http(#[trigger] rest[i])
                && url_with_pairs(rest[i], pairs) is Some by {
                assert(trackers[i] == rest[i]);
            }
            assert(is_http(trackers[last]));
        }
    }
}

/// A request is counted where it belongs: one that succeeded with its peers as a success, one that
/// failed as a failure in a row, and either as one request.
pub proof fn law_requests_are_counted(
    s: TrackerState,
    peers_count: nat,
    max_failures: u32,
    now: Instant,
    at: u64,
)
    requires
        s.has_room(peers_count),
    ensures
        ({
            let ok = after_success(s, peers_count, at);
            let bad = after_failure(s, max_failures, now, at);
            &&& ok.stats.total_requests == s.stats.total_requests + 1
            &&& ok.stats.success_requests == s.stats.success_requests + 1
            &&& ok.stats.failed_requests == s.stats.failed_requests
            &&& ok.stats.total_peers_discovered == s.stats.total_peers_discovered + peers_count
            &&& ok.stats.last_success_at == Some(at)
            &&& ok.stats.last_failure_at == s.stats.last_failure_at
            &&& ok.consecutive_failures == 0 && !ok.disabled
            &&& ok.last_failure_at == s.last_failure_at
            &&& bad.stats.total_requests == s.stats.total_requests + 1
            &&& bad.stats.success_requests == s.stats.success_requests
            &&& bad.stats.failed_requests == s.stats.failed_requests + 1
            &&& bad.stats.total_peers_discovered == s.stats.total_peers_discovered
            &&& bad.stats.last_success_at == s.stats.last_success_at
            &&& bad.stats.last_failure_at == Some(at)
            &&& bad.consecutive_failures == s.consecutive_failures + 1
            &&& bad.last_failure_at == Some(now)
            &&& bad.disabled <==> s.disabled || s.consecutive_failures + 1 >= max_failures
        }),
{
}

/// Taking a tracker up again forgets its failures in a row and nothing else, and no other tracker is
/// touched by it.
pub proof fn law_recovery_forgets_failures(s: TrackerState, since: u64, cooldown_secs: u64)
    ensures
        ({
            let r = recovered(s, since, cooldown_secs);
            &&& r.stats == s.stats && r.last_failure_at == s.last_failure_at
            &&& !s.disabled || s.last_failure_at is None || since < cooldown_secs * 1_000_000_000
                ==> r == s
            &&& s.disabled && s.last_failure_at is Some && since >= cooldown_secs * 1_000_000_000
                ==> !r.disabled && r.consecutive_failures == 0
        }),
{
}

/// The counts of all trackers together are the sums over the trackers.
pub proof fn law_counts_are_summed(states: Seq<TrackerState>, s: TrackerState)
    ensures
        total_counts(Seq::<TrackerState>::empty()) == (0nat, 0nat, 0nat, 0nat),
        ({
            let before = total_counts(states);
            let after = total_counts(states.push(s));
            &&& after.0 == before.0 + s.stats.total_requests
            &&& after.1 == before.1 + s.stats.success_requests
            &&& after.2 == before.2 + s.stats.failed_requests
            &&& after.3 == before.3 + s.stats.total_peers_discovered
        }),
{
    assert(states.push(s).drop_last() =~= states);
}

/// A tracker that was left alone is taken up again when the cool-down has passed since its last failure,
/// and not before; the others stay as they are, all under their names.
pub proof fn law_trackers_are_taken_up_again(
    before: TrackerDiscoverer,
    after: TrackerDiscoverer,
    now: Instant,
    i: int,
)
    requires
        after.has_recovered(before, now),
        0 <= i < before.states.seq().len(),
    ensures
        ({
            let old_state = before.states.seq()[i].1;
            let state = after.states.seq()[i].1;
            let over = old_state.last_failure_at is Some && nanos_since(
                old_state.last_failure_at->0,
                now,
            ) >= 1_000_000_000 * before.config.cooldown_secs;
            &&& after.states.seq().len() == before.states.seq().len()
            &&& after.states.seq()[i].0 == before.states.seq()[i].0
            &&& state.stats == old_state.stats
            &&& old_state.disabled && over ==> !state.disabled && state.consecutive_failures == 0
            &&& !(old_state.disabled && over) ==> state == old_state
        }),
{
    assert(after.states.seq()[i] == after.states.seq()[i]);
}

/// A tracker of the settings that was never asked is not left alone and has nothing counted.
pub proof fn law_untried_trackers_are_active(d: TrackerDiscoverer, i: int)
    requires
        d.untried(),
        0 <= i < d.config.trackers@.len(),
    ensures
        ({
            let url = d.config.trackers@[i]@;
            &&& d.states@.contains_key(url)
            &&& !d.states@[url].disabled
            &&& d.states@[url].consecutive_failures == 0
            &&& d.states@[url].stats.total_requests == 0
            &&& d.active_texts().contains(url)
        }),
{
    let url = d.config.trackers@[i]@;
    assert(texts(d.config.trackers@)[i] == url);
    assert(d.states@.contains_key(url));
    law_active_trackers(d, url);
}

impl PeerDiscoverer for TrackerDiscoverer {
    open spec fn label(&self) -> Seq<char> {
        "tracker"@
    }

    open spec fn kind(&self) -> DiscovererType {
        DiscovererType::Tracker
    }

    open spec fn enabled(&self) -> bool {
        self.config.trackers@.len() > 0
    }

    fn name(&self) -> (r: &str) {
        "tracker"
    }

    fn discoverer_type(&self) -> (r: DiscovererType) {
        DiscovererType::Tracker
    }

    fn is_enabled(&self) -> (r: bool) {
        self.config.trackers.len() > 0
    }
}

} // verus!
