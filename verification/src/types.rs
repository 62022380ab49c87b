//! Common data types: peers, and the messages of HTTP trackers (BEP 3 and BEP 48).

use crate::bencode::{
    bytes_encoding, bytes_entry, encoding, entries_encoding, entries_meaning, entry, int_encoding, int_entry,
    lemma_empty_encodings, lemma_entries_push, put_byte_string, put_int, tree_meaning, Meaning, Tree,
};
use crate::bytes::{be_value, bytes_less, decimal, put_bytes, put_text, same_text};
use crate::clock::{unix_nanos, NANOS_PER_SEC};
use crate::compact::{compact_peers, put_compact_peers};
use crate::net::{IpAddr, SocketAddr};
use crate::percent::{percent_of, saturated, success_percent};
use crate::seqs::at_most;
use crate::sort::{
    lemma_sorted_views, lemma_stable_sort_exists, stable_sort, stable_sorted, views, HasRank, Ranked,
};
use crate::vecmap::{lemma_map_of, map_of, MapKey, VecMap};
use vstd::prelude::*;
use vstd::string::*;

verus! {

/// An infohash.
pub type Infohash = [u8; 20];

/// Where a peer was learned of.
#[derive(Debug, Clone, Copy, PartialEq, Eq, Hash, Structural)]
pub enum PeerSource {
    Tracker,
    Dht,
    Pex,
    /// Local peer discovery by multicast.
    Lpd,
    /// HTTP sources (BEP 19 and BEP 17).
    WebSeed,
    /// Announcements to the tracker that this node offers.
    SuperTracker,
    /// Added by hand.
    Manual,
}

impl PeerSource {
    /// The score of a peer from this source before anything else is known.
    pub open spec fn score(self) -> u32 {
        match self {
            PeerSource::Tracker => 100,
            PeerSource::SuperTracker => 95,
            PeerSource::Dht => 80,
            PeerSource::Pex => 60,
            PeerSource::Lpd => 90,
            PeerSource::WebSeed => 85,
            PeerSource::Manual => 50,
        }
    }

    /// The name of the source.
    pub open spec fn label(self) -> Seq<char> {
        match self {
            PeerSource::Tracker => "tracker"@,
            PeerSource::Dht => "dht"@,
            PeerSource::Pex => "pex"@,
            PeerSource::Lpd => "lpd"@,
            PeerSource::WebSeed => "webseed"@,
            PeerSource::SuperTracker => "super_tracker"@,
            PeerSource::Manual => "manual"@,
        }
    }

    /// The score of a peer from this source before anything else is known.
    pub fn base_score(&self) -> (r: u32)
        ensures
            r == self.score(),
    {
        match self {
            PeerSource::Tracker => 100,
            PeerSource::SuperTracker => 95,
            PeerSource::Dht => 80,
            PeerSource::Pex => 60,
            PeerSource::Lpd => 90,
            PeerSource::WebSeed => 85,
            PeerSource::Manual => 50,
        }
    }

    /// The name of the source.
    pub fn as_str(&self) -> (r: &'static str)
        ensures
            r@ == self.label(),
    {
        match self {
            PeerSource::Tracker => "tracker",
            PeerSource::Dht => "dht",
            PeerSource::Pex => "pex",
            PeerSource::Lpd => "lpd",
            PeerSource::WebSeed => "webseed",
            PeerSource::SuperTracker => "super_tracker",
            PeerSource::Manual => "manual",
        }
    }
}

/// A peer and what is known of it. Times are nanoseconds since the Unix epoch.
pub struct PeerInfo {
    pub addr: SocketAddr,
    pub peer_id: Option<[u8; 20]>,
    pub source: PeerSource,
    /// When the peer was first seen.
    pub first_seen: u64,
    /// When the peer was last active.
    pub last_active: u64,
    /// Peers with a higher score are tried first.
    pub priority_score: u32,
    pub connection_attempts: u32,
    pub connection_successes: u32,
    /// How many attempts failed since the last one that succeeded.
    pub consecutive_failures: u32,
    pub is_ipv6: bool,
    /// Anything else, by name.
    pub metadata: VecMap<String, String>,
}

/// What there is to say of a peer.
#[verifier::ext_equal]
pub struct PeerModel {
    pub addr: SocketAddr,
    pub peer_id: Option<[u8; 20]>,
    pub source: PeerSource,
    pub first_seen: u64,
    pub last_active: u64,
    pub priority_score: u32,
    pub connection_attempts: u32,
    pub connection_successes: u32,
    pub consecutive_failures: u32,
    pub is_ipv6: bool,
    pub metadata: Map<Seq<char>, String>,
}

impl View for PeerInfo {
    type V = PeerModel;

    open spec fn view(&self) -> PeerModel {
        PeerModel {
            addr: self.addr,
            peer_id: self.peer_id,
            source: self.source,
            first_seen: self.first_seen,
            last_active: self.last_active,
            priority_score: self.priority_score,
            connection_attempts: self.connection_attempts,
            connection_successes: self.connection_successes,
            consecutive_failures: self.consecutive_failures,
            is_ipv6: self.is_ipv6,
            metadata: self.metadata@,
        }
    }
}

/// Nanoseconds from `then` to `now`, `None` if `then` is later.
pub open spec fn elapsed(then: u64, now: u64) -> Option<int> {
    if now >= then {
        Some(now - then)
    } else {
        None
    }
}

/// Seconds of inactivity after which a peer has expired.
pub const PEER_EXPIRY_SECS: u64 = 86400;

/// The points for being IPv4.
pub open spec fn family_points(is_ipv6: bool) -> int {
    if is_ipv6 {
        0
    } else {
        50
    }
}

/// The points for a port that BitTorrent clients commonly use.
pub open spec fn port_points(port: u16) -> int {
    if 6881 <= port <= 6889 {
        30
    } else if port == 51413 {
        20
    } else {
        0
    }
}

/// The points for connections that succeeded: their percentage.
pub open spec fn success_points(successes: u32, attempts: u32) -> int {
    if attempts > 0 {
        percent_of(successes as nat, attempts as nat) as int
    } else {
        0
    }
}

/// The points for recent activity.
pub open spec fn activity_points(last_active: u64, now: u64) -> int {
    match elapsed(last_active, now) {
        Some(e) => if e < 300 * NANOS_PER_SEC {
            40
        } else if e < 1800 * NANOS_PER_SEC {
            20
        } else {
            0
        },
        None => 0,
    }
}

impl PeerModel {
    /// A peer that was learned of at time `now`.
    pub open spec fn fresh(addr: SocketAddr, source: PeerSource, now: u64) -> PeerModel {
        PeerModel {
            addr,
            peer_id: None,
            source,
            first_seen: now,
            last_active: now,
            priority_score: source.score(),
            connection_attempts: 0,
            connection_successes: 0,
            consecutive_failures: 0,
            is_ipv6: addr.ip is V6,
            metadata: Map::empty(),
        }
    }

    /// The score of the peer at time `now`.
    pub open spec fn priority_at(self, now: u64) -> int {
        self.source.score() + family_points(self.is_ipv6) + port_points(self.addr.port)
            + success_points(self.connection_successes, self.connection_attempts) + activity_points(
            self.last_active,
            now,
        )
    }

    /// The peer with its score at time `now`, the largest 32-bit number in place of a larger score.
    pub open spec fn prioritized(self, now: u64) -> PeerModel {
        PeerModel { priority_score: saturated(self.priority_at(now) as nat) as u32, ..self }
    }

    /// Whether the peer has not been active for more than `ttl_secs` seconds at time `now`.
    pub open spec fn expired_within(self, ttl_secs: u64, now: u64) -> bool {
        match elapsed(self.last_active, now) {
            Some(e) => e > ttl_secs * NANOS_PER_SEC,
            None => false,
        }
    }

    /// Whether the peer has not been active for more than [`PEER_EXPIRY_SECS`].
    pub open spec fn expired(self, now: u64) -> bool {
        self.expired_within(PEER_EXPIRY_SECS, now)
    }
}

/// Copies the entries of a map of texts.
fn copy_metadata(m: &VecMap<String, String>) -> (r: VecMap<String, String>)
    ensures
        r@ == m@,
{
    let mut out: VecMap<String, String> = VecMap::new();
    let n: usize = m.len();
    let ghost entries = m.seq();
    let mut i: usize = 0;
    proof {
        assert(map_of(entries.take(0)) =~= Map::<Seq<char>, String>::empty());
    }
    while i < n
        invariant
            i <= n == entries.len(),
            entries == m.seq(),
            out@ == map_of(entries.take(i as int)),
        decreases n - i,
    {
        proof {
            assert(entries.take(i + 1).drop_last() =~= entries.take(i as int));
            assert(entries.take(i + 1).last() == entries[i as int]);
        }
        out.insert(m.key_at(i).clone(), m.value_at(i).clone());
        i += 1;
    }
    assert(entries.take(i as int) =~= entries);
    out
}

impl PeerInfo {
    /// A peer that was learned of at time `now`.
    pub fn new_at(addr: SocketAddr, source: PeerSource, now: u64) -> (r: PeerInfo)
        ensures
            r@ == PeerModel::fresh(addr, source, now),
    {
        PeerInfo {
            addr,
            peer_id: None,
            source,
            first_seen: now,
            last_active: now,
            priority_score: source.base_score(),
            connection_attempts: 0,
            connection_successes: 0,
            consecutive_failures: 0,
            is_ipv6: addr.ip.is_ipv6(),
            metadata: VecMap::new(),
        }
    }

    /// A peer that was learned of just now.
    pub fn new(addr: SocketAddr, source: PeerSource) -> (r: PeerInfo)
        ensures
            r@ == PeerModel::fresh(addr, source, r.first_seen),
    {
        Self::new_at(addr, source, unix_nanos())
    }

    /// An equal peer.
    pub fn duplicate(&self) -> (r: PeerInfo)
        ensures
            r@ == self@,
    {
        PeerInfo {
            addr: self.addr,
            peer_id: self.peer_id,
            source: self.source,
            first_seen: self.first_seen,
            last_active: self.last_active,
            priority_score: self.priority_score,
            connection_attempts: self.connection_attempts,
            connection_successes: self.connection_successes,
            consecutive_failures: self.consecutive_failures,
            is_ipv6: self.is_ipv6,
            metadata: copy_metadata(&self.metadata),
        }
    }

    /// Scores the peer at time `now`: by its source, and with points for IPv4, for a common port,
    /// for connections that succeeded and for recent activity.
    pub fn calculate_priority_at(&mut self, now: u64)
        ensures
            final(self)@ == old(self)@.prioritized(now),
    {
        let mut score: u32 = self.source.base_score();
        if !self.is_ipv6 {
            score = score + 50;
        }
        let port: u16 = self.addr.port;
        if 6881 <= port && port <= 6889 {
            score = score + 30;
        } else if port == 51413 {
            score = score + 20;
        }
        if self.connection_attempts > 0 {
            score = score.saturating_add(
                success_percent(self.connection_successes, self.connection_attempts),
            );
        }
        if now >= self.last_active {
            let idle: u64 = now - self.last_active;
            if idle < 300 * NANOS_PER_SEC {
                score = score.saturating_add(40);
            } else if idle < 1800 * NANOS_PER_SEC {
                score = score.saturating_add(20);
            }
        }
        self.priority_score = score;
    }

    /// Scores the peer now.
    pub fn calculate_priority(&mut self)
        ensures
            exists|now: u64| final(self)@ == #[trigger] old(self)@.prioritized(now),
    {
        let now: u64 = unix_nanos();
        let ghost before = self@;
        self.calculate_priority_at(now);
        assert(self@ == before.prioritized(now));
    }

    /// Whether the peer has not been active for more than `ttl_secs` seconds at time `now`.
    pub fn is_expired_within(&self, ttl_secs: u64, now: u64) -> (r: bool)
        ensures
            r == self@.expired_within(ttl_secs, now),
    {
        now >= self.last_active && (now - self.last_active) as u128 > ttl_secs as u128
            * NANOS_PER_SEC as u128
    }

    /// Whether the peer has not been active for more than [`PEER_EXPIRY_SECS`] at time `now`.
    pub fn is_expired_at(&self, now: u64) -> (r: bool)
        ensures
            r == self@.expired(now),
    {
        self.is_expired_within(PEER_EXPIRY_SECS, now)
    }

    /// Whether the peer has not been active for more than [`PEER_EXPIRY_SECS`].
    pub fn is_expired(&self) -> (r: bool)
        ensures
            exists|now: u64| r == #[trigger] self@.expired(now),
    {
        let now: u64 = unix_nanos();
        self.is_expired_at(now)
    }
}

/// A peer without more successes than attempts has its points for a score, at most 320.
pub proof fn law_score_is_bounded(p: PeerModel, now: u64)
    requires
        p.connection_successes <= p.connection_attempts,
    ensures
        p.prioritized(now).priority_score == p.priority_at(now),
        p.priority_at(now) <= 320,
{
    if p.connection_attempts > 0 {
        crate::percent::lemma_percent_bound(p.connection_successes, p.connection_attempts);
    }
}

impl HasRank for PeerModel {
    open spec fn rank(&self) -> int {
        -(self.priority_score as int)
    }
}

impl HasRank for PeerInfo {
    open spec fn rank(&self) -> int {
        -(self.priority_score as int)
    }
}

impl Ranked for PeerInfo {
    fn rank_le(&self, other: &Self) -> (r: bool) {
        self.priority_score >= other.priority_score
    }
}

/// A number by which socket addresses are ordered: IPv4 before IPv6, then by address, then by port.
pub open spec fn addr_rank(a: SocketAddr) -> int {
    match a.ip {
        IpAddr::V4(ip) => be_value(ip@) * 65536 + a.port,
        IpAddr::V6(ip) => 0x1_0000_0000_0000 + be_value(ip@) * 65536 + a.port,
    }
}

/// Whether `a` is not after `b`.
pub fn addr_le(a: &SocketAddr, b: &SocketAddr) -> (r: bool)
    ensures
        r == (addr_rank(*a) <= addr_rank(*b)),
{
    match (&a.ip, &b.ip) {
        (IpAddr::V4(x), IpAddr::V4(y)) => {
            if bytes_less(x.as_slice(), y.as_slice()) {
                true
            } else if bytes_less(y.as_slice(), x.as_slice()) {
                false
            } else {
                a.port <= b.port
            }
        },
        (IpAddr::V6(x), IpAddr::V6(y)) => {
            if bytes_less(x.as_slice(), y.as_slice()) {
                true
            } else if bytes_less(y.as_slice(), x.as_slice()) {
                false
            } else {
                a.port <= b.port
            }
        },
        (IpAddr::V4(x), IpAddr::V6(_)) => {
            proof {
                crate::bytes::lemma_be_value_bound(x@);
                crate::bytes::lemma_byte_capacity_values();
            }
            true
        },
        (IpAddr::V6(_), IpAddr::V4(y)) => {
            proof {
                crate::bytes::lemma_be_value_bound(y@);
                crate::bytes::lemma_byte_capacity_values();
            }
            false
        },
    }
}

/// Addresses of one rank are equal.
pub proof fn lemma_addr_rank_injective(a: SocketAddr, b: SocketAddr)
    requires
        addr_rank(a) == addr_rank(b),
    ensures
        a == b,
{
    crate::bytes::lemma_byte_capacity_values();
    match (a.ip, b.ip) {
        (IpAddr::V4(x), IpAddr::V4(y)) => {
            assert(be_value(x@) == be_value(y@));
            crate::bytes::lemma_be_value_injective(x@, y@);
            assert(x =~= y);
        },
        (IpAddr::V6(x), IpAddr::V6(y)) => {
            assert(be_value(x@) == be_value(y@));
            crate::bytes::lemma_be_value_injective(x@, y@);
            assert(x =~= y);
        },
        (IpAddr::V4(x), IpAddr::V6(_)) => {
            crate::bytes::lemma_be_value_bound(x@);
        },
        (IpAddr::V6(_), IpAddr::V4(y)) => {
            crate::bytes::lemma_be_value_bound(y@);
        },
    }
}

/// What an announcement reports.
#[derive(Debug, Clone, Copy, PartialEq, Eq, Structural)]
pub enum AnnounceEvent {
    Started,
    Stopped,
    Completed,
    /// A regular update.
    Regular,
}

impl AnnounceEvent {
    /// The name of the event.
    pub open spec fn label(self) -> Seq<char> {
        match self {
            AnnounceEvent::Started => "started"@,
            AnnounceEvent::Stopped => "stopped"@,
            AnnounceEvent::Completed => "completed"@,
            AnnounceEvent::Regular => "none"@,
        }
    }

    /// The event with a given name; any other name stands for a regular update.
    pub open spec fn named(name: Seq<char>) -> AnnounceEvent {
        if name == "started"@ {
            AnnounceEvent::Started
        } else if name == "stopped"@ {
            AnnounceEvent::Stopped
        } else if name == "completed"@ {
            AnnounceEvent::Completed
        } else {
            AnnounceEvent::Regular
        }
    }

    /// The name of the event.
    pub fn as_str(&self) -> (r: &'static str)
        ensures
            r@ == self.label(),
    {
        match self {
            AnnounceEvent::Started => "started",
            AnnounceEvent::Stopped => "stopped",
            AnnounceEvent::Completed => "completed",
            AnnounceEvent::Regular => "none",
        }
    }

    /// The event with a given name; any other name stands for a regular update.
    pub fn from_name(name: &str) -> (r: AnnounceEvent)
        ensures
            r == AnnounceEvent::named(name@),
    {
        if same_text(name, "started") {
            AnnounceEvent::Started
        } else if same_text(name, "stopped") {
            AnnounceEvent::Stopped
        } else if same_text(name, "completed") {
            AnnounceEvent::Completed
        } else {
            AnnounceEvent::Regular
        }
    }
}

impl std::str::FromStr for AnnounceEvent {
    type Err = ();

    fn from_str(s: &str) -> Result<Self, Self::Err> {
        Ok(AnnounceEvent::from_name(s))
    }
}

/// An event is read back from its name.
pub proof fn law_event_name_round_trip(event: AnnounceEvent)
    ensures
        AnnounceEvent::named(event.label()) == event,
{
    reveal_strlit("started");
    reveal_strlit("stopped");
    reveal_strlit("completed");
    reveal_strlit("none");
    assert("started"@.len() == 7);
    assert("stopped"@.len() == 7);
    assert("completed"@.len() == 9);
    assert("none"@.len() == 4);
    assert("started"@[2] == 'a');
    assert("stopped"@[2] == 'o');
}

/// The peers as models.
pub open spec fn peer_models(m: Map<SocketAddr, PeerInfo>) -> Map<SocketAddr, PeerModel> {
    m.map_values(|p: PeerInfo| p@)
}

/// The peers that were active in the `ttl_secs` seconds before time `now`.
pub open spec fn unexpired(m: Map<SocketAddr, PeerModel>, ttl_secs: u64, now: u64) -> Map<
    SocketAddr,
    PeerModel,
> {
    Map::new(
        |a: SocketAddr| m.contains_key(a) && !m[a].expired_within(ttl_secs, now),
        |a: SocketAddr| m[a],
    )
}

/// Drops the peers that were not active in the `ttl_secs` seconds before time `now`.
pub fn retain_unexpired(peers: &mut VecMap<SocketAddr, PeerInfo>, ttl_secs: u64, now: u64)
    ensures
        peer_models(final(peers)@) == unexpired(peer_models(old(peers)@), ttl_secs, now),
{
    let n: usize = peers.len();
    let ghost entries = peers.seq();
    let ghost before = peers@;
    let mut keep: Vec<bool> = Vec::with_capacity(n);
    let mut i: usize = 0;
    while i < n
        invariant
            i <= n == entries.len(),
            entries == peers.seq(),
            keep@.len() == i,
            forall|j: int|
                0 <= j < i ==> #[trigger] keep@[j] == !entries[j].1@.expired_within(ttl_secs, now),
        decreases n - i,
    {
        keep.push(!peers.value_at(i).is_expired_within(ttl_secs, now));
        i += 1;
    }
    proof {
        lemma_map_of(entries);
    }
    peers.retain(&keep);
    proof {
        let after = peers@;
        let wanted = unexpired(peer_models(before), ttl_secs, now);
        assert forall|a: SocketAddr| peer_models(after).contains_key(a) <==> wanted.contains_key(
            a,
        ) by {
            if before.contains_key(a) {
                let j = choose|j: int| 0 <= j < entries.len() && (#[trigger] entries[j]).0@ == a;
                assert(after.contains_key(entries[j].0@) == keep@[j]);
            }
        }
        assert(peer_models(after) =~= wanted);
    }
}

/// The `limit` peers with the highest scores, highest first, equal ones in the order of `s`.
pub open spec fn best_of(s: Seq<PeerModel>, limit: int) -> Seq<PeerModel> {
    stable_sorted(s).take(at_most(limit, s.len() as int))
}

/// Orders peers by their scores, highest first, and keeps the first `limit`.
pub fn by_priority(peers: Vec<PeerInfo>, limit: usize) -> (r: Vec<PeerInfo>)
    ensures
        views(r@) == best_of(views(peers@), limit as int),
{
    proof {
        lemma_sorted_views(peers@);
    }
    let mut sorted: Vec<PeerInfo> = stable_sort(peers);
    proof {
        vstd::seq_lib::to_multiset_len(peers@);
        vstd::seq_lib::to_multiset_len(sorted@);
    }
    let ghost all = sorted@;
    if sorted.len() > limit {
        sorted.truncate(limit);
    }
    assert(views(sorted@) =~= views(all).take(at_most(limit as int, all.len() as int)));
    sorted
}

/// What [`best_of`] promises: as many peers as wanted and available, all of them from the given
/// ones, no peer before one with a higher score, and none left out with a higher score than one
/// that was taken.
pub proof fn law_best_come_first(s: Seq<PeerModel>, limit: nat)
    ensures
        best_of(s, limit as int).len() == at_most(limit as int, s.len() as int),
        forall|i: int|
            0 <= i < best_of(s, limit as int).len() ==> s.contains(
                #[trigger] best_of(s, limit as int)[i],
            ),
        forall|i: int, j: int|
            #![trigger best_of(s, limit as int)[i], best_of(s, limit as int)[j]]
            0 <= i <= j < best_of(s, limit as int).len() ==> best_of(s, limit as int)[i].priority_score
                >= best_of(s, limit as int)[j].priority_score,
        forall|x: PeerModel, i: int|
            #![trigger s.contains(x), best_of(s, limit as int)[i]]
            s.contains(x) && !best_of(s, limit as int).contains(x) && 0 <= i < best_of(
                s,
                limit as int,
            ).len() ==> x.priority_score <= best_of(s, limit as int)[i].priority_score,
{
    lemma_stable_sort_exists(s);
    let sorted = stable_sorted(s);
    let r = best_of(s, limit as int);
    vstd::seq_lib::to_multiset_len(s);
    vstd::seq_lib::to_multiset_len(sorted);
    assert forall|i: int| 0 <= i < r.len() implies s.contains(#[trigger] r[i]) by {
        assert(sorted.contains(sorted[i]));
        vstd::seq_lib::to_multiset_contains(sorted, sorted[i]);
        vstd::seq_lib::to_multiset_contains(s, sorted[i]);
    }
    assert forall|i: int, j: int|
        #![trigger r[i], r[j]]
        0 <= i <= j < r.len() implies r[i].priority_score >= r[j].priority_score by {
        assert(sorted[i].rank() <= sorted[j].rank());
    }
    assert forall|x: PeerModel, i: int|
        #![trigger s.contains(x), r[i]]
        s.contains(x) && !r.contains(x) && 0 <= i < r.len() implies x.priority_score
        <= r[i].priority_score by {
        vstd::seq_lib::to_multiset_contains(s, x);
        vstd::seq_lib::to_multiset_contains(sorted, x);
        let q = choose|q: int| 0 <= q < sorted.len() && sorted[q] == x;
        if q < r.len() {
            assert(r[q] == x);
        }
        assert(sorted[i].rank() <= sorted[q].rank());
    }
}

/// If no more peers are given than wanted, all of them are taken.
pub proof fn lemma_all_fit(s: Seq<PeerModel>, limit: nat, x: PeerModel)
    requires
        s.len() <= limit,
        s.contains(x),
    ensures
        best_of(s, limit as int).contains(x),
{
    lemma_stable_sort_exists(s);
    let sorted = stable_sorted(s);
    vstd::seq_lib::to_multiset_len(s);
    vstd::seq_lib::to_multiset_len(sorted);
    vstd::seq_lib::to_multiset_contains(s, x);
    vstd::seq_lib::to_multiset_contains(sorted, x);
    assert(best_of(s, limit as int) =~= sorted);
}

/// Peers that were learned of at time `now`.
pub open spec fn fresh_models(addrs: Seq<SocketAddr>, source: PeerSource, now: u64) -> Seq<PeerModel> {
    addrs.map_values(|a: SocketAddr| PeerModel::fresh(a, source, now))
}

/// Peers for the first `limit` addresses, learned of at time `now`.
pub fn fresh_peers(addrs: &[SocketAddr], limit: usize, source: PeerSource, now: u64) -> (r: Vec<
    PeerInfo,
>)
    ensures
        views(r@) == fresh_models(
            addrs@.take(at_most(limit as int, addrs@.len() as int)),
            source,
            now,
        ),
{
    let keep: usize = if limit < addrs.len() {
        limit
    } else {
        addrs.len()
    };
    let mut out: Vec<PeerInfo> = Vec::with_capacity(keep);
    let mut i: usize = 0;
    assert(views(out@) =~= fresh_models(addrs@.take(0), source, now));
    while i < keep
        invariant
            i <= keep <= addrs@.len(),
            views(out@) == fresh_models(addrs@.take(i as int), source, now),
        decreases keep - i,
    {
        let ghost before = views(out@);
        out.push(PeerInfo::new_at(addrs[i], source, now));
        i += 1;
        proof {
            assert(views(out@) =~= before.push(PeerModel::fresh(addrs@[i - 1], source, now)));
            assert(views(out@) =~= fresh_models(addrs@.take(i as int), source, now));
        }
    }
    out
}

impl View for PeerSource {
    type V = PeerSource;

    open spec fn view(&self) -> PeerSource {
        *self
    }
}

impl MapKey for PeerSource {
    fn same_key(&self, other: &Self) -> (r: bool) {
        *self == *other
    }
}

/// What a discovery came to. Durations are in nanoseconds.
pub struct DiscoveryResult {
    pub peers: Vec<PeerInfo>,
    /// How many peers each source gave.
    pub source_stats: VecMap<PeerSource, usize>,
    pub total_duration: u64,
    /// How long each discoverer took.
    pub discoverer_durations: VecMap<String, u64>,
}

/// What the parts of a node tell each other. Times are nanoseconds since the Unix epoch.
pub enum Event {
    /// Peers were found.
    PeerDiscovered { infohash: Infohash, peers: Vec<PeerInfo>, source: String },
    /// An infohash was seen for the first time.
    InfohashSeen { infohash: Infohash, source: String, seen_at: u64 },
    /// A discoverer became healthy or unhealthy.
    NodeHealthUpdate { discoverer: String, healthy: bool, message: Option<String> },
    /// A peer announced itself to the tracker that this node offers.
    AnnounceRequest {
        infohash: Infohash,
        peer_addr: SocketAddr,
        peer_id: Option<[u8; 20]>,
        event: AnnounceEvent,
        uploaded: u64,
        downloaded: u64,
        left: u64,
    },
    /// The crawler got on.
    CrawlProgress {
        nodes_crawled: u64,
        infohashes_collected: u64,
        peers_collected: u64,
        message: String,
    },
    /// The configuration changed.
    ConfigChanged,
}

/// An announcement to a tracker.
pub struct TrackerAnnounceRequest {
    pub info_hash: Infohash,
    pub peer_id: [u8; 20],
    pub port: u16,
    pub uploaded: u64,
    pub downloaded: u64,
    pub left: u64,
    pub event: Option<AnnounceEvent>,
    pub compact: bool,
    pub numwant: Option<usize>,
    pub no_peer_id: bool,
    pub key: Option<String>,
    pub trackerid: Option<String>,
    /// Where the announcement came from.
    pub remote_addr: SocketAddr,
}

/// A tracker's answer to an announcement.
pub struct TrackerAnnounceResponse {
    /// Seconds after which to announce again.
    pub interval: i64,
    /// Seconds before which not to announce again.
    pub min_interval: Option<i64>,
    pub tracker_id: Option<String>,
    /// Peers that have everything.
    pub complete: i64,
    /// Peers that are still downloading.
    pub incomplete: i64,
    pub peers: Vec<SocketAddr>,
    /// Why the announcement was refused, if it was.
    pub failure_reason: Option<String>,
    pub warning_message: Option<String>,
}

/// The UTF-8 bytes of a text.
pub open spec fn utf8_of(s: String) -> Seq<u8> {
    vstd::utf8::encode_utf8(s@)
}

/// A refusal: a dictionary with the reason alone.
pub open spec fn failure_encoding(reason: Seq<u8>) -> Seq<u8> {
    "d14:failure reason".spec_bytes() + bytes_encoding(reason) + seq![101u8]
}

/// An optional integer under a key.
pub open spec fn optional_int(key: Seq<u8>, value: Option<i64>) -> Seq<u8> {
    match value {
        Some(n) => key + int_encoding(n as int),
        None => Seq::empty(),
    }
}

/// An optional text under a key.
pub open spec fn optional_text(key: Seq<u8>, value: Option<String>) -> Seq<u8> {
    match value {
        Some(s) => key + bytes_encoding(utf8_of(s)),
        None => Seq::empty(),
    }
}

fn put_optional_int(out: &mut Vec<u8>, key: &str, value: Option<i64>)
    ensures
        final(out)@ == old(out)@ + optional_int(key.spec_bytes(), value),
{
    if let Some(n) = value {
        put_text(out, key);
        put_int(out, n);
    }
    assert(out@ =~= old(out)@ + optional_int(key.spec_bytes(), value));
}

fn put_optional_text(out: &mut Vec<u8>, key: &str, value: &Option<String>)
    ensures
        final(out)@ == old(out)@ + optional_text(key.spec_bytes(), *value),
{
    if let Some(s) = value {
        put_text(out, key);
        put_byte_string(out, s.as_str().as_bytes());
    }
    assert(out@ =~= old(out)@ + optional_text(key.spec_bytes(), *value));
}

fn failure_bytes(reason: &String) -> (r: Vec<u8>)
    ensures
        r@ == failure_encoding(utf8_of(*reason)),
{
    let mut out: Vec<u8> = Vec::new();
    put_text(&mut out, "d14:failure reason");
    put_byte_string(&mut out, reason.as_str().as_bytes());
    out.push(101);
    assert(out@ =~= failure_encoding(utf8_of(*reason)));
    out
}

impl TrackerAnnounceResponse {
    /// The bencoded answer: the refusal if there is one, else the intervals, the counts, the
    /// warning and the IPv4 peers in compact form.
    pub open spec fn encoded(&self) -> Seq<u8> {
        match self.failure_reason {
            Some(reason) => failure_encoding(utf8_of(reason)),
            None => "d8:interval".spec_bytes() + int_encoding(self.interval as int) + optional_int(
                "12:min interval".spec_bytes(),
                self.min_interval,
            ) + optional_text("10:tracker id".spec_bytes(), self.tracker_id)
                + "8:complete".spec_bytes() + int_encoding(self.complete as int)
                + "10:incomplete".spec_bytes() + int_encoding(self.incomplete as int)
                + optional_text("15:warning message".spec_bytes(), self.warning_message)
                + "5:peers".spec_bytes() + bytes_encoding(compact_peers(self.peers@)) + seq![101u8],
        }
    }

    /// The bencoded answer with the IPv4 peers in compact form.
    pub fn to_bencode_compact(&self) -> (r: Vec<u8>)
        ensures
            r@ == self.encoded(),
    {
        if let Some(reason) = &self.failure_reason {
            return failure_bytes(reason);
        }
        let mut out: Vec<u8> = Vec::new();
        put_text(&mut out, "d8:interval");
        put_int(&mut out, self.interval);
        put_optional_int(&mut out, "12:min interval", self.min_interval);
        put_optional_text(&mut out, "10:tracker id", &self.tracker_id);
        put_text(&mut out, "8:complete");
        put_int(&mut out, self.complete);
        put_text(&mut out, "10:incomplete");
        put_int(&mut out, self.incomplete);
        put_optional_text(&mut out, "15:warning message", &self.warning_message);
        put_text(&mut out, "5:peers");
        let mut compact: Vec<u8> = Vec::new();
        put_compact_peers(&mut compact, self.peers.as_slice());
        assert(compact@ =~= compact_peers(self.peers@));
        put_byte_string(&mut out, compact.as_slice());
        out.push(101);
        assert(out@ =~= self.encoded());
        out
    }
}

/// A request for the counts of infohashes.
pub struct TrackerScrapeRequest {
    pub info_hashes: Vec<Infohash>,
}

/// The counts of one infohash.
pub struct ScrapeEntry {
    pub complete: i64,
    pub downloaded: i64,
    pub incomplete: i64,
    pub name: Option<String>,
}

impl Default for ScrapeEntry {
    fn default() -> (r: ScrapeEntry)
        ensures
            r.complete == 0,
            r.downloaded == 0,
            r.incomplete == 0,
            r.name is None,
    {
        ScrapeEntry { complete: 0, downloaded: 0, incomplete: 0, name: None }
    }
}

/// A tracker's answer to a scrape.
pub struct TrackerScrapeResponse {
    pub files: VecMap<Infohash, ScrapeEntry>,
    /// Why the request was refused, if it was.
    pub failure_reason: Option<String>,
}

/// The entry of one infohash.
pub open spec fn scrape_entry_encoding(infohash: Seq<u8>, e: ScrapeEntry) -> Seq<u8> {
    "20:".spec_bytes() + infohash + "d8:complete".spec_bytes() + int_encoding(e.complete as int)
        + "10:downloaded".spec_bytes() + int_encoding(e.downloaded as int)
        + "10:incomplete".spec_bytes() + int_encoding(e.incomplete as int) + optional_text(
        "4:name".spec_bytes(),
        e.name,
    ) + seq![101u8]
}

/// The entries one after the other.
pub open spec fn scrape_entries_encoding(files: Seq<(Infohash, ScrapeEntry)>) -> Seq<u8>
    decreases files.len(),
{
    if files.len() == 0 {
        Seq::empty()
    } else {
        scrape_entries_encoding(files.drop_last()) + scrape_entry_encoding(
            files.last().0@,
            files.last().1,
        )
    }
}

/// Appends the entry of an infohash.
fn put_scrape_entry(out: &mut Vec<u8>, infohash: &Infohash, e: &ScrapeEntry)
    ensures
        final(out)@ == old(out)@ + scrape_entry_encoding(infohash@, *e),
{
    put_text(out, "20:");
    put_bytes(out, infohash);
    put_text(out, "d8:complete");
    put_int(out, e.complete);
    put_text(out, "10:downloaded");
    put_int(out, e.downloaded);
    put_text(out, "10:incomplete");
    put_int(out, e.incomplete);
    put_optional_text(out, "4:name", &e.name);
    out.push(101);
    assert(out@ =~= old(out)@ + scrape_entry_encoding(infohash@, *e));
}

impl TrackerScrapeResponse {
    /// The bencoded answer, with the entries in the order in which they are kept.
    pub open spec fn encoded(&self) -> Seq<u8> {
        match self.failure_reason {
            Some(reason) => failure_encoding(utf8_of(reason)),
            None => "d5:filesd".spec_bytes() + scrape_entries_encoding(self.files.seq())
                + "ee".spec_bytes(),
        }
    }

    /// The bencoded answer.
    pub fn to_bencode(&self) -> (r: Vec<u8>)
        ensures
            r@ == self.encoded(),
    {
        if let Some(reason) = &self.failure_reason {
            return failure_bytes(reason);
        }
        let mut out: Vec<u8> = Vec::new();
        put_text(&mut out, "d5:filesd");
        let n: usize = self.files.len();
        let ghost files = self.files.seq();
        let ghost head = "d5:filesd".spec_bytes();
        let mut i: usize = 0;
        assert(out@ =~= head + scrape_entries_encoding(files.take(0)));
        while i < n
            invariant
                i <= n == files.len(),
                files == self.files.seq(),
                head == "d5:filesd".spec_bytes(),
                out@ == head + scrape_entries_encoding(files.take(i as int)),
            decreases n - i,
        {
            let ghost before = out@;
            put_scrape_entry(&mut out, self.files.key_at(i), self.files.value_at(i));
            proof {
                assert(files.take(i + 1).drop_last() =~= files.take(i as int));
                assert(files.take(i + 1).last() == files[i as int]);
                assert(out@ =~= head + scrape_entries_encoding(files.take(i + 1)));
            }
            i += 1;
        }
        assert(files.take(i as int) =~= files);
        put_text(&mut out, "ee");
        out
    }
}

impl Default for TrackerScrapeResponse {
    fn default() -> (r: TrackerScrapeResponse)
        ensures
            r.files@ == Map::<Seq<u8>, ScrapeEntry>::empty(),
            r.failure_reason is None,
    {
        TrackerScrapeResponse { files: VecMap::new(), failure_reason: None }
    }
}

/// A tracker scores 100 points, an overlay of trackers 95, a neighbour in the local network 90, a web
/// seed 85, the DHT 80, an exchange 60 and a peer that was put in by hand 50. IPv4 adds 50; a port
/// from 6881 to 6889 adds 30, port 51413 adds 20; activity adds 40 within five minutes and 20 within
/// half an hour. A peer without any attempt gets nothing for its connections, one whose attempts all
/// failed neither.
pub proof fn law_what_a_score_is_made_of(p: PeerModel, now: u64)
    requires
        p.connection_attempts == 0 || p.connection_successes == 0,
    ensures
        ({
            let base: int = match p.source {
                PeerSource::Tracker => 100,
                PeerSource::SuperTracker => 95,
                PeerSource::Lpd => 90,
                PeerSource::WebSeed => 85,
                PeerSource::Dht => 80,
                PeerSource::Pex => 60,
                PeerSource::Manual => 50,
            };
            let family: int = if p.is_ipv6 {
                0
            } else {
                50
            };
            let port: int = if p.addr.port >= 6881 && p.addr.port < 6890 {
                30
            } else if p.addr.port == 51413 {
                20
            } else {
                0
            };
            let age = now - p.last_active;
            let activity: int = if 0 <= age < 300_000_000_000 {
                40
            } else if 0 <= age < 1_800_000_000_000 {
                20
            } else {
                0
            };
            &&& p.prioritized(now).priority_score == base + family + port + activity
            &&& p.prioritized(now).addr == p.addr
            &&& p.prioritized(now).source == p.source
            &&& p.prioritized(now).last_active == p.last_active
            &&& p.prioritized(now).metadata == p.metadata
        }),
{
    if p.connection_attempts > 0 {
        assert(crate::percent::is_percent(0, p.connection_attempts as nat, 0));
        let r = percent_of(0, p.connection_attempts as nat);
        assert(crate::percent::is_percent(0, p.connection_attempts as nat, r));
    }
}

/// A peer that was just learned of has no past: it was never tried, was seen for the first and the
/// last time now, and has the score of its source.
pub proof fn law_fresh_peer(addrs: Seq<SocketAddr>, source: PeerSource, now: u64, i: int)
    requires
        0 <= i < addrs.len(),
    ensures
        ({
            let p = fresh_models(addrs, source, now)[i];
            &&& fresh_models(addrs, source, now).len() == addrs.len()
            &&& p.addr == addrs[i]
            &&& p.source == source
            &&& p.first_seen == now && p.last_active == now
            &&& p.priority_score == source.score()
            &&& p.connection_attempts == 0 && p.connection_successes == 0
            &&& p.consecutive_failures == 0
            &&& p.peer_id is None
            &&& p.is_ipv6 <==> addrs[i].ip is V6
            &&& forall|k: Seq<char>| !p.metadata.contains_key(k)
        }),
{
}

/// A peer has expired when more than a day has passed since it was active; one that is active later
/// than now has not.
pub proof fn law_peers_expire_after_a_day(p: PeerModel, ttl_secs: u64, now: u64)
    ensures
        p.expired(now) <==> now - p.last_active > 86_400_000_000_000,
        p.expired_within(ttl_secs, now) <==> now - p.last_active > 1_000_000_000 * ttl_secs,
{
}

/// Peers that were active lately stay as they are, all others go.
pub proof fn law_inactive_peers_go(
    m: Map<SocketAddr, PeerModel>,
    ttl_secs: u64,
    now: u64,
    a: SocketAddr,
)
    ensures
        unexpired(m, ttl_secs, now).contains_key(a) <==> m.contains_key(a) && now
            - m[a].last_active <= 1_000_000_000 * ttl_secs,
        unexpired(m, ttl_secs, now).contains_key(a) ==> unexpired(m, ttl_secs, now)[a] == m[a],
{
}

/// The names of the sources and of the events.
pub proof fn law_names()
    ensures
        PeerSource::Tracker.label() == "tracker"@,
        PeerSource::Dht.label() == "dht"@,
        PeerSource::Pex.label() == "pex"@,
        PeerSource::Lpd.label() == "lpd"@,
        PeerSource::WebSeed.label() == "webseed"@,
        PeerSource::SuperTracker.label() == "super_tracker"@,
        PeerSource::Manual.label() == "manual"@,
        AnnounceEvent::Started.label() == "started"@,
        AnnounceEvent::Stopped.label() == "stopped"@,
        AnnounceEvent::Completed.label() == "completed"@,
        AnnounceEvent::Regular.label() == "none"@,
{
}

/// Only the three names of events stand for an event.
pub proof fn law_other_names_are_regular(name: Seq<char>)
    requires
        name != "started"@,
        name != "stopped"@,
        name != "completed"@,
    ensures
        AnnounceEvent::named(name) == AnnounceEvent::Regular,
{
}

/// IPv4 addresses come before IPv6 addresses, and of two with one address the lower port comes
/// first.
pub proof fn law_order_of_addresses(a: SocketAddr, b: SocketAddr)
    ensures
        a.ip is V4 && b.ip is V6 ==> addr_rank(a) < addr_rank(b),
        a.ip == b.ip ==> (addr_rank(a) <= addr_rank(b) <==> a.port <= b.port),
        a.ip matches IpAddr::V4(x) && b.ip matches IpAddr::V4(y) && be_value(x@) < be_value(y@)
            ==> addr_rank(a) < addr_rank(b),
        a.ip matches IpAddr::V6(x) && b.ip matches IpAddr::V6(y) && be_value(x@) < be_value(y@)
            ==> addr_rank(a) < addr_rank(b),
{
    if let IpAddr::V4(x) = a.ip {
        crate::bytes::lemma_be_value_bound(x@);
        assert(crate::bytes::byte_capacity(4) == 0x1_0000_0000) by {
            reveal_with_fuel(crate::bytes::byte_capacity, 5);
        }
    }
}

/// The entries of a dictionary and one more, if there is a value for it.
pub open spec fn with_entry(
    entries: Seq<(Seq<u8>, Tree)>,
    key: Seq<u8>,
    value: Option<Tree>,
) -> Seq<(Seq<u8>, Tree)> {
    match value {
        Some(t) => entries.push((key, t)),
        None => entries,
    }
}

proof fn lemma_with_entry(entries: Seq<(Seq<u8>, Tree)>, key: Seq<u8>, value: Option<Tree>)
    ensures
        value is None ==> with_entry(entries, key, value) == entries,
        value is Some ==> entries_encoding(with_entry(entries, key, value)) == entries_encoding(
            entries,
        ) + bytes_encoding(key) + encoding(value->0),
        value is Some ==> entries_meaning(with_entry(entries, key, value)) == entries_meaning(
            entries,
        ).insert(key, tree_meaning(value->0)),
{
    if let Some(t) = value {
        lemma_entries_push(entries, key, t);
    }
}

proof fn lemma_answer_keys()
    ensures
        "d8:interval".spec_bytes() == seq![100u8] + bytes_encoding("interval".spec_bytes()),
        "12:min interval".spec_bytes() == bytes_encoding("min interval".spec_bytes()),
        "10:tracker id".spec_bytes() == bytes_encoding("tracker id".spec_bytes()),
        "8:complete".spec_bytes() == bytes_encoding("complete".spec_bytes()),
        "10:incomplete".spec_bytes() == bytes_encoding("incomplete".spec_bytes()),
        "15:warning message".spec_bytes() == bytes_encoding("warning message".spec_bytes()),
        "5:peers".spec_bytes() == bytes_encoding("peers".spec_bytes()),
        "interval".spec_bytes().len() == 8 && "interval".spec_bytes()[0] == 105,
        "min interval".spec_bytes().len() == 12,
        "tracker id".spec_bytes().len() == 10 && "tracker id".spec_bytes()[0] == 116,
        "complete".spec_bytes().len() == 8 && "complete".spec_bytes()[0] == 99,
        "incomplete".spec_bytes().len() == 10 && "incomplete".spec_bytes()[0] == 105,
        "warning message".spec_bytes().len() == 15,
        "peers".spec_bytes().len() == 5,
{
    reveal_with_fuel(decimal, 3);
    reveal_strlit("d8:interval");
    reveal_strlit("12:min interval");
    reveal_strlit("10:tracker id");
    reveal_strlit("8:complete");
    reveal_strlit("10:incomplete");
    reveal_strlit("15:warning message");
    reveal_strlit("5:peers");
    reveal_strlit("interval");
    reveal_strlit("min interval");
    reveal_strlit("tracker id");
    reveal_strlit("complete");
    reveal_strlit("incomplete");
    reveal_strlit("warning message");
    reveal_strlit("peers");
    assert(is_ascii("d8:interval") && is_ascii("12:min interval") && is_ascii("10:tracker id"));
    assert(is_ascii("8:complete") && is_ascii("10:incomplete") && is_ascii("15:warning message"));
    assert(is_ascii("5:peers") && is_ascii("interval") && is_ascii("min interval"));
    assert(is_ascii("tracker id") && is_ascii("complete") && is_ascii("incomplete"));
    assert(is_ascii("warning message") && is_ascii("peers"));
    assert("d8:interval".spec_bytes() =~= seq![100u8] + bytes_encoding("interval".spec_bytes()));
    assert("12:min interval".spec_bytes() =~= bytes_encoding("min interval".spec_bytes()));
    assert("10:tracker id".spec_bytes() =~= bytes_encoding("tracker id".spec_bytes()));
    assert("8:complete".spec_bytes() =~= bytes_encoding("complete".spec_bytes()));
    assert("10:incomplete".spec_bytes() =~= bytes_encoding("incomplete".spec_bytes()));
    assert("15:warning message".spec_bytes() =~= bytes_encoding("warning message".spec_bytes()));
    assert("5:peers".spec_bytes() =~= bytes_encoding("peers".spec_bytes()));
}

/// The text in an optional field as a bencoded value.
pub open spec fn text_tree(value: Option<String>) -> Option<Tree> {
    match value {
        Some(s) => Some(Tree::Bytes(vstd::utf8::encode_utf8(s@))),
        None => None,
    }
}

/// The optional number as a bencoded value.
spec fn int_tree(value: Option<i64>) -> Option<Tree> {
    match value {
        Some(n) => Some(Tree::Int(n as int)),
        None => None,
    }
}

proof fn lemma_answer_start(r: TrackerAnnounceResponse) -> (e: Seq<(Seq<u8>, Tree)>)
    ensures
        seq![100u8] + entries_encoding(e) == "d8:interval".spec_bytes() + int_encoding(
            r.interval as int,
        ) + optional_int("12:min interval".spec_bytes(), r.min_interval) + optional_text(
            "10:tracker id".spec_bytes(),
            r.tracker_id,
        ),
        ({
            let m = Meaning::Dict(entries_meaning(e));
            &&& entry(m, "interval".spec_bytes()) == Some(Meaning::Int(r.interval as int))
            &&& entry(m, "min interval".spec_bytes()) == match r.min_interval {
                Some(n) => Some(Meaning::Int(n as int)),
                None => None,
            }
            &&& entry(m, "tracker id".spec_bytes()) == match r.tracker_id {
                Some(s) => Some(Meaning::Bytes(vstd::utf8::encode_utf8(s@))),
                None => None,
            }
            &&& entry(m, "warning message".spec_bytes()) is None
        }),
{
    lemma_answer_keys();
    lemma_empty_encodings();
    let e0 = Seq::<(Seq<u8>, Tree)>::empty();
    let e1 = e0.push(("interval".spec_bytes(), Tree::Int(r.interval as int)));
    let e2 = with_entry(e1, "min interval".spec_bytes(), int_tree(r.min_interval));
    let e3 = with_entry(e2, "tracker id".spec_bytes(), text_tree(r.tracker_id));
    lemma_entries_push(e0, "interval".spec_bytes(), Tree::Int(r.interval as int));
    lemma_with_entry(e1, "min interval".spec_bytes(), int_tree(r.min_interval));
    lemma_with_entry(e2, "tracker id".spec_bytes(), text_tree(r.tracker_id));
    let head = "d8:interval".spec_bytes() + int_encoding(r.interval as int);
    let min = optional_int("12:min interval".spec_bytes(), r.min_interval);
    assert(seq![100u8] + entries_encoding(e1) =~= head);
    assert(seq![100u8] + entries_encoding(e2) =~= head + min);
    assert(seq![100u8] + entries_encoding(e3) =~= head + min + optional_text(
        "10:tracker id".spec_bytes(),
        r.tracker_id,
    ));
    e3
}

/// An answer that is no refusal is a dictionary: the interval, the counts and the peers stand under
/// their names, the optional fields do if they are given, and there is no word of a failure.
pub proof fn law_announce_answer_is_a_dictionary(r: TrackerAnnounceResponse)
    requires
        r.failure_reason is None,
    ensures
        exists|t: Tree| r.encoded() == #[trigger] encoding(t) && {
            let m = tree_meaning(t);
            &&& m is Dict
            &&& int_entry(m, "interval".spec_bytes()) == Some(r.interval as int)
            &&& int_entry(m, "complete".spec_bytes()) == Some(r.complete as int)
            &&& int_entry(m, "incomplete".spec_bytes()) == Some(r.incomplete as int)
            &&& bytes_entry(m, "peers".spec_bytes()) == Some(compact_peers(r.peers@))
            &&& r.min_interval is Some ==> int_entry(m, "min interval".spec_bytes()) == Some(
                r.min_interval->0 as int,
            )
            &&& r.min_interval is None ==> entry(m, "min interval".spec_bytes()) is None
            &&& r.tracker_id is Some ==> bytes_entry(m, "tracker id".spec_bytes()) == Some(
                vstd::utf8::encode_utf8(r.tracker_id->0@),
            )
            &&& r.tracker_id is None ==> entry(m, "tracker id".spec_bytes()) is None
            &&& r.warning_message is Some ==> bytes_entry(m, "warning message".spec_bytes()) == Some(
                vstd::utf8::encode_utf8(r.warning_message->0@),
            )
            &&& r.warning_message is None ==> entry(m, "warning message".spec_bytes()) is None
        },
{
    let e3 = lemma_answer_start(r);
    lemma_answer_keys();
    let e4 = e3.push(("complete".spec_bytes(), Tree::Int(r.complete as int)));
    let e5 = e4.push(("incomplete".spec_bytes(), Tree::Int(r.incomplete as int)));
    let e6 = with_entry(e5, "warning message".spec_bytes(), text_tree(r.warning_message));
    let e7 = e6.push(("peers".spec_bytes(), Tree::Bytes(compact_peers(r.peers@))));
    lemma_entries_push(e3, "complete".spec_bytes(), Tree::Int(r.complete as int));
    lemma_entries_push(e4, "incomplete".spec_bytes(), Tree::Int(r.incomplete as int));
    lemma_with_entry(e5, "warning message".spec_bytes(), text_tree(r.warning_message));
    lemma_entries_push(e6, "peers".spec_bytes(), Tree::Bytes(compact_peers(r.peers@)));
    let t = Tree::Dict(e7);
    let start = seq![100u8] + entries_encoding(e3);
    let counts = start + "8:complete".spec_bytes() + int_encoding(r.complete as int)
        + "10:incomplete".spec_bytes() + int_encoding(r.incomplete as int);
    let warned = counts + optional_text("15:warning message".spec_bytes(), r.warning_message);
    assert(seq![100u8] + entries_encoding(e5) =~= counts);
    assert(seq![100u8] + entries_encoding(e6) =~= warned);
    assert(encoding(t) =~= warned + "5:peers".spec_bytes() + bytes_encoding(
        compact_peers(r.peers@),
    ) + seq![101u8]);
    assert(encoding(t) == r.encoded());
    assert(tree_meaning(t) == Meaning::Dict(entries_meaning(e7)));
}

proof fn lemma_scrape_keys()
    ensures
        "20:".spec_bytes() == decimal(20) + seq![58u8],
        "d8:complete".spec_bytes() == seq![100u8] + bytes_encoding("complete".spec_bytes()),
        "10:downloaded".spec_bytes() == bytes_encoding("downloaded".spec_bytes()),
        "10:incomplete".spec_bytes() == bytes_encoding("incomplete".spec_bytes()),
        "4:name".spec_bytes() == bytes_encoding("name".spec_bytes()),
        "complete".spec_bytes().len() == 8,
        "downloaded".spec_bytes().len() == 10 && "downloaded".spec_bytes()[0] == 100,
        "incomplete".spec_bytes().len() == 10 && "incomplete".spec_bytes()[0] == 105,
        "name".spec_bytes().len() == 4,
        "d5:filesd".spec_bytes() == seq![100u8] + bytes_encoding("files".spec_bytes()) + seq![100u8],
        "ee".spec_bytes() == seq![101u8, 101u8],
{
    reveal_with_fuel(decimal, 3);
    reveal_strlit("20:");
    reveal_strlit("d8:complete");
    reveal_strlit("10:downloaded");
    reveal_strlit("10:incomplete");
    reveal_strlit("4:name");
    reveal_strlit("complete");
    reveal_strlit("downloaded");
    reveal_strlit("incomplete");
    reveal_strlit("name");
    reveal_strlit("d5:filesd");
    reveal_strlit("files");
    reveal_strlit("ee");
    assert(is_ascii("20:") && is_ascii("d8:complete") && is_ascii("10:downloaded"));
    assert(is_ascii("10:incomplete") && is_ascii("4:name") && is_ascii("complete"));
    assert(is_ascii("downloaded") && is_ascii("incomplete") && is_ascii("name"));
    assert(is_ascii("d5:filesd") && is_ascii("files") && is_ascii("ee"));
    assert("20:".spec_bytes() =~= decimal(20) + seq![58u8]);
    assert("d8:complete".spec_bytes() =~= seq![100u8] + bytes_encoding("complete".spec_bytes()));
    assert("10:downloaded".spec_bytes() =~= bytes_encoding("downloaded".spec_bytes()));
    assert("10:incomplete".spec_bytes() =~= bytes_encoding("incomplete".spec_bytes()));
    assert("4:name".spec_bytes() =~= bytes_encoding("name".spec_bytes()));
    assert("d5:filesd".spec_bytes() =~= seq![100u8] + bytes_encoding("files".spec_bytes())
        + seq![100u8]);
    assert("ee".spec_bytes() =~= seq![101u8, 101u8]);
}

/// Whether a value holds the counts of an infohash, and its name if that is known.
pub open spec fn holds_counts(m: Meaning, e: ScrapeEntry) -> bool {
    &&& int_entry(m, "complete".spec_bytes()) == Some(e.complete as int)
    &&& int_entry(m, "downloaded".spec_bytes()) == Some(e.downloaded as int)
    &&& int_entry(m, "incomplete".spec_bytes()) == Some(e.incomplete as int)
    &&& e.name is Some ==> bytes_entry(m, "name".spec_bytes()) == Some(
        vstd::utf8::encode_utf8(e.name->0@),
    )
    &&& e.name is None ==> entry(m, "name".spec_bytes()) is None
}

proof fn lemma_scrape_entry(infohash: Seq<u8>, e: ScrapeEntry) -> (t: Tree)
    requires
        infohash.len() == 20,
    ensures
        scrape_entry_encoding(infohash, e) == bytes_encoding(infohash) + encoding(t),
        holds_counts(tree_meaning(t), e),
{
    lemma_scrape_keys();
    lemma_empty_encodings();
    let e0 = Seq::<(Seq<u8>, Tree)>::empty();
    let e1 = e0.push(("complete".spec_bytes(), Tree::Int(e.complete as int)));
    let e2 = e1.push(("downloaded".spec_bytes(), Tree::Int(e.downloaded as int)));
    let e3 = e2.push(("incomplete".spec_bytes(), Tree::Int(e.incomplete as int)));
    let e4 = with_entry(e3, "name".spec_bytes(), text_tree(e.name));
    lemma_entries_push(e0, "complete".spec_bytes(), Tree::Int(e.complete as int));
    lemma_entries_push(e1, "downloaded".spec_bytes(), Tree::Int(e.downloaded as int));
    lemma_entries_push(e2, "incomplete".spec_bytes(), Tree::Int(e.incomplete as int));
    lemma_with_entry(e3, "name".spec_bytes(), text_tree(e.name));
    let t = Tree::Dict(e4);
    let head = "20:".spec_bytes() + infohash;
    assert(head =~= bytes_encoding(infohash));
    let counts = "d8:complete".spec_bytes() + int_encoding(e.complete as int)
        + "10:downloaded".spec_bytes() + int_encoding(e.downloaded as int)
        + "10:incomplete".spec_bytes() + int_encoding(e.incomplete as int);
    assert(seq![100u8] + entries_encoding(e3) =~= counts);
    let named = counts + optional_text("4:name".spec_bytes(), e.name);
    assert(seq![100u8] + entries_encoding(e4) =~= named);
    assert(encoding(t) =~= named + seq![101u8]);
    assert(scrape_entry_encoding(infohash, e) =~= head + (named + seq![101u8]));
    assert(tree_meaning(t) == Meaning::Dict(entries_meaning(e4)));
    t
}

/// Whether entries of a dictionary are those of the infohashes: one for each, in the same order,
/// with its counts.
pub open spec fn are_counts_of(
    entries: Seq<(Seq<u8>, Tree)>,
    files: Seq<(Infohash, ScrapeEntry)>,
) -> bool {
    &&& entries.len() == files.len()
    &&& forall|i: int|
        0 <= i < files.len() ==> (#[trigger] entries[i]).0 == files[i].0@ && holds_counts(
            tree_meaning(entries[i].1),
            files[i].1,
        )
}

proof fn lemma_scrape_entries(files: Seq<(Infohash, ScrapeEntry)>) -> (r: Seq<(Seq<u8>, Tree)>)
    ensures
        entries_encoding(r) == scrape_entries_encoding(files),
        are_counts_of(r, files),
    decreases files.len(),
{
    lemma_empty_encodings();
    if files.len() == 0 {
        Seq::empty()
    } else {
        let rest = lemma_scrape_entries(files.drop_last());
        let key = files.last().0@;
        let t = lemma_scrape_entry(key, files.last().1);
        lemma_entries_push(rest, key, t);
        let r = rest.push((key, t));
        assert(entries_encoding(r) =~= scrape_entries_encoding(files));
        assert forall|i: int| 0 <= i < files.len() implies (#[trigger] r[i]).0 == files[i].0@
            && holds_counts(tree_meaning(r[i].1), files[i].1) by {
            if i < rest.len() {
                assert(r[i] == rest[i]);
            }
        }
        r
    }
}

/// The answer to a scrape has one dictionary, under "files", in which every infohash that was found
/// has its own counts.
pub proof fn law_scrape_answer_has_all_counts(r: TrackerScrapeResponse)
    requires
        r.failure_reason is None,
    ensures
        exists|entries: Seq<(Seq<u8>, Tree)>| #[trigger]
            are_counts_of(entries, r.files.seq()) && r.encoded() == encoding(
                Tree::Dict(seq![("files".spec_bytes(), Tree::Dict(entries))]),
            ),
{
    lemma_scrape_keys();
    lemma_empty_encodings();
    let entries = lemma_scrape_entries(r.files.seq());
    let files = Tree::Dict(entries);
    let e0 = Seq::<(Seq<u8>, Tree)>::empty();
    let key = "files".spec_bytes();
    lemma_entries_push(e0, key, files);
    assert(seq![(key, files)] =~= e0.push((key, files)));
    assert(encoding(Tree::Dict(seq![(key, files)])) =~= r.encoded());
}

/// A refusal, of an announcement or of a scrape, is a dictionary with the reason and nothing else.
pub proof fn law_refusal_tells_the_reason(
    r: TrackerAnnounceResponse,
    s: TrackerScrapeResponse,
    reason: String,
)
    ensures
        exists|t: Tree|
            {
                &&& #[trigger] tree_meaning(t) == Meaning::Dict(
                    map![
                        "failure reason".spec_bytes() => Meaning::Bytes(
                            vstd::utf8::encode_utf8(reason@),
                        ),
                    ],
                )
                &&& r.failure_reason == Some(reason) ==> r.encoded() == encoding(t)
                &&& s.failure_reason == Some(reason) ==> s.encoded() == encoding(t)
            },
{
    lemma_empty_encodings();
    reveal_with_fuel(decimal, 3);
    reveal_strlit("d14:failure reason");
    reveal_strlit("failure reason");
    assert(is_ascii("d14:failure reason") && is_ascii("failure reason"));
    let key = "failure reason".spec_bytes();
    let value = Tree::Bytes(vstd::utf8::encode_utf8(reason@));
    let e0 = Seq::<(Seq<u8>, Tree)>::empty();
    let t = Tree::Dict(e0.push((key, value)));
    lemma_entries_push(e0, key, value);
    assert("d14:failure reason".spec_bytes() =~= seq![100u8] + bytes_encoding(key));
    assert(failure_encoding(utf8_of(reason)) =~= encoding(t));
    assert(entries_meaning(e0.push((key, value))) =~= map![key => tree_meaning(value)]);
    assert(tree_meaning(t) == Meaning::Dict(entries_meaning(e0.push((key, value)))));
}

} // verus!
