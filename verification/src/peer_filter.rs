//! Keeping peers away that ask for too much.
//!
//! A peer is banned for too many requests in a second, for too many invalid tokens and for asking
//! about too many infohashes. Each ban is twice as long as the one before, up to a limit.

use crate::clock::{elapsed_nanos, instant_now, nanos_of, nanos_since, NANOS_PER_SEC};
use crate::net::IpAddr;
use crate::vecmap::{lemma_map_of, VecMap};
use std::time::Instant;
use vstd::arithmetic::power2::pow2;
use vstd::prelude::*;

verus! {

/// After so many bans the next one is not longer than the last.
pub const MAX_DOUBLINGS: u32 = 5;

/// What a peer did. Times are nanoseconds since the filter was set up.
#[derive(Debug, Clone, Copy, PartialEq, Eq, Structural)]
pub struct PeerBehavior {
    /// Requests in the present window.
    pub request_count: u32,
    /// When the present window began.
    pub window_start: u64,
    /// Invalid tokens since the last ban.
    pub token_failures: u32,
    /// Infohashes that were asked about in the present window.
    pub unique_infohashes: u32,
    pub last_request: u64,
    /// The end of the ban, if there is one.
    pub banned_until: Option<u128>,
    /// How often the peer was banned.
    pub ban_count: u32,
}

/// The limits.
#[derive(Debug, Clone, Copy)]
pub struct PeerFilterConfig {
    pub max_requests_per_second: u32,
    /// Seconds after which counting starts again.
    pub window_secs: u64,
    /// A peer is banned for so many invalid tokens.
    pub max_token_failures: u32,
    /// A peer is banned for asking about more infohashes in a window.
    pub max_unique_infohashes: u32,
    /// Seconds of the first ban.
    pub initial_ban_secs: u64,
    /// Seconds of the longest ban.
    pub max_ban_secs: u64,
    /// Seconds after which a peer is forgotten.
    pub record_ttl_secs: u64,
}

impl Default for PeerFilterConfig {
    fn default() -> (r: PeerFilterConfig)
        ensures
            r == (PeerFilterConfig {
                max_requests_per_second: 50,
                window_secs: 60,
                max_token_failures: 5,
                max_unique_infohashes: 200,
                initial_ban_secs: 300,
                max_ban_secs: 86400,
                record_ttl_secs: 3600,
            }),
    {
        PeerFilterConfig {
            max_requests_per_second: 50,
            window_secs: 60,
            max_token_failures: 5,
            max_unique_infohashes: 200,
            initial_ban_secs: 300,
            max_ban_secs: 86400,
            record_ttl_secs: 3600,
        }
    }
}

/// What a filter has seen.
#[derive(Debug, Clone, Copy, PartialEq, Eq, Structural)]
pub struct PeerFilterStats {
    pub total_tracked: usize,
    pub currently_banned: usize,
    pub total_bans: usize,
}

/// A peer that did nothing yet.
pub open spec fn blank(now: u64) -> PeerBehavior {
    PeerBehavior {
        request_count: 0,
        window_start: now,
        token_failures: 0,
        unique_infohashes: 0,
        last_request: now,
        banned_until: None,
        ban_count: 0,
    }
}

/// Whether a peer is banned at time `now`.
pub open spec fn banned_at(b: PeerBehavior, now: u64) -> bool {
    b.banned_until matches Some(until) && until > now
}

/// Seconds of the next ban.
pub open spec fn ban_secs(config: PeerFilterConfig, ban_count: u32) -> int {
    let doublings = if ban_count < MAX_DOUBLINGS {
        ban_count
    } else {
        MAX_DOUBLINGS
    };
    let secs = config.initial_ban_secs * pow2(doublings as nat);
    if secs < config.max_ban_secs {
        secs
    } else {
        config.max_ban_secs as int
    }
}

/// A peer that is banned at time `now`.
pub open spec fn banned(config: PeerFilterConfig, b: PeerBehavior, now: u64) -> PeerBehavior {
    PeerBehavior {
        banned_until: Some((now + ban_secs(config, b.ban_count) * NANOS_PER_SEC) as u128),
        ban_count: (b.ban_count + 1) as u32,
        token_failures: 0,
        ..b
    }
}

/// A peer at time `now`, with counting started again if the window is over.
pub open spec fn in_window(config: PeerFilterConfig, b: PeerBehavior, now: u64) -> PeerBehavior {
    if now - b.window_start > config.window_secs * NANOS_PER_SEC {
        PeerBehavior { window_start: now, request_count: 0, unique_infohashes: 0, ..b }
    } else {
        b
    }
}

/// Whether there were more requests in the window than are allowed in as many seconds, at least one.
pub open spec fn too_fast(config: PeerFilterConfig, b: PeerBehavior, now: u64) -> bool {
    let elapsed = if now - b.window_start > NANOS_PER_SEC {
        now - b.window_start
    } else {
        NANOS_PER_SEC as int
    };
    b.request_count * NANOS_PER_SEC > config.max_requests_per_second * elapsed
}

/// A peer after a request at time `now`.
pub open spec fn after_request(config: PeerFilterConfig, b: PeerBehavior, now: u64) -> PeerBehavior {
    if banned_at(b, now) {
        b
    } else {
        let w = in_window(config, PeerBehavior { banned_until: None, ..b }, now);
        let c = PeerBehavior {
            request_count: (w.request_count + 1) as u32,
            last_request: now,
            ..w
        };
        if too_fast(config, c, now) {
            banned(config, c, now)
        } else {
            c
        }
    }
}

/// Whether a request at time `now` is refused: the peer is banned, or is banned for this request.
pub open spec fn refused(config: PeerFilterConfig, b: PeerBehavior, now: u64) -> bool {
    banned_at(b, now) || after_request(config, b, now).ban_count != b.ban_count
}

/// A peer after an invalid token at time `now`.
pub open spec fn after_token_failure(
    config: PeerFilterConfig,
    b: PeerBehavior,
    now: u64,
) -> PeerBehavior {
    let c = PeerBehavior {
        token_failures: (b.token_failures + 1) as u32,
        last_request: now,
        ..b
    };
    if c.token_failures >= config.max_token_failures {
        banned(config, c, now)
    } else {
        c
    }
}

/// A peer after it asked about an infohash at time `now`.
pub open spec fn after_infohash_query(
    config: PeerFilterConfig,
    b: PeerBehavior,
    now: u64,
) -> PeerBehavior {
    let w = in_window(config, b, now);
    let c = PeerBehavior { unique_infohashes: (w.unique_infohashes + 1) as u32, ..w };
    if c.unique_infohashes > config.max_unique_infohashes {
        banned(config, c, now)
    } else {
        c
    }
}

/// The peers that did something less than `ttl` seconds before `now`.
pub open spec fn remembered(m: Map<IpAddr, PeerBehavior>, ttl: u64, now: u64) -> Map<
    IpAddr,
    PeerBehavior,
> {
    m.restrict(
        Set::new(
            |ip: IpAddr| m.contains_key(ip) && now - m[ip].last_request < ttl * NANOS_PER_SEC,
        ),
    )
}

/// How many of the peers are banned at time `now`.
pub open spec fn banned_count(s: Seq<(IpAddr, PeerBehavior)>, now: u64) -> nat
    decreases s.len(),
{
    if s.len() == 0 {
        0
    } else {
        banned_count(s.drop_last(), now) + if banned_at(s.last().1, now) {
            1nat
        } else {
            0
        }
    }
}

/// How many times the peers were banned.
pub open spec fn bans_in(s: Seq<(IpAddr, PeerBehavior)>) -> nat
    decreases s.len(),
{
    if s.len() == 0 {
        0
    } else {
        bans_in(s.drop_last()) + s.last().1.ban_count as nat
    }
}

/// A filter. Its times are nanoseconds since it was set up.
pub struct PeerFilter {
    pub started: Instant,
    pub behaviors: VecMap<IpAddr, PeerBehavior>,
    pub config: PeerFilterConfig,
}

/// A ban of a peer.
fn ban(config: &PeerFilterConfig, b: PeerBehavior, now: u64) -> (r: PeerBehavior)
    requires
        config.initial_ban_secs * 32 <= u64::MAX,
        b.ban_count < u32::MAX,
    ensures
        r == banned(*config, b, now),
{
    proof {
        vstd::arithmetic::power2::lemma2_to64();
    }
    let factor: u64 = if b.ban_count == 0 {
        1
    } else if b.ban_count == 1 {
        2
    } else if b.ban_count == 2 {
        4
    } else if b.ban_count == 3 {
        8
    } else if b.ban_count == 4 {
        16
    } else {
        32
    };
    assert(config.initial_ban_secs * factor <= config.initial_ban_secs * 32) by (nonlinear_arith)
        requires
            factor <= 32,
    ;
    let doubled: u64 = config.initial_ban_secs * factor;
    let secs: u64 = if doubled < config.max_ban_secs {
        doubled
    } else {
        config.max_ban_secs
    };
    assert(secs == ban_secs(*config, b.ban_count));
    let mut c: PeerBehavior = b;
    c.banned_until = Some(now as u128 + nanos_of(secs));
    c.ban_count = c.ban_count + 1;
    c.token_failures = 0;
    c
}

/// Starts counting again if the window is over.
fn renew_window(config: &PeerFilterConfig, b: PeerBehavior, now: u64) -> (r: PeerBehavior)
    ensures
        r == in_window(*config, b, now),
{
    let mut c: PeerBehavior = b;
    let window: u128 = nanos_of(config.window_secs);
    if now > b.window_start && (now - b.window_start) as u128 > window {
        c.window_start = now;
        c.request_count = 0;
        c.unique_infohashes = 0;
    }
    c
}

impl PeerFilter {
    /// A filter that knows no peers.
    pub fn new(config: PeerFilterConfig) -> (r: PeerFilter)
        ensures
            r.config == config,
            r.behaviors@ == Map::<IpAddr, PeerBehavior>::empty(),
    {
        PeerFilter { started: instant_now(), behaviors: VecMap::new(), config }
    }

    /// What is known of a peer at time `now`.
    pub open spec fn behavior(&self, ip: IpAddr, now: u64) -> PeerBehavior {
        if self.behaviors@.contains_key(ip) {
            self.behaviors@[ip]
        } else {
            blank(now)
        }
    }

    /// Whether a peer is banned at time `now`.
    pub open spec fn bans(&self, ip: IpAddr, now: u64) -> bool {
        self.behaviors@.contains_key(ip) && banned_at(self.behaviors@[ip], now)
    }

    /// Whether `list` holds the peers that are banned at time `now`, each once, with the ends of
    /// their bans.
    pub open spec fn lists_bans(&self, list: Seq<(IpAddr, u128)>, now: u64) -> bool {
        &&& forall|i: int|
            0 <= i < list.len() ==> self.bans((#[trigger] list[i]).0, now)
                && self.behaviors@[list[i].0].banned_until == Some(list[i].1)
        &&& forall|ip: IpAddr| #[trigger]
            self.bans(ip, now) ==> exists|i: int|
                0 <= i < list.len() && (#[trigger] list[i]).0 == ip
        &&& forall|i: int, j: int|
            #![trigger list[i], list[j]]
            0 <= i < j < list.len() ==> list[i].0 != list[j].0
        &&& list.len() == banned_count(self.behaviors.seq(), now)
    }

    /// Whether the counts of a peer can go up, and bans can be computed.
    pub open spec fn can_count(&self, ip: IpAddr) -> bool {
        &&& self.config.initial_ban_secs * 32 <= u64::MAX
        &&& self.behaviors@.contains_key(ip) ==> {
            &&& self.behaviors@[ip].request_count < u32::MAX
            &&& self.behaviors@[ip].token_failures < u32::MAX
            &&& self.behaviors@[ip].unique_infohashes < u32::MAX
            &&& self.behaviors@[ip].ban_count < u32::MAX
        }
    }

    fn lookup(&self, ip: &IpAddr, now: u64) -> (r: PeerBehavior)
        ensures
            r == self.behavior(*ip, now),
    {
        match self.behaviors.get(ip) {
            Some(b) => *b,
            None => PeerBehavior {
                request_count: 0,
                window_start: now,
                token_failures: 0,
                unique_infohashes: 0,
                last_request: now,
                banned_until: None,
                ban_count: 0,
            },
        }
    }

    /// Whether a peer is banned at time `now`.
    pub fn is_banned_at(&self, ip: &IpAddr, now: u64) -> (r: bool)
        ensures
            r == self.bans(*ip, now),
    {
        match self.behaviors.get(ip) {
            Some(b) => match b.banned_until {
                Some(until) => until > now as u128,
                None => false,
            },
            None => false,
        }
    }

    /// Whether a peer is banned.
    pub fn is_banned(&self, ip: &IpAddr) -> (r: bool)
        ensures
            exists|now: Instant| r == #[trigger] self.bans(*ip, nanos_since(self.started, now)),
    {
        self.is_banned_at(ip, elapsed_nanos(&self.started))
    }

    /// Counts a request at time `now`. Returns whether the peer is banned.
    pub fn record_request_at(&mut self, ip: &IpAddr, now: u64) -> (r: bool)
        requires
            old(self).can_count(*ip),
        ensures
            final(self).config == old(self).config,
            final(self).started == old(self).started,
            final(self).behaviors@ == old(self).behaviors@.insert(
                *ip,
                after_request(old(self).config, old(self).behavior(*ip, now), now),
            ),
            r == refused(old(self).config, old(self).behavior(*ip, now), now),
    {
        let known: PeerBehavior = self.lookup(ip, now);
        let mut b: PeerBehavior = known;
        if let Some(until) = b.banned_until {
            if until > now as u128 {
                self.behaviors.insert(*ip, b);
                return true;
            }
            b.banned_until = None;
        }
        let mut b: PeerBehavior = renew_window(&self.config, b, now);
        b.request_count = b.request_count + 1;
        b.last_request = now;
        let since: u64 = if now > b.window_start {
            now - b.window_start
        } else {
            0
        };
        let elapsed: u64 = if since > NANOS_PER_SEC {
            since
        } else {
            NANOS_PER_SEC
        };
        let limit: u128 = allowed(self.config.max_requests_per_second, elapsed);
        if b.request_count as u128 * 1_000_000_000 > limit {
            let c: PeerBehavior = ban(&self.config, b, now);
            self.behaviors.insert(*ip, c);
            return true;
        }
        self.behaviors.insert(*ip, b);
        false
    }

    /// Counts a request. Returns whether the peer is banned.
    pub fn record_request(&mut self, ip: &IpAddr) -> (r: bool)
        requires
            old(self).can_count(*ip),
        ensures
            final(self).config == old(self).config,
            final(self).started == old(self).started,
            exists|now: Instant|
                r == refused(
                    old(self).config,
                    old(self).behavior(*ip, nanos_since(old(self).started, now)),
                    nanos_since(old(self).started, now),
                ) && final(
                    self).behaviors@ == old(self).behaviors@.insert(
                    *ip,
                    #[trigger] after_request(
                        old(self).config,
                        old(self).behavior(*ip, nanos_since(old(self).started, now)),
                        nanos_since(old(self).started, now),
                    ),
                ),
    {
        let now: u64 = elapsed_nanos(&self.started);
        self.record_request_at(ip, now)
    }

    /// Counts an invalid token at time `now`. Returns whether the peer is banned for it.
    pub fn record_token_failure_at(&mut self, ip: &IpAddr, now: u64) -> (r: bool)
        requires
            old(self).can_count(*ip),
        ensures
            final(self).config == old(self).config,
            final(self).started == old(self).started,
            final(self).behaviors@ == old(self).behaviors@.insert(
                *ip,
                after_token_failure(old(self).config, old(self).behavior(*ip, now), now),
            ),
            r == (old(self).behavior(*ip, now).token_failures + 1 >= old(
                self,
            ).config.max_token_failures),
    {
        let mut b: PeerBehavior = self.lookup(ip, now);
        b.token_failures = b.token_failures + 1;
        b.last_request = now;
        if b.token_failures >= self.config.max_token_failures {
            let c: PeerBehavior = ban(&self.config, b, now);
            self.behaviors.insert(*ip, c);
            return true;
        }
        self.behaviors.insert(*ip, b);
        false
    }

    /// Counts an invalid token. Returns whether the peer is banned for it.
    pub fn record_token_failure(&mut self, ip: &IpAddr) -> (r: bool)
        requires
            old(self).can_count(*ip),
        ensures
            final(self).config == old(self).config,
            final(self).started == old(self).started,
            exists|now: Instant|
                final(self).behaviors@ == old(self).behaviors@.insert(
                    *ip,
                    #[trigger] after_token_failure(
                        old(self).config,
                        old(self).behavior(*ip, nanos_since(old(self).started, now)),
                        nanos_since(old(self).started, now),
                    ),
                ),
            r == ((if old(self).behaviors@.contains_key(*ip) {
                old(self).behaviors@[*ip].token_failures as int
            } else {
                0
            }) + 1 >= old(self).config.max_token_failures),
    {
        let now: u64 = elapsed_nanos(&self.started);
        self.record_token_failure_at(ip, now)
    }

    /// Notes at time `now` that a peer asked about an infohash. Returns whether the peer is banned
    /// for it.
    pub fn record_infohash_query_at(&mut self, ip: &IpAddr, now: u64) -> (r: bool)
        requires
            old(self).can_count(*ip),
        ensures
            final(self).config == old(self).config,
            final(self).started == old(self).started,
            final(self).behaviors@ == old(self).behaviors@.insert(
                *ip,
                after_infohash_query(old(self).config, old(self).behavior(*ip, now), now),
            ),
            r == (in_window(
                old(self).config,
                old(self).behavior(*ip, now),
                now,
            ).unique_infohashes + 1 > old(self).config.max_unique_infohashes),
    {
        let known: PeerBehavior = self.lookup(ip, now);
        let mut b: PeerBehavior = renew_window(&self.config, known, now);
        b.unique_infohashes = b.unique_infohashes + 1;
        if b.unique_infohashes > self.config.max_unique_infohashes {
            let c: PeerBehavior = ban(&self.config, b, now);
            self.behaviors.insert(*ip, c);
            return true;
        }
        self.behaviors.insert(*ip, b);
        false
    }

    /// Notes that a peer asked about an infohash. Returns whether the peer is banned for it.
    pub fn record_infohash_query(&mut self, ip: &IpAddr) -> (r: bool)
        requires
            old(self).can_count(*ip),
        ensures
            final(self).config == old(self).config,
            final(self).started == old(self).started,
            exists|now: Instant|
                r == (in_window(
                    old(self).config,
                    old(self).behavior(*ip, nanos_since(old(self).started, now)),
                    nanos_since(old(self).started, now),
                ).unique_infohashes + 1 > old(self).config.max_unique_infohashes) && final(
                    self).behaviors@ == old(self).behaviors@.insert(
                    *ip,
                    #[trigger] after_infohash_query(
                        old(self).config,
                        old(self).behavior(*ip, nanos_since(old(self).started, now)),
                        nanos_since(old(self).started, now),
                    ),
                ),
    {
        let now: u64 = elapsed_nanos(&self.started);
        self.record_infohash_query_at(ip, now)
    }

    /// Ends the ban of a peer.
    pub fn unban(&mut self, ip: &IpAddr)
        ensures
            final(self).config == old(self).config,
            final(self).started == old(self).started,
            final(self).behaviors@ == if old(self).behaviors@.contains_key(*ip) {
                old(self).behaviors@.insert(
                    *ip,
                    PeerBehavior { banned_until: None, ..old(self).behaviors@[*ip] },
                )
            } else {
                old(self).behaviors@
            },
    {
        let known: Option<PeerBehavior> = match self.behaviors.get(ip) {
            Some(b) => Some(*b),
            None => None,
        };
        if let Some(b) = known {
            let mut c: PeerBehavior = b;
            c.banned_until = None;
            self.behaviors.insert(*ip, c);
        }
    }

    /// The peers that are banned at time `now`, with the ends of their bans.
    pub fn banned_peers_at(&self, now: u64) -> (r: Vec<(IpAddr, u128)>)
        ensures
            self.lists_bans(r@, now),
    {
        let n: usize = self.behaviors.len();
        let ghost all = self.behaviors.seq();
        let mut out: Vec<(IpAddr, u128)> = Vec::new();
        let ghost mut at: Seq<int> = Seq::empty();
        proof {
            lemma_map_of(all);
        }
        let mut i: usize = 0;
        while i < n
            invariant
                i <= n == all.len(),
                all == self.behaviors.seq(),
                out@.len() == at.len() == banned_count(all.take(i as int), now),
                forall|k: int|
                    0 <= k < at.len() ==> 0 <= #[trigger] at[k] < i && out@[k].0 == all[at[k]].0
                        && all[at[k]].1.banned_until == Some(out@[k].1) && out@[k].1 > now,
                forall|k: int, m: int| #![trigger at[k], at[m]] 0 <= k < m < at.len() ==> at[k] < at[m],
                forall|j: int|
                    0 <= j < i && banned_at((#[trigger] all[j]).1, now) ==> exists|k: int|
                        0 <= k < at.len() && #[trigger] at[k] == j,
            decreases n - i,
        {
            let ghost before = at;
            proof {
                assert(all.take(i + 1).drop_last() =~= all.take(i as int));
                assert(all.take(i + 1).last() == all[i as int]);
            }
            if let Some(until) = self.behaviors.value_at(i).banned_until {
                if until > now as u128 {
                    out.push((*self.behaviors.key_at(i), until));
                    proof {
                        at = at.push(i as int);
                    }
                }
            }
            proof {
                assert forall|j: int|
                    0 <= j < i + 1 && banned_at((#[trigger] all[j]).1, now) implies exists|k: int|
                    0 <= k < at.len() && #[trigger] at[k] == j by {
                    if j < i {
                        let k = choose|k: int| 0 <= k < before.len() && #[trigger] before[k] == j;
                        assert(at[k] == j);
                    } else {
                        assert(at[at.len() - 1] == j);
                    }
                }
            }
            i += 1;
        }
        proof {
            assert(all.take(i as int) =~= all);
            let m = self.behaviors@;
            assert forall|k: int| 0 <= k < out@.len() implies m.contains_key((#[trigger] out@[k]).0)
                && m[out@[k].0].banned_until == Some(out@[k].1) && out@[k].1 > now by {
                let j = at[k];
                assert(all[j].0@ == out@[k].0);
            }
            assert forall|ip: IpAddr| #[trigger]
                m.contains_key(ip) && banned_at(m[ip], now) implies exists|k: int|
                0 <= k < out@.len() && (#[trigger] out@[k]).0 == ip by {
                let j = choose|j: int| 0 <= j < all.len() && (#[trigger] all[j]).0@ == ip;
                let k = choose|k: int| 0 <= k < at.len() && #[trigger] at[k] == j;
                assert(out@[k].0 == ip);
            }
            assert forall|k: int, l: int|
                #![trigger out@[k], out@[l]]
                0 <= k < l < out@.len() implies out@[k].0 != out@[l].0 by {
                assert(at[k] < at[l]);
                assert(all[at[k]].0@ != all[at[l]].0@);
            }
        }
        out
    }

    /// The peers that are banned, with the ends of their bans.
    pub fn banned_peers(&self) -> (r: Vec<(IpAddr, u128)>)
        ensures
            exists|now: Instant| #[trigger] self.lists_bans(r@, nanos_since(self.started, now)),
    {
        self.banned_peers_at(elapsed_nanos(&self.started))
    }

    /// Forgets the peers that have done nothing for long at time `now`. Returns how many.
    pub fn cleanup_at(&mut self, now: u64) -> (r: usize)
        ensures
            final(self).config == old(self).config,
            final(self).started == old(self).started,
            final(self).behaviors@ == remembered(
                old(self).behaviors@,
                old(self).config.record_ttl_secs,
                now,
            ),
            r == old(self).behaviors@.len() - final(self).behaviors@.len(),
    {
        let n: usize = self.behaviors.len();
        let ghost before = self.behaviors.seq();
        let ghost all = self.behaviors@;
        let ttl: u64 = self.config.record_ttl_secs;
        let limit: u128 = nanos_of(ttl);
        let mut keep: Vec<bool> = Vec::with_capacity(n);
        let mut i: usize = 0;
        while i < n
            invariant
                i <= n == before.len(),
                before == self.behaviors.seq(),
                limit == ttl * NANOS_PER_SEC,
                keep@.len() == i,
                forall|j: int|
                    0 <= j < i ==> keep@[j] == (now - (#[trigger] before[j]).1.last_request < ttl
                        * NANOS_PER_SEC),
            decreases n - i,
        {
            let last: u64 = self.behaviors.value_at(i).last_request;
            let recent: bool = if last > now {
                true
            } else {
                ((now - last) as u128) < limit
            };
            keep.push(recent);
            i += 1;
        }
        proof {
            lemma_map_of(before);
        }
        self.behaviors.retain(&keep);
        proof {
            let left = self.behaviors@;
            assert forall|k: IpAddr| #[trigger] left.contains_key(k) <==> remembered(
                all,
                ttl,
                now,
            ).contains_key(k) by {
                if all.contains_key(k) {
                    let j = choose|j: int| 0 <= j < before.len() && (#[trigger] before[j]).0@ == k;
                    assert(left.contains_key(before[j].0@) == keep@[j]);
                    assert(all[k] == before[j].1);
                }
            }
            assert(left =~= remembered(all, ttl, now));
        }
        n - self.behaviors.len()
    }

    /// Forgets the peers that have done nothing for long. Returns how many.
    pub fn cleanup(&mut self) -> (r: usize)
        ensures
            final(self).config == old(self).config,
            final(self).started == old(self).started,
            exists|now: Instant|
                final(self).behaviors@ == #[trigger] remembered(
                    old(self).behaviors@,
                    old(self).config.record_ttl_secs,
                    nanos_since(old(self).started, now),
                ),
            r == old(self).behaviors@.len() - final(self).behaviors@.len(),
    {
        let now: u64 = elapsed_nanos(&self.started);
        self.cleanup_at(now)
    }

    /// How many peers are known.
    pub fn len(&self) -> (r: usize)
        ensures
            r == self.behaviors@.len(),
    {
        self.behaviors.len()
    }

    /// Whether no peers are known.
    pub fn is_empty(&self) -> (r: bool)
        ensures
            r == (self.behaviors@.len() == 0),
    {
        self.behaviors.len() == 0
    }

    /// What the filter has seen, at time `now`.
    pub fn stats_at(&self, now: u64) -> (r: PeerFilterStats)
        requires
            bans_in(self.behaviors.seq()) <= u32::MAX,
        ensures
            r.total_tracked == self.behaviors@.len(),
            r.currently_banned == banned_count(self.behaviors.seq(), now),
            r.total_bans == bans_in(self.behaviors.seq()),
    {
        let n: usize = self.behaviors.len();
        let ghost all = self.behaviors.seq();
        let mut banned: usize = 0;
        let mut bans: u32 = 0;
        let mut i: usize = 0;
        while i < n
            invariant
                i <= n == all.len(),
                all == self.behaviors.seq(),
                bans_in(all) <= u32::MAX,
                banned == banned_count(all.take(i as int), now),
                banned <= i,
                bans == bans_in(all.take(i as int)),
            decreases n - i,
        {
            proof {
                assert(all.take(i + 1).drop_last() =~= all.take(i as int));
                assert(all.take(i + 1).last() == all[i as int]);
                lemma_bans_prefix(all, i + 1);
            }
            let b: PeerBehavior = *self.behaviors.value_at(i);
            if let Some(until) = b.banned_until {
                if until > now as u128 {
                    banned = banned + 1;
                }
            }
            bans = bans + b.ban_count;
            i += 1;
        }
        assert(all.take(i as int) =~= all);
        PeerFilterStats { total_tracked: n, currently_banned: banned, total_bans: bans as usize }
    }

    /// What the filter has seen.
    pub fn stats(&self) -> (r: PeerFilterStats)
        requires
            bans_in(self.behaviors.seq()) <= u32::MAX,
        ensures
            r.total_tracked == self.behaviors@.len(),
            exists|now: Instant| r.currently_banned == #[trigger] banned_count(
                self.behaviors.seq(),
                nanos_since(self.started, now),
            ),
            r.total_bans == bans_in(self.behaviors.seq()),
    {
        self.stats_at(elapsed_nanos(&self.started))
    }
}

impl Default for PeerFilter {
    fn default() -> (r: PeerFilter)
        ensures
            r.config.max_requests_per_second == 50,
            r.config.max_token_failures == 5,
            r.behaviors@ == Map::<IpAddr, PeerBehavior>::empty(),
    {
        PeerFilter::new(PeerFilterConfig::default())
    }
}

/// How many requests, in billionths, are allowed in `elapsed` nanoseconds.
fn allowed(max_per_second: u32, elapsed: u64) -> (r: u128)
    ensures
        r == max_per_second * elapsed,
{
    assert(max_per_second * elapsed <= u32::MAX * u64::MAX) by (nonlinear_arith)
        requires
            max_per_second <= u32::MAX,
            elapsed <= u64::MAX,
    ;
    max_per_second as u128 * elapsed as u128
}

proof fn lemma_bans_prefix(s: Seq<(IpAddr, PeerBehavior)>, i: int)
    requires
        0 <= i <= s.len(),
    ensures
        bans_in(s.take(i)) <= bans_in(s),
    decreases s.len() - i,
{
    if i < s.len() {
        lemma_bans_prefix(s, i + 1);
        assert(s.take(i + 1).drop_last() =~= s.take(i));
    } else {
        assert(s.take(i) =~= s);
    }
}

/// A peer that is banned once more is banned for no shorter time, and for twice the time as long as
/// that is within the limit.
pub proof fn law_bans_grow(config: PeerFilterConfig, ban_count: u32)
    requires
        ban_count < u32::MAX,
    ensures
        ban_secs(config, ban_count) <= ban_secs(config, (ban_count + 1) as u32)
            <= config.max_ban_secs,
        ban_count < MAX_DOUBLINGS && 2 * ban_secs(config, ban_count) <= config.max_ban_secs
            && ban_secs(config, ban_count) < config.max_ban_secs ==> ban_secs(
            config,
            (ban_count + 1) as u32,
        ) == 2 * ban_secs(config, ban_count),
{
    vstd::arithmetic::power2::lemma2_to64();
    let a = config.initial_ban_secs as int;
    let k = if ban_count < MAX_DOUBLINGS {
        ban_count as nat
    } else {
        5
    };
    let l = if ban_count + 1 < MAX_DOUBLINGS {
        (ban_count + 1) as nat
    } else {
        5
    };
    if k < l {
        vstd::arithmetic::power2::lemma_pow2_unfold(l);
        assert(a * pow2(l) == 2 * (a * pow2(k))) by (nonlinear_arith)
            requires
                pow2(l) == 2 * pow2(k),
        ;
        assert(a * pow2(k) >= 0) by (nonlinear_arith)
            requires
                a >= 0,
        ;
    }
}

/// A banned peer stays banned until its time is over, whatever it asks for.
pub proof fn law_ban_lasts(config: PeerFilterConfig, b: PeerBehavior, now: u64)
    requires
        banned_at(b, now),
    ensures
        after_request(config, b, now) == b,
        banned_at(after_infohash_query(config, b, now), now) || ban_secs(config, b.ban_count) == 0,
{
}

/// A peer whose ban is over is counted again from where it stood.
pub proof fn law_ban_ends(config: PeerFilterConfig, b: PeerBehavior, now: u64)
    requires
        b.banned_until matches Some(until) && until <= now,
        !too_fast(
            config,
            (PeerBehavior {
                request_count: (in_window(config, b, now).request_count + 1) as u32,
                ..in_window(config, b, now)
            }),
            now,
        ),
    ensures
        after_request(config, b, now).banned_until is None,
        after_request(config, b, now).ban_count == b.ban_count,
{
}

/// A first ban lasts as long as is configured; each further one lasts twice as long as the one
/// before, up to 32 times as long and never longer than the limit. A banned peer starts over with
/// its invalid tokens.
pub proof fn law_how_long_bans_last(config: PeerFilterConfig, b: PeerBehavior, now: u64)
    requires
        b.ban_count < u32::MAX,
    ensures
        ({
            let r = banned(config, b, now);
            let limit = config.max_ban_secs as int;
            let times: int = if b.ban_count == 0 {
                1
            } else if b.ban_count == 1 {
                2
            } else if b.ban_count == 2 {
                4
            } else if b.ban_count == 3 {
                8
            } else if b.ban_count == 4 {
                16
            } else {
                32
            };
            &&& r.banned_until is Some
            &&& times * config.initial_ban_secs <= limit ==> r.banned_until->0 - now == 1_000_000_000
                * (times * config.initial_ban_secs)
            &&& times * config.initial_ban_secs >= limit ==> r.banned_until->0 - now == 1_000_000_000
                * limit
            &&& r.ban_count == b.ban_count + 1
            &&& r.token_failures == 0
            &&& r.request_count == b.request_count
            &&& r.unique_infohashes == b.unique_infohashes
            &&& r.window_start == b.window_start
            &&& r.last_request == b.last_request
        }),
{
    vstd::arithmetic::power2::lemma2_to64();
    let a = config.initial_ban_secs as int;
    assert(a * 1 == a && a * 2 == 2 * a && a * 4 == 4 * a && a * 8 == 8 * a && a * 16 == 16 * a
        && a * 32 == 32 * a);
    assert(ban_secs(config, b.ban_count) <= u64::MAX);
    assert(ban_secs(config, b.ban_count) >= 0);
}

/// A request of a peer that is not banned is counted: within the window of the earlier ones, or as
/// the first of a new window if the old one is over. The peer is refused, and banned, where that
/// makes more requests than are allowed for the time since the window began, at least a second.
pub proof fn law_requests_are_limited(config: PeerFilterConfig, b: PeerBehavior, now: u64)
    requires
        b.request_count < u32::MAX,
        b.ban_count < u32::MAX,
    ensures
        ({
            let r = after_request(config, b, now);
            let over = now - b.window_start > 1_000_000_000 * config.window_secs;
            let began = if over {
                now
            } else {
                b.window_start
            };
            let count: int = if over {
                1
            } else {
                b.request_count + 1
            };
            let allowed = if now - began > 1_000_000_000 {
                config.max_requests_per_second * (now - began)
            } else {
                config.max_requests_per_second * 1_000_000_000
            };
            if b.banned_until matches Some(until) && until > now {
                &&& refused(config, b, now)
                &&& r == b
            } else {
                &&& r.window_start == began
                &&& r.request_count == count
                &&& r.last_request == now
                &&& r.unique_infohashes == if over {
                    0
                } else {
                    b.unique_infohashes
                }
                &&& refused(config, b, now) <==> count * 1_000_000_000 > allowed
                &&& refused(config, b, now) ==> r.banned_until is Some && r.ban_count == b.ban_count
                    + 1
                &&& !refused(config, b, now) ==> r.banned_until is None && r.ban_count
                    == b.ban_count && r.token_failures == b.token_failures
            }
        }),
{
}

/// An invalid token is counted. The one that reaches the limit bans the peer, and counting starts
/// over.
pub proof fn law_invalid_tokens_are_limited(config: PeerFilterConfig, b: PeerBehavior, now: u64)
    requires
        b.token_failures < u32::MAX,
        b.ban_count < u32::MAX,
    ensures
        ({
            let r = after_token_failure(config, b, now);
            &&& r.last_request == now
            &&& b.token_failures + 1 < config.max_token_failures ==> r.token_failures
                == b.token_failures + 1 && r.ban_count == b.ban_count && r.banned_until
                == b.banned_until
            &&& b.token_failures + 1 >= config.max_token_failures ==> r.token_failures == 0
                && r.ban_count == b.ban_count + 1 && r.banned_until is Some
            &&& r.request_count == b.request_count
            &&& r.unique_infohashes == b.unique_infohashes
        }),
{
}

/// A question about an infohash is counted in its window. The one that goes over the limit bans the
/// peer.
pub proof fn law_infohash_queries_are_limited(config: PeerFilterConfig, b: PeerBehavior, now: u64)
    requires
        b.unique_infohashes < u32::MAX,
        b.ban_count < u32::MAX,
    ensures
        ({
            let r = after_infohash_query(config, b, now);
            let over = now - b.window_start > 1_000_000_000 * config.window_secs;
            let count: int = if over {
                1
            } else {
                b.unique_infohashes + 1
            };
            &&& r.unique_infohashes == count
            &&& in_window(config, b, now).unique_infohashes + 1 == count
            &&& r.request_count == if over {
                0
            } else {
                b.request_count
            }
            &&& count > config.max_unique_infohashes ==> r.ban_count == b.ban_count + 1
                && r.banned_until is Some
            &&& count <= config.max_unique_infohashes ==> r.ban_count == b.ban_count
                && r.banned_until == b.banned_until
        }),
{
}

/// Nobody is banned whose ban is over or who was never banned, and nothing is held against a peer
/// that was not seen before.
pub proof fn law_who_is_banned(filter: PeerFilter, ip: IpAddr, now: u64)
    ensures
        filter.bans(ip, now) <==> filter.behaviors@.contains_key(ip)
            && filter.behaviors@[ip].banned_until is Some
            && filter.behaviors@[ip].banned_until->0 > now,
        filter.behaviors@.contains_key(ip) ==> filter.behavior(ip, now) == filter.behaviors@[ip],
        !filter.behaviors@.contains_key(ip) ==> ({
            let b = filter.behavior(ip, now);
            &&& b.request_count == 0 && b.token_failures == 0 && b.unique_infohashes == 0
            &&& b.ban_count == 0 && b.banned_until is None
            &&& b.window_start == now && b.last_request == now
        }),
{
}

/// A peer is forgotten if and only if it has done nothing for as long as it is to be remembered;
/// what is known of the others stays as it was.
pub proof fn law_quiet_peers_are_forgotten(
    m: Map<IpAddr, PeerBehavior>,
    ttl: u64,
    now: u64,
    ip: IpAddr,
)
    ensures
        remembered(m, ttl, now).contains_key(ip) <==> m.contains_key(ip) && now
            - m[ip].last_request < 1_000_000_000 * ttl,
        remembered(m, ttl, now).contains_key(ip) ==> remembered(m, ttl, now)[ip] == m[ip],
{
}

/// As many peers count as banned as have a ban that is not over, and the bans of all add up.
pub proof fn law_bans_are_counted(
    s: Seq<(IpAddr, PeerBehavior)>,
    p: (IpAddr, PeerBehavior),
    now: u64,
)
    ensures
        banned_count(s.push(p), now) - banned_count(s, now) == if p.1.banned_until is Some
            && p.1.banned_until->0 > now {
            1int
        } else {
            0int
        },
        bans_in(s.push(p)) - bans_in(s) == p.1.ban_count,
        banned_count(Seq::empty(), now) == 0,
        bans_in(Seq::empty()) == 0,
{
    assert(s.push(p).drop_last() =~= s);
}

} // verus!
