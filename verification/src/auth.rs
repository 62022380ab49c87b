//! Who may make requests, and how many.

use crate::bytes::same_text;
use crate::clock::{elapsed_nanos, instant_now, nanos_of, nanos_since, NANOS_PER_SEC};
use crate::text::{chars_of, occurs_at, part_at, sub_text, texts};
use crate::vecmap::VecMap;
use std::time::Instant;
use vstd::prelude::*;
use vstd::string::*;

verus! {

/// Keys and limits.
#[derive(Debug, Clone)]
pub struct AuthConfig {
    /// Whether requests need a key.
    pub enabled: bool,
    /// The keys that are good. Without any, no request needs one.
    pub api_keys: Vec<String>,
    /// Requests per second, zero for no limit.
    pub rate_limit_per_second: u32,
    /// Seconds over which requests are counted.
    pub rate_limit_window_secs: u64,
    pub audit_log_enabled: bool,
}

impl Default for AuthConfig {
    fn default() -> (r: AuthConfig)
        ensures
            !r.enabled,
            r.api_keys@ == Seq::<String>::empty(),
            r.rate_limit_per_second == 0,
            r.rate_limit_window_secs == 60,
            r.audit_log_enabled,
    {
        AuthConfig {
            enabled: false,
            api_keys: Vec::new(),
            rate_limit_per_second: 0,
            rate_limit_window_secs: 60,
            audit_log_enabled: true,
        }
    }
}

/// The requests of a client.
#[derive(Debug, Clone, Copy, PartialEq, Eq, Structural)]
pub struct RateLimitState {
    /// When the present window began.
    pub window_start: u64,
    /// Requests in it.
    pub count: u32,
}

/// What becomes of a request.
#[derive(Debug, Clone, Copy, PartialEq, Eq, Structural)]
pub enum Admission {
    Admitted,
    /// The key is missing or not good.
    Unauthorized,
    /// The client makes too many requests.
    TooManyRequests,
}

/// The key in a request: the header for keys comes first, then a bearer token.
pub open spec fn presented_key(
    api_key: Option<Seq<char>>,
    authorization: Option<Seq<char>>,
) -> Option<Seq<char>> {
    match api_key {
        Some(k) => Some(k),
        None => match authorization {
            Some(a) => if occurs_at(a, "Bearer "@, 0) {
                Some(a.skip(7))
            } else {
                None
            },
            None => None,
        },
    }
}

/// Whether a key is good enough.
pub open spec fn key_is_good(config: AuthConfig, key: Option<Seq<char>>) -> bool {
    !config.enabled || config.api_keys@.len() == 0 || (key matches Some(k) && texts(
        config.api_keys@,
    ).contains(k))
}

/// How many requests a client may make in a window.
pub open spec fn max_requests(config: AuthConfig) -> int {
    config.rate_limit_per_second * (config.rate_limit_window_secs % 0x1_0000_0000)
}

/// The requests of a client at time `now`, counted from the start again if the window is over.
pub open spec fn in_window(
    config: AuthConfig,
    state: Option<RateLimitState>,
    now: u64,
) -> RateLimitState {
    match state {
        Some(s) => if now - s.window_start > config.rate_limit_window_secs * NANOS_PER_SEC {
            RateLimitState { window_start: now, count: 0 }
        } else {
            s
        },
        None => RateLimitState { window_start: now, count: 0 },
    }
}

/// Whether a client may make one more request.
pub open spec fn has_room(config: AuthConfig, state: Option<RateLimitState>, now: u64) -> bool {
    config.rate_limit_per_second == 0 || in_window(config, state, now).count < max_requests(config)
}

/// The requests of a client after one more at time `now`.
pub open spec fn counted(
    config: AuthConfig,
    state: Option<RateLimitState>,
    now: u64,
) -> RateLimitState {
    let s = in_window(config, state, now);
    if s.count < max_requests(config) {
        RateLimitState { count: (s.count + 1) as u32, ..s }
    } else {
        s
    }
}

/// What is known of a client.
pub open spec fn known(m: Map<Seq<char>, RateLimitState>, client: Seq<char>) -> Option<
    RateLimitState,
> {
    if m.contains_key(client) {
        Some(m[client])
    } else {
        None
    }
}

/// The clients after a request of one of them at time `now`.
pub open spec fn limits_after(
    config: AuthConfig,
    m: Map<Seq<char>, RateLimitState>,
    client: Seq<char>,
    now: u64,
) -> Map<Seq<char>, RateLimitState> {
    if config.rate_limit_per_second == 0 {
        m
    } else {
        m.insert(client, counted(config, known(m, client), now))
    }
}

/// The text in an optional header.
pub open spec fn header_text(h: Option<&str>) -> Option<Seq<char>> {
    match h {
        Some(t) => Some(t@),
        None => None,
    }
}

/// Keys, limits and the requests of the clients. Times are nanoseconds since it was set up.
pub struct AuthState {
    pub started: Instant,
    pub config: AuthConfig,
    pub rate_limits: VecMap<String, RateLimitState>,
}

impl AuthState {
    /// A state without any requests.
    pub fn new(config: AuthConfig) -> (r: AuthState)
        ensures
            r.config == config,
            r.rate_limits@ == Map::<Seq<char>, RateLimitState>::empty(),
    {
        AuthState { started: instant_now(), config, rate_limits: VecMap::new() }
    }

    /// Changes keys and limits. What was counted stays.
    pub fn update_config(&mut self, config: AuthConfig)
        ensures
            final(self).config == config,
            final(self).rate_limits == old(self).rate_limits,
            final(self).started == old(self).started,
    {
        self.config = config;
    }

    /// Whether the key in a request is good, given the headers `x-api-key` and `authorization`.
    pub fn validate_api_key(&self, api_key: Option<&str>, authorization: Option<&str>) -> (r: bool)
        ensures
            r == key_is_good(
                self.config,
                presented_key(header_text(api_key), header_text(authorization)),
            ),
    {
        if !self.config.enabled || self.config.api_keys.len() == 0 {
            return true;
        }
        proof {
            reveal_strlit("Bearer ");
        }
        let key: Option<String> = match api_key {
            Some(k) => Some(k.to_string()),
            None => match authorization {
                Some(a) => {
                    let chars: Vec<char> = chars_of(a);
                    let prefix: Vec<char> = chars_of("Bearer ");
                    if part_at(&chars, &prefix, 0) {
                        assert(a@.skip(7) =~= a@.subrange(7, a@.len() as int));
                        Some(sub_text(a, 7, chars.len()))
                    } else {
                        None
                    }
                },
                None => None,
            },
        };
        match key {
            Some(k) => self.has_key(k.as_str()),
            None => false,
        }
    }

    /// Whether a key is one of the good ones.
    fn has_key(&self, key: &str) -> (r: bool)
        ensures
            r == texts(self.config.api_keys@).contains(key@),
    {
        let ghost all = texts(self.config.api_keys@);
        let mut i: usize = 0;
        while i < self.config.api_keys.len()
            invariant
                i <= self.config.api_keys@.len() == all.len(),
                all == texts(self.config.api_keys@),
                forall|j: int| 0 <= j < i ==> #[trigger] all[j] != key@,
            decreases self.config.api_keys@.len() - i,
        {
            if same_text(self.config.api_keys[i].as_str(), key) {
                assert(all[i as int] == key@);
                return true;
            }
            i += 1;
        }
        false
    }

    /// Whether a client may make a request at time `now`. Counts it if so.
    pub fn check_rate_limit_at(&mut self, client_id: &str, now: u64) -> (r: bool)
        requires
            max_requests(old(self).config) <= u32::MAX,
        ensures
            final(self).config == old(self).config,
            final(self).started == old(self).started,
            r == has_room(old(self).config, known(old(self).rate_limits@, client_id@), now),
            final(self).rate_limits@ == limits_after(
                old(self).config,
                old(self).rate_limits@,
                client_id@,
                now,
            ),
    {
        if self.config.rate_limit_per_second == 0 {
            return true;
        }
        let per_second: u32 = self.config.rate_limit_per_second;
        let window: u32 = (self.config.rate_limit_window_secs % 0x1_0000_0000) as u32;
        assert(per_second * window == max_requests(self.config));
        let max: u32 = per_second * window;
        let id: String = client_id.to_string();
        let mut state: RateLimitState = match self.rate_limits.get(&id) {
            Some(s) => *s,
            None => RateLimitState { window_start: now, count: 0 },
        };
        let nanos: u128 = nanos_of(self.config.rate_limit_window_secs);
        if now > state.window_start && (now - state.window_start) as u128 > nanos {
            state.window_start = now;
            state.count = 0;
        }
        assert(state == in_window(self.config, known(self.rate_limits@, client_id@), now));
        if state.count >= max {
            self.rate_limits.insert(id, state);
            return false;
        }
        state.count = state.count + 1;
        self.rate_limits.insert(id, state);
        true
    }

    /// Whether a client may make a request. Counts it if so.
    pub fn check_rate_limit(&mut self, client_id: &str) -> (r: bool)
        requires
            max_requests(old(self).config) <= u32::MAX,
        ensures
            final(self).config == old(self).config,
            final(self).started == old(self).started,
            exists|now: Instant|
                r == has_room(
                    old(self).config,
                    known(old(self).rate_limits@, client_id@),
                    nanos_since(old(self).started, now),
                )
                    && final(self).rate_limits@ == #[trigger] limits_after(
                    old(self).config,
                    old(self).rate_limits@,
                    client_id@,
                    nanos_since(old(self).started, now),
                ),
    {
        let now: u64 = elapsed_nanos(&self.started);
        self.check_rate_limit_at(client_id, now)
    }

    /// What becomes of a request at time `now`. A request without a good key is not counted.
    pub fn judge_at(
        &mut self,
        api_key: Option<&str>,
        authorization: Option<&str>,
        client_id: &str,
        now: u64,
    ) -> (r: Admission)
        requires
            max_requests(old(self).config) <= u32::MAX,
        ensures
            final(self).config == old(self).config,
            final(self).started == old(self).started,
            r == if !key_is_good(
                old(self).config,
                presented_key(header_text(api_key), header_text(authorization)),
            ) {
                Admission::Unauthorized
            } else if !has_room(old(self).config, known(old(self).rate_limits@, client_id@), now) {
                Admission::TooManyRequests
            } else {
                Admission::Admitted
            },
            final(self).rate_limits@ == if r == Admission::Unauthorized {
                old(self).rate_limits@
            } else {
                limits_after(old(self).config, old(self).rate_limits@, client_id@, now)
            },
    {
        if !self.validate_api_key(api_key, authorization) {
            return Admission::Unauthorized;
        }
        if !self.check_rate_limit_at(client_id, now) {
            return Admission::TooManyRequests;
        }
        Admission::Admitted
    }

    /// What becomes of a request.
    pub fn judge(
        &mut self,
        api_key: Option<&str>,
        authorization: Option<&str>,
        client_id: &str,
    ) -> (r: Admission)
        requires
            max_requests(old(self).config) <= u32::MAX,
        ensures
            final(self).config == old(self).config,
            final(self).started == old(self).started,
            r == Admission::Unauthorized <==> !key_is_good(
                old(self).config,
                presented_key(header_text(api_key), header_text(authorization)),
            ),
            r == Admission::Unauthorized ==> final(self).rate_limits == old(self).rate_limits,
            r != Admission::Unauthorized ==> exists|now: Instant|
                (r == Admission::Admitted) == has_room(
                    old(self).config,
                    known(old(self).rate_limits@, client_id@),
                    nanos_since(old(self).started, now),
                ) && final(self).rate_limits@ == #[trigger] limits_after(
                    old(self).config,
                    old(self).rate_limits@,
                    client_id@,
                    nanos_since(old(self).started, now),
                ),
    {
        if !self.validate_api_key(api_key, authorization) {
            return Admission::Unauthorized;
        }
        if !self.check_rate_limit(client_id) {
            return Admission::TooManyRequests;
        }
        Admission::Admitted
    }
}

/// The requests of a client after as many attempts at times `nows`.
pub open spec fn after_attempts(
    config: AuthConfig,
    state: Option<RateLimitState>,
    nows: Seq<u64>,
) -> Option<RateLimitState>
    decreases nows.len(),
{
    if nows.len() == 0 {
        state
    } else {
        Some(counted(config, after_attempts(config, state, nows.drop_last()), nows.last()))
    }
}

/// How many of the attempts were admitted.
pub open spec fn admitted(config: AuthConfig, state: Option<RateLimitState>, nows: Seq<u64>) -> nat
    decreases nows.len(),
{
    if nows.len() == 0 {
        0
    } else {
        let before = nows.drop_last();
        admitted(config, state, before) + if has_room(
            config,
            after_attempts(config, state, before),
            nows.last(),
        ) {
            1nat
        } else {
            0
        }
    }
}

/// However often a client that was not seen before tries within a window, it is admitted as often as
/// it may be and no more.
pub proof fn law_rate_is_limited(config: AuthConfig, nows: Seq<u64>)
    requires
        config.rate_limit_per_second > 0,
        max_requests(config) <= u32::MAX,
        forall|i: int, j: int|
            0 <= i < nows.len() && 0 <= j < nows.len() ==> #[trigger] nows[i] - #[trigger] nows[j]
                <= config.rate_limit_window_secs * NANOS_PER_SEC,
    ensures
        admitted(config, None, nows) == if nows.len() < max_requests(config) {
            nows.len() as int
        } else {
            max_requests(config)
        },
{
    lemma_rate(config, nows);
}

proof fn lemma_rate(config: AuthConfig, nows: Seq<u64>)
    requires
        config.rate_limit_per_second > 0,
        max_requests(config) <= u32::MAX,
        forall|i: int, j: int|
            0 <= i < nows.len() && 0 <= j < nows.len() ==> #[trigger] nows[i] - #[trigger] nows[j]
                <= config.rate_limit_window_secs * NANOS_PER_SEC,
    ensures
        admitted(config, None, nows) == if nows.len() < max_requests(config) {
            nows.len() as int
        } else {
            max_requests(config)
        },
        nows.len() > 0 ==> (after_attempts(config, None, nows) matches Some(s) && s.window_start
            == nows[0] && s.count == admitted(config, None, nows)),
    decreases nows.len(),
{
    assert(max_requests(config) >= 0) by (nonlinear_arith)
        requires
            max_requests(config) == config.rate_limit_per_second * (config.rate_limit_window_secs
                % 0x1_0000_0000),
    ;
    if nows.len() > 0 {
        let before = nows.drop_last();
        assert forall|i: int, j: int| 0 <= i < before.len() && 0 <= j < before.len() implies
            #[trigger] before[i] - #[trigger] before[j] <= config.rate_limit_window_secs
            * NANOS_PER_SEC by {
            assert(nows[i] - nows[j] <= config.rate_limit_window_secs * NANOS_PER_SEC);
        }
        lemma_rate(config, before);
        if before.len() > 0 {
            assert(before[0] == nows[0]);
            assert(nows[nows.len() - 1] - nows[0] <= config.rate_limit_window_secs * NANOS_PER_SEC);
        }
    }
}

/// The requests of one client leave the others alone.
pub proof fn law_clients_are_independent(
    config: AuthConfig,
    m: Map<Seq<char>, RateLimitState>,
    client: Seq<char>,
    other: Seq<char>,
    now: u64,
)
    requires
        client != other,
    ensures
        known(limits_after(config, m, client, now), other) == known(m, other),
{
}

/// Every key that is configured opens the door, in either header, and no other does; without keys,
/// or where keys are not asked for, everybody may come in.
pub proof fn law_only_configured_keys_are_good(config: AuthConfig, key: Option<Seq<char>>)
    ensures
        !config.enabled ==> key_is_good(config, key),
        config.api_keys@.len() == 0 ==> key_is_good(config, key),
        config.enabled && config.api_keys@.len() > 0 ==> {
            &&& key is None ==> !key_is_good(config, key)
            &&& key is Some ==> (key_is_good(config, key) <==> exists|i: int|
                0 <= i < config.api_keys@.len() && (#[trigger] config.api_keys@[i])@ == key->0)
        },
{
    if let Some(k) = key {
        let t = texts(config.api_keys@);
        if t.contains(k) {
            let i = choose|i: int| 0 <= i < t.len() && t[i] == k;
            assert(config.api_keys@[i]@ == k);
        }
        if exists|i: int| 0 <= i < config.api_keys@.len() && (#[trigger] config.api_keys@[i])@ == k {
            let i = choose|i: int|
                0 <= i < config.api_keys@.len() && (#[trigger] config.api_keys@[i])@ == k;
            assert(t[i] == k);
        }
    }
}

/// The key is the whole of the header for keys; where that is not sent, it is what follows the word
/// "Bearer" and a space in the header for authorization, and no other scheme gives one.
pub proof fn law_where_the_key_stands(
    api_key: Option<Seq<char>>,
    authorization: Option<Seq<char>>,
    key: Seq<char>,
)
    ensures
        presented_key(Some(key), authorization) == Some(key),
        presented_key(None, Some("Bearer "@ + key)) == Some(key),
        presented_key(None, None) is None,
        api_key is None && authorization is Some && presented_key(api_key, authorization)
            == Some(key) ==> authorization->0 == "Bearer "@ + key,
        api_key is Some && presented_key(api_key, authorization) == Some(key) ==> api_key->0 == key,
{
    reveal_strlit("Bearer ");
    let whole = "Bearer "@ + key;
    assert(whole.subrange(0, 7) =~= "Bearer "@);
    assert(occurs_at(whole, "Bearer "@, 0));
    assert(whole.skip(7) =~= key);
    if let Some(a) = authorization {
        if occurs_at(a, "Bearer "@, 0) {
            assert(a =~= "Bearer "@ + a.skip(7));
        }
    }
}

/// A request is admitted while the client made fewer requests in its window than are allowed a
/// second times the seconds of the window; an admitted one is counted, a refused one is not, and a
/// window that is over is replaced by one that begins now. Other clients are not touched.
pub proof fn law_requests_are_counted(
    config: AuthConfig,
    m: Map<Seq<char>, RateLimitState>,
    client: Seq<char>,
    other: Seq<char>,
    now: u64,
)
    requires
        config.rate_limit_per_second > 0,
        config.rate_limit_window_secs <= u32::MAX,
        forall|c: Seq<char>| #[trigger] m.contains_key(c) ==> m[c].count < u32::MAX,
    ensures
        ({
            let after = limits_after(config, m, client, now);
            let most = config.rate_limit_per_second * config.rate_limit_window_secs;
            let running = m.contains_key(client) && now - m[client].window_start <= 1_000_000_000
                * config.rate_limit_window_secs;
            let made = if running {
                m[client].count as int
            } else {
                0
            };
            &&& has_room(config, known(m, client), now) <==> made < most
            &&& after.contains_key(client)
            &&& after[client].count == if made < most {
                made + 1
            } else {
                made
            }
            &&& after[client].window_start == if running {
                m[client].window_start
            } else {
                now
            }
            &&& other != client ==> (after.contains_key(other) <==> m.contains_key(other))
            &&& other != client && m.contains_key(other) ==> after[other] == m[other]
        }),
{
    assert(config.rate_limit_window_secs % 0x1_0000_0000 == config.rate_limit_window_secs);
}

/// Without a limit every request is admitted and none is counted.
pub proof fn law_no_limit(
    config: AuthConfig,
    m: Map<Seq<char>, RateLimitState>,
    client: Seq<char>,
    now: u64,
)
    requires
        config.rate_limit_per_second == 0,
    ensures
        has_room(config, known(m, client), now),
        limits_after(config, m, client, now) == m,
{
}

/// A header that was sent is read as it was sent.
pub proof fn law_headers_are_read(h: Option<&str>)
    ensures
        h is Some ==> header_text(h) == Some(h->0@),
        h is None ==> header_text(h) is None,
{
}

} // verus!
