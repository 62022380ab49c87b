//! Finding other agents through the registry of a controller.
//!
//! The registry is asked by the caller: [`ServiceResolver::resolve_cached`] says whether that is
//! needed, [`ServiceResolver::query_url`] where to ask, and [`ServiceResolver::store`] takes the
//! answer. [`ServiceResolver::select_from`] picks one agent out of those that are found.

use crate::bytes::{append_decimal, decimal_text, same_text};
use crate::clock::{elapsed_nanos, instant_now, nanos_of, nanos_since, NANOS_PER_SEC};
use crate::random::random_below;
use crate::seqs::lemma_filter_step;
use crate::sort::views;
use crate::text::{copy_texts, texts};
use dashmap::DashMap;
use std::time::Instant;
use vstd::prelude::*;
use vstd::string::*;

verus! {

/// An agent, as the registry has it.
#[derive(Debug)]
pub struct ServiceInfo {
    pub agent_id: u128,
    pub name: String,
    pub agent_type: String,
    pub host: String,
    pub port: u16,
    pub capabilities: Vec<String>,
    pub health: String,
    /// How busy the agent is, as a number that grows with its load.
    pub load: u32,
    pub region: Option<String>,
    pub version: String,
}

/// What there is to say of an agent.
pub struct ServiceModel {
    pub agent_id: u128,
    pub name: Seq<char>,
    pub agent_type: Seq<char>,
    pub host: Seq<char>,
    pub port: u16,
    pub capabilities: Seq<Seq<char>>,
    pub health: Seq<char>,
    pub load: u32,
    pub region: Option<Seq<char>>,
    pub version: Seq<char>,
}

impl View for ServiceInfo {
    type V = ServiceModel;

    open spec fn view(&self) -> ServiceModel {
        ServiceModel {
            agent_id: self.agent_id,
            name: self.name@,
            agent_type: self.agent_type@,
            host: self.host@,
            port: self.port,
            capabilities: texts(self.capabilities@),
            health: self.health@,
            load: self.load,
            region: match self.region {
                Some(r) => Some(r@),
                None => None,
            },
            version: self.version@,
        }
    }
}

impl ServiceModel {
    /// Where the agent is reached.
    pub open spec fn url(self) -> Seq<char> {
        "http://"@ + self.host + ":"@ + decimal_text(self.port as nat)
    }

    /// Whether the agent is well.
    pub open spec fn healthy(self) -> bool {
        self.health == "healthy"@
    }
}

impl ServiceInfo {
    /// Where the agent is reached.
    pub fn base_url(&self) -> (r: String)
        ensures
            r@ == self@.url(),
    {
        let mut text: String = "http://".to_string();
        text.append(self.host.as_str());
        text.append(":");
        append_decimal(&mut text, self.port as u64);
        text
    }

    /// Whether the agent is well.
    pub fn is_healthy(&self) -> (r: bool)
        ensures
            r == self@.healthy(),
    {
        same_text(self.health.as_str(), "healthy")
    }

    /// Whether the agent can do something.
    pub fn has_capability(&self, capability: &str) -> (r: bool)
        ensures
            r == self@.capabilities.contains(capability@),
    {
        let ghost all = texts(self.capabilities@);
        let mut i: usize = 0;
        while i < self.capabilities.len()
            invariant
                i <= self.capabilities@.len() == all.len(),
                all == texts(self.capabilities@),
                forall|j: int| 0 <= j < i ==> #[trigger] all[j] != capability@,
            decreases self.capabilities@.len() - i,
        {
            if same_text(self.capabilities[i].as_str(), capability) {
                assert(all[i as int] == capability@);
                return true;
            }
            i += 1;
        }
        false
    }

    /// An equal agent.
    pub fn duplicate(&self) -> (r: ServiceInfo)
        ensures
            r@ == self@,
    {
        let region: Option<String> = match &self.region {
            Some(text) => Some(text.clone()),
            None => None,
        };
        ServiceInfo {
            agent_id: self.agent_id,
            name: self.name.clone(),
            agent_type: self.agent_type.clone(),
            host: self.host.clone(),
            port: self.port,
            capabilities: copy_texts(&self.capabilities),
            health: self.health.clone(),
            load: self.load,
            region,
            version: self.version.clone(),
        }
    }
}

/// Copies agents.
fn copy_services(services: &Vec<ServiceInfo>) -> (r: Vec<ServiceInfo>)
    ensures
        views(r@) == views(services@),
{
    let mut out: Vec<ServiceInfo> = Vec::with_capacity(services.len());
    let mut i: usize = 0;
    while i < services.len()
        invariant
            i <= services@.len(),
            out@.len() == i,
            forall|j: int| 0 <= j < i ==> (#[trigger] out@[j])@ == services@[j]@,
        decreases services@.len() - i,
    {
        out.push(services[i].duplicate());
        i += 1;
    }
    assert(views(out@) =~= views(services@));
    out
}

/// An answer of the registry. Times are nanoseconds since the resolver was set up.
pub struct CacheEntry {
    pub services: Vec<ServiceInfo>,
    pub cached_at: u64,
}

impl CacheEntry {
    /// An equal answer.
    fn duplicate(&self) -> (r: CacheEntry)
        ensures
            views(r.services@) == views(self.services@),
            r.cached_at == self.cached_at,
    {
        CacheEntry { services: copy_services(&self.services), cached_at: self.cached_at }
    }
}

/// The failures of an agent. Times are nanoseconds since the resolver was set up.
#[derive(Debug, Clone, Copy, PartialEq, Eq, Structural)]
pub struct FailureRecord {
    pub failed_at: u64,
    pub consecutive_failures: u32,
}

/// How an agent is picked.
#[derive(Debug, Clone, Copy, PartialEq, Eq, Structural)]
pub enum LoadBalanceStrategy {
    /// One after the other.
    RoundRobin,
    Random,
    /// The one with the lowest load.
    LeastLoad,
}

impl Default for LoadBalanceStrategy {
    fn default() -> (r: LoadBalanceStrategy)
        ensures
            r == LoadBalanceStrategy::LeastLoad,
    {
        LoadBalanceStrategy::LeastLoad
    }
}

/// The settings of a resolver.
#[derive(Debug)]
pub struct ServiceResolverConfig {
    /// Where the controller is reached.
    pub master_url: String,
    pub token: Option<String>,
    /// Seconds for which an answer of the registry is good.
    pub cache_ttl_secs: u64,
    /// Seconds for which an agent is left alone after too many failures.
    pub failure_cooldown_secs: u64,
    pub max_consecutive_failures: u32,
    pub strategy: LoadBalanceStrategy,
}

impl Default for ServiceResolverConfig {
    fn default() -> (r: ServiceResolverConfig)
        ensures
            r.master_url@ == "http://127.0.0.1:5566"@,
            r.token is None,
            r.cache_ttl_secs == 60,
            r.failure_cooldown_secs == 30,
            r.max_consecutive_failures == 3,
            r.strategy == LoadBalanceStrategy::LeastLoad,
    {
        ServiceResolverConfig {
            master_url: "http://127.0.0.1:5566".to_string(),
            token: None,
            cache_ttl_secs: 60,
            failure_cooldown_secs: 30,
            max_consecutive_failures: 3,
            strategy: LoadBalanceStrategy::default(),
        }
    }
}

/// What a map of answers holds, by the text of its keys.
pub uninterp spec fn answers_in(map: DashMap<String, CacheEntry>) -> Map<Seq<char>, CacheEntry>;

/// What a map of failures holds.
pub uninterp spec fn failures_in(map: DashMap<u128, FailureRecord>) -> Map<u128, FailureRecord>;

/// What a map of turns holds, by the text of its keys.
pub uninterp spec fn turns_in(map: DashMap<String, usize>) -> Map<Seq<char>, usize>;

/// No answers at all.
pub open spec fn no_answers() -> Map<Seq<char>, CacheEntry> {
    Map::empty()
}

/// No failures at all.
pub open spec fn no_failures() -> Map<u128, FailureRecord> {
    Map::empty()
}

/// No turns at all.
pub open spec fn no_turns() -> Map<Seq<char>, usize> {
    Map::empty()
}

/// `DashMap::new`: a map that holds nothing.
#[verifier::external_body]
fn new_answers() -> (r: DashMap<String, CacheEntry>)
    ensures
        answers_in(r) == no_answers(),
{
    DashMap::new()
}

/// `DashMap::insert`: gives a key a value and changes nothing else.
#[verifier::external_body]
fn put_answer(map: &mut DashMap<String, CacheEntry>, key: String, entry: CacheEntry)
    ensures
        answers_in(*final(map)) == answers_in(*old(map)).insert(key@, entry),
{
    map.insert(key, entry);
}

/// `DashMap::view`: what the given function makes of the value of a key, here an equal answer;
/// `None` if the key is not there.
#[verifier::external_body]
fn view_answer(map: &DashMap<String, CacheEntry>, key: &str) -> (r: Option<CacheEntry>)
    ensures
        r is Some <==> answers_in(*map).contains_key(key@),
        r is Some ==> views((r->0).services@) == views(answers_in(*map)[key@].services@),
        r is Some ==> (r->0).cached_at == answers_in(*map)[key@].cached_at,
{
    map.view(key, |_, entry| entry.duplicate())
}

/// `DashMap::clear`: drops everything.
#[verifier::external_body]
fn clear_answers(map: &mut DashMap<String, CacheEntry>)
    ensures
        answers_in(*final(map)) == no_answers(),
{
    map.clear();
}

/// `DashMap::len`: the number of keys.
#[verifier::external_body]
fn count_answers(map: &DashMap<String, CacheEntry>) -> (r: usize)
    ensures
        r == answers_in(*map).dom().len(),
{
    map.len()
}

/// `DashMap::new`: a map that holds nothing.
#[verifier::external_body]
fn new_failures() -> (r: DashMap<u128, FailureRecord>)
    ensures
        failures_in(r) == no_failures(),
{
    DashMap::new()
}

/// `DashMap::insert`: gives a key a value and changes nothing else.
#[verifier::external_body]
fn put_failure(map: &mut DashMap<u128, FailureRecord>, agent_id: u128, record: FailureRecord)
    ensures
        failures_in(*final(map)) == failures_in(*old(map)).insert(agent_id, record),
{
    map.insert(agent_id, record);
}

/// `DashMap::remove`: takes a key out, if it is there.
#[verifier::external_body]
fn drop_failure(map: &mut DashMap<u128, FailureRecord>, agent_id: u128)
    ensures
        failures_in(*final(map)) == failures_in(*old(map)).remove(agent_id),
{
    map.remove(&agent_id);
}

/// `DashMap::get`: the value of a key, `None` if the key is not there.
#[verifier::external_body]
fn get_failure(map: &DashMap<u128, FailureRecord>, agent_id: u128) -> (r: Option<FailureRecord>)
    ensures
        r is Some <==> failures_in(*map).contains_key(agent_id),
        r is Some ==> r->0 == failures_in(*map)[agent_id],
{
    map.get(&agent_id).map(|record| *record)
}

/// `DashMap::new`: a map that holds nothing.
#[verifier::external_body]
fn new_turns() -> (r: DashMap<String, usize>)
    ensures
        turns_in(r) == no_turns(),
{
    DashMap::new()
}

/// `DashMap::insert`: gives a key a value and changes nothing else.
#[verifier::external_body]
fn put_turn(map: &mut DashMap<String, usize>, key: String, turn: usize)
    ensures
        turns_in(*final(map)) == turns_in(*old(map)).insert(key@, turn),
{
    map.insert(key, turn);
}

/// `DashMap::get`: the value of a key, `None` if the key is not there.
#[verifier::external_body]
fn get_turn(map: &DashMap<String, usize>, key: &str) -> (r: Option<usize>)
    ensures
        r is Some <==> turns_in(*map).contains_key(key@),
        r is Some ==> r->0 == turns_in(*map)[key@],
{
    map.get(key).map(|turn| *turn)
}

/// The text of an optional capability.
pub open spec fn wanted(capability: Option<&str>) -> Seq<char> {
    match capability {
        Some(c) => c@,
        None => "any"@,
    }
}

/// What a query is known by.
pub open spec fn key_of(agent_type: Seq<char>, capability: Seq<char>) -> Seq<char> {
    agent_type + ":"@ + capability
}

/// Where the registry is asked.
pub open spec fn url_of(
    master_url: Seq<char>,
    agent_type: Seq<char>,
    capability: Option<&str>,
) -> Seq<char> {
    let all = master_url + "/api/v1/agents?agent_type="@ + agent_type;
    match capability {
        Some(c) => all + "&capability="@ + c@,
        None => all,
    }
}

/// Whether an agent is left alone at time `now`.
pub open spec fn resting(
    config: ServiceResolverConfig,
    failures: Map<u128, FailureRecord>,
    agent_id: u128,
    now: u64,
) -> bool {
    &&& failures.contains_key(agent_id)
    &&& failures[agent_id].consecutive_failures >= config.max_consecutive_failures
    &&& now - failures[agent_id].failed_at < config.failure_cooldown_secs * NANOS_PER_SEC
}

/// The agents that are well and are not left alone at time `now`.
pub open spec fn usable(
    config: ServiceResolverConfig,
    failures: Map<u128, FailureRecord>,
    now: u64,
) -> spec_fn(ServiceModel) -> bool {
    |s: ServiceModel| s.healthy() && !resting(config, failures, s.agent_id, now)
}

/// The failures after one more at time `now`.
pub open spec fn with_failure(failures: Map<u128, FailureRecord>, agent_id: u128, now: u64) -> Map<
    u128,
    FailureRecord,
> {
    failures.insert(
        agent_id,
        FailureRecord {
            failed_at: now,
            consecutive_failures: if failures.contains_key(agent_id) {
                (failures[agent_id].consecutive_failures + 1) as u32
            } else {
                1
            },
        },
    )
}

/// Whether `i` is the position of the first agent with the lowest load.
pub open spec fn is_least(s: Seq<ServiceModel>, i: int) -> bool {
    &&& 0 <= i < s.len()
    &&& forall|j: int| 0 <= j < s.len() ==> s[i].load <= (#[trigger] s[j]).load
    &&& forall|j: int| 0 <= j < i ==> s[i].load < (#[trigger] s[j]).load
}

/// The turn of a query.
pub open spec fn turn_of(turns: Map<Seq<char>, usize>, key: Seq<char>) -> int {
    if turns.contains_key(key) {
        turns[key] as int
    } else {
        0
    }
}

/// The turns after one of a query was taken.
pub open spec fn turns_after(turns: Map<Seq<char>, usize>, key: Seq<char>) -> Map<Seq<char>, usize> {
    turns.insert(
        key,
        if turn_of(turns, key) == usize::MAX {
            0
        } else {
            (turn_of(turns, key) + 1) as usize
        },
    )
}

/// A resolver. Its times are nanoseconds since it was set up.
pub struct ServiceResolver {
    pub started: Instant,
    pub config: ServiceResolverConfig,
    /// Answers of the registry, by query.
    pub cache: DashMap<String, CacheEntry>,
    /// Failures, by agent.
    pub failures: DashMap<u128, FailureRecord>,
    /// Whose turn it is, by query.
    pub round_robin_counter: DashMap<String, usize>,
}

/// The key of a query.
fn cache_key(agent_type: &str, capability: Option<&str>) -> (r: String)
    ensures
        r@ == key_of(agent_type@, wanted(capability)),
{
    let mut key: String = agent_type.to_string();
    key.append(":");
    match capability {
        Some(c) => {
            key.append(c);
        },
        None => {
            key.append("any");
        },
    }
    key
}

impl ServiceResolver {
    /// A resolver that knows no agents.
    pub fn new(config: ServiceResolverConfig) -> (r: ServiceResolver)
        ensures
            r.config == config,
            answers_in(r.cache) == no_answers(),
            failures_in(r.failures) == no_failures(),
            turns_in(r.round_robin_counter) == no_turns(),
    {
        ServiceResolver {
            started: instant_now(),
            config,
            cache: new_answers(),
            failures: new_failures(),
            round_robin_counter: new_turns(),
        }
    }

    /// The agents that are well and are not left alone at time `now`.
    pub fn filter_healthy_at(&self, services: &Vec<ServiceInfo>, now: u64) -> (r: Vec<ServiceInfo>)
        ensures
            views(r@) == views(services@).filter(
                usable(self.config, failures_in(self.failures), now),
            ),
    {
        let ghost all = views(services@);
        let ghost p = usable(self.config, failures_in(self.failures), now);
        let cooldown: u128 = nanos_of(self.config.failure_cooldown_secs);
        let mut out: Vec<ServiceInfo> = Vec::new();
        let mut i: usize = 0;
        assert(views(out@) =~= all.take(0).filter(p)) by {
            reveal(Seq::filter);
        }
        while i < services.len()
            invariant
                i <= services@.len() == all.len(),
                all == views(services@),
                p == usable(self.config, failures_in(self.failures), now),
                cooldown == self.config.failure_cooldown_secs * NANOS_PER_SEC,
                views(out@) == all.take(i as int).filter(p),
            decreases services@.len() - i,
        {
            proof {
                lemma_filter_step(all, i as int, p);
            }
            let ghost before = views(out@);
            let s: &ServiceInfo = &services[i];
            assert(all[i as int] == s@);
            let rests: bool = match get_failure(&self.failures, s.agent_id) {
                Some(f) => f.consecutive_failures >= self.config.max_consecutive_failures && (
                if f.failed_at > now {
                    true
                } else {
                    ((now - f.failed_at) as u128) < cooldown
                }),
                None => false,
            };
            assert(rests == resting(self.config, failures_in(self.failures), s.agent_id, now));
            if s.is_healthy() && !rests {
                out.push(s.duplicate());
                assert(views(out@) =~= before.push(s@));
            }
            i += 1;
        }
        assert(all.take(i as int) =~= all);
        out
    }

    /// The agents that are well and are not left alone.
    pub fn filter_healthy(&self, services: &Vec<ServiceInfo>) -> (r: Vec<ServiceInfo>)
        ensures
            exists|now: Instant|
                views(r@) == views(services@).filter(
                    #[trigger] usable(
                        self.config,
                        failures_in(self.failures),
                        nanos_since(self.started, now),
                    ),
                ),
    {
        let now: u64 = elapsed_nanos(&self.started);
        self.filter_healthy_at(services, now)
    }

    /// Whether `r` is what there is to say to a query at time `now` without asking the registry: the
    /// usable agents of the last answer, as long as that is good.
    pub open spec fn answers_with(
        &self,
        key: Seq<char>,
        now: u64,
        r: Option<Vec<ServiceInfo>>,
    ) -> bool {
        let answers = answers_in(self.cache);
        if answers.contains_key(key) && now - answers[key].cached_at < self.config.cache_ttl_secs
            * NANOS_PER_SEC {
            r matches Some(v) && views(v@) == views(answers[key].services@).filter(
                usable(self.config, failures_in(self.failures), now),
            )
        } else {
            r is None
        }
    }

    /// The usable agents of the last answer to a query at time `now`, `None` if the registry is to
    /// be asked.
    pub fn resolve_cached_at(&self, agent_type: &str, capability: Option<&str>, now: u64) -> (r:
        Option<Vec<ServiceInfo>>)
        ensures
            self.answers_with(key_of(agent_type@, wanted(capability)), now, r),
    {
        let key: String = cache_key(agent_type, capability);
        let ttl: u128 = nanos_of(self.config.cache_ttl_secs);
        match view_answer(&self.cache, key.as_str()) {
            Some(entry) => {
                let good: bool = if entry.cached_at > now {
                    true
                } else {
                    ((now - entry.cached_at) as u128) < ttl
                };
                if good {
                    Some(self.filter_healthy_at(&entry.services, now))
                } else {
                    None
                }
            },
            None => None,
        }
    }

    /// The usable agents of the last answer to a query, `None` if the registry is to be asked.
    pub fn resolve_cached(&self, agent_type: &str, capability: Option<&str>) -> (r: Option<
        Vec<ServiceInfo>,
    >)
        ensures
            exists|now: Instant| #[trigger]
                self.answers_with(
                    key_of(agent_type@, wanted(capability)),
                    nanos_since(self.started, now),
                    r,
                ),
    {
        let now: u64 = elapsed_nanos(&self.started);
        self.resolve_cached_at(agent_type, capability, now)
    }

    /// Where the registry is asked.
    pub fn query_url(&self, agent_type: &str, capability: Option<&str>) -> (r: String)
        ensures
            r@ == url_of(self.config.master_url@, agent_type@, capability),
    {
        let mut url: String = self.config.master_url.clone();
        url.append("/api/v1/agents?agent_type=");
        url.append(agent_type);
        if let Some(c) = capability {
            url.append("&capability=");
            url.append(c);
        }
        url
    }

    /// Takes the answer of the registry to a query at time `now`. Returns the usable agents in it.
    pub fn store_at(
        &mut self,
        agent_type: &str,
        capability: Option<&str>,
        services: Vec<ServiceInfo>,
        now: u64,
    ) -> (r: Vec<ServiceInfo>)
        ensures
            final(self).started == old(self).started,
            final(self).config == old(self).config,
            final(self).failures == old(self).failures,
            final(self).round_robin_counter == old(self).round_robin_counter,
            answers_in(final(self).cache) == answers_in(old(self).cache).insert(
                key_of(agent_type@, wanted(capability)),
                CacheEntry { services, cached_at: now },
            ),
            views(r@) == views(services@).filter(
                usable(old(self).config, failures_in(old(self).failures), now),
            ),
    {
        let found: Vec<ServiceInfo> = self.filter_healthy_at(&services, now);
        let key: String = cache_key(agent_type, capability);
        put_answer(&mut self.cache, key, CacheEntry { services, cached_at: now });
        found
    }

    /// Takes the answer of the registry to a query. Returns the usable agents in it.
    pub fn store(
        &mut self,
        agent_type: &str,
        capability: Option<&str>,
        services: Vec<ServiceInfo>,
    ) -> (r: Vec<ServiceInfo>)
        ensures
            final(self).started == old(self).started,
            final(self).config == old(self).config,
            final(self).failures == old(self).failures,
            final(self).round_robin_counter == old(self).round_robin_counter,
            exists|now: Instant|
                answers_in(final(self).cache) == answers_in(old(self).cache).insert(
                    key_of(agent_type@, wanted(capability)),
                    CacheEntry { services, cached_at: nanos_since(old(self).started, now) },
                ) && views(r@) == views(services@).filter(
                    #[trigger] usable(
                        old(self).config,
                        failures_in(old(self).failures),
                        nanos_since(old(self).started, now),
                    ),
                ),
    {
        let now: u64 = elapsed_nanos(&self.started);
        self.store_at(agent_type, capability, services, now)
    }

    /// Picks one of the agents that a query found. `drawn` is the position for a random pick.
    pub fn select_drawn(
        &mut self,
        agent_type: &str,
        capability: Option<&str>,
        services: &Vec<ServiceInfo>,
        drawn: usize,
    ) -> (r: Option<ServiceInfo>)
        requires
            services@.len() > 0 ==> drawn < services@.len(),
        ensures
            final(self).started == old(self).started,
            final(self).config == old(self).config,
            final(self).cache == old(self).cache,
            final(self).failures == old(self).failures,
            r is None <==> services@.len() == 0,
            r matches Some(s) ==> match old(self).config.strategy {
                LoadBalanceStrategy::RoundRobin => s@ == services@[turn_of(
                    turns_in(old(self).round_robin_counter),
                    key_of(agent_type@, wanted(capability)),
                ) % (services@.len() as int)]@,
                LoadBalanceStrategy::Random => s@ == services@[drawn as int]@,
                LoadBalanceStrategy::LeastLoad => exists|i: int| #[trigger]
                    is_least(views(services@), i) && s@ == views(services@)[i],
            },
            turns_in(final(self).round_robin_counter) == if services@.len() > 0 && old(
                self,
            ).config.strategy == LoadBalanceStrategy::RoundRobin {
                turns_after(
                    turns_in(old(self).round_robin_counter),
                    key_of(agent_type@, wanted(capability)),
                )
            } else {
                turns_in(old(self).round_robin_counter)
            },
    {
        if services.len() == 0 {
            return None;
        }
        let at: usize = match self.config.strategy {
            LoadBalanceStrategy::RoundRobin => {
                let key: String = cache_key(agent_type, capability);
                let turn: usize = match get_turn(&self.round_robin_counter, key.as_str()) {
                    Some(t) => t,
                    None => 0,
                };
                let next: usize = if turn == usize::MAX {
                    0
                } else {
                    turn + 1
                };
                put_turn(&mut self.round_robin_counter, key, next);
                turn % services.len()
            },
            LoadBalanceStrategy::Random => drawn,
            LoadBalanceStrategy::LeastLoad => {
                let best: usize = least_loaded(services);
                assert(views(services@)[best as int] == services@[best as int]@);
                best
            },
        };
        Some(services[at].duplicate())
    }

    /// Picks one of the agents that a query found.
    pub fn select_from(
        &mut self,
        agent_type: &str,
        capability: Option<&str>,
        services: &Vec<ServiceInfo>,
    ) -> (r: Option<ServiceInfo>)
        ensures
            final(self).started == old(self).started,
            final(self).config == old(self).config,
            final(self).cache == old(self).cache,
            final(self).failures == old(self).failures,
            r is None <==> services@.len() == 0,
            r matches Some(s) ==> match old(self).config.strategy {
                LoadBalanceStrategy::RoundRobin => s@ == services@[turn_of(
                    turns_in(old(self).round_robin_counter),
                    key_of(agent_type@, wanted(capability)),
                ) % (services@.len() as int)]@,
                LoadBalanceStrategy::Random => exists|i: int|
                    0 <= i < services@.len() && s@ == (#[trigger] services@[i])@,
                LoadBalanceStrategy::LeastLoad => exists|i: int| #[trigger]
                    is_least(views(services@), i) && s@ == views(services@)[i],
            },
            turns_in(final(self).round_robin_counter) == if services@.len() > 0 && old(
                self,
            ).config.strategy == LoadBalanceStrategy::RoundRobin {
                turns_after(
                    turns_in(old(self).round_robin_counter),
                    key_of(agent_type@, wanted(capability)),
                )
            } else {
                turns_in(old(self).round_robin_counter)
            },
    {
        let drawn: usize = if services.len() > 0 {
            random_below(services.len())
        } else {
            0
        };
        self.select_drawn(agent_type, capability, services, drawn)
    }

    /// Notes that an agent answered.
    pub fn record_success(&mut self, agent_id: u128)
        ensures
            final(self).started == old(self).started,
            final(self).config == old(self).config,
            final(self).cache == old(self).cache,
            final(self).round_robin_counter == old(self).round_robin_counter,
            failures_in(final(self).failures) == failures_in(old(self).failures).remove(agent_id),
    {
        drop_failure(&mut self.failures, agent_id);
    }

    /// Notes at time `now` that an agent failed.
    pub fn record_failure_at(&mut self, agent_id: u128, now: u64)
        requires
            failures_in(old(self).failures).contains_key(agent_id) ==> failures_in(
                old(self).failures,
            )[agent_id].consecutive_failures < u32::MAX,
        ensures
            final(self).started == old(self).started,
            final(self).config == old(self).config,
            final(self).cache == old(self).cache,
            final(self).round_robin_counter == old(self).round_robin_counter,
            failures_in(final(self).failures) == with_failure(
                failures_in(old(self).failures),
                agent_id,
                now,
            ),
    {
        let count: u32 = match get_failure(&self.failures, agent_id) {
            Some(f) => f.consecutive_failures + 1,
            None => 1,
        };
        put_failure(
            &mut self.failures,
            agent_id,
            FailureRecord { failed_at: now, consecutive_failures: count },
        );
    }

    /// Notes that an agent failed.
    pub fn record_failure(&mut self, agent_id: u128)
        requires
            failures_in(old(self).failures).contains_key(agent_id) ==> failures_in(
                old(self).failures,
            )[agent_id].consecutive_failures < u32::MAX,
        ensures
            final(self).started == old(self).started,
            final(self).config == old(self).config,
            final(self).cache == old(self).cache,
            final(self).round_robin_counter == old(self).round_robin_counter,
            exists|now: Instant|
                failures_in(final(self).failures) == #[trigger] with_failure(
                    failures_in(old(self).failures),
                    agent_id,
                    nanos_since(old(self).started, now),
                ),
    {
        let now: u64 = elapsed_nanos(&self.started);
        self.record_failure_at(agent_id, now);
    }

    /// Forgets the answers of the registry.
    pub fn clear_cache(&mut self)
        ensures
            final(self).started == old(self).started,
            final(self).config == old(self).config,
            final(self).failures == old(self).failures,
            final(self).round_robin_counter == old(self).round_robin_counter,
            answers_in(final(self).cache) == no_answers(),
    {
        clear_answers(&mut self.cache);
    }

    /// How many queries have an answer.
    pub fn cached_count(&self) -> (r: usize)
        ensures
            r == answers_in(self.cache).dom().len(),
    {
        count_answers(&self.cache)
    }
}

/// The position of the first agent with the lowest load.
fn least_loaded(services: &Vec<ServiceInfo>) -> (r: usize)
    requires
        services@.len() > 0,
    ensures
        is_least(views(services@), r as int),
{
    let ghost s = views(services@);
    let mut best: usize = 0;
    let mut i: usize = 1;
    while i < services.len()
        invariant
            best < i <= services@.len() == s.len(),
            s == views(services@),
            forall|j: int| 0 <= j < i ==> s[best as int].load <= (#[trigger] s[j]).load,
            forall|j: int| 0 <= j < best ==> s[best as int].load < (#[trigger] s[j]).load,
        decreases services@.len() - i,
    {
        assert(s[i as int].load == services@[i as int].load);
        assert(s[best as int].load == services@[best as int].load);
        if services[i].load < services[best].load {
            best = i;
        }
        i += 1;
    }
    best
}

/// An agent that failed too often in a row is left alone until its rest is over; one success brings
/// it back at once.
pub proof fn law_failing_agent_rests(
    config: ServiceResolverConfig,
    failures: Map<u128, FailureRecord>,
    s: ServiceModel,
    failed_at: u64,
    now: u64,
)
    requires
        s.healthy(),
        failures.contains_key(s.agent_id) ==> failures[s.agent_id].consecutive_failures < u32::MAX,
        with_failure(failures, s.agent_id, failed_at)[s.agent_id].consecutive_failures
            >= config.max_consecutive_failures,
    ensures
        usable(config, with_failure(failures, s.agent_id, failed_at), now)(s) <==> now - failed_at
            >= config.failure_cooldown_secs * NANOS_PER_SEC,
        usable(
            config,
            with_failure(failures, s.agent_id, failed_at).remove(s.agent_id),
            now,
        )(s),
{
}

/// Round and round: as many turns in a row as there are agents give each agent one turn.
pub proof fn law_round_robin_is_fair(turn: int, len: int, i: int, j: int)
    requires
        len > 0,
        turn >= 0,
        0 <= i < j < len,
    ensures
        (turn + i) % len != (turn + j) % len,
{
    if (turn + i) % len == (turn + j) % len {
        vstd::arithmetic::div_mod::lemma_fundamental_div_mod(turn + i, len);
        vstd::arithmetic::div_mod::lemma_fundamental_div_mod(turn + j, len);
        let a = (turn + i) / len;
        let b = (turn + j) / len;
        assert(len * (b - a) == j - i) by (nonlinear_arith)
            requires
                turn + i == len * a + (turn + i) % len,
                turn + j == len * b + (turn + j) % len,
                (turn + i) % len == (turn + j) % len,
        ;
        assert(b - a >= 1 || b - a <= 0);
        assert(false) by (nonlinear_arith)
            requires
                len * (b - a) == j - i,
                0 < j - i < len,
                len > 0,
        ;
    }
}

/// An answer of the registry is used as long as it is good: of its agents all are given that say they
/// are well and are not left alone for their failures, and no others. When it is older, or there is
/// none, the registry is to be asked.
pub proof fn law_good_answer_is_used(
    resolver: ServiceResolver,
    key: Seq<char>,
    now: u64,
    r: Option<Vec<ServiceInfo>>,
    s: ServiceModel,
)
    requires
        resolver.answers_with(key, now, r),
    ensures
        ({
            let answers = answers_in(resolver.cache);
            let failures = failures_in(resolver.failures);
            let good = answers.contains_key(key) && now - answers[key].cached_at < 1_000_000_000
                * resolver.config.cache_ttl_secs;
            &&& r is Some <==> good
            &&& good ==> (views(r->0@).contains(s) <==> views(answers[key].services@).contains(s)
                && s.health == "healthy"@ && !(failures.contains_key(s.agent_id)
                && failures[s.agent_id].consecutive_failures
                >= resolver.config.max_consecutive_failures && now - failures[s.agent_id].failed_at
                < 1_000_000_000 * resolver.config.failure_cooldown_secs))
        }),
{
    let answers = answers_in(resolver.cache);
    if r is Some {
        let all = views(answers[key].services@);
        let p = usable(resolver.config, failures_in(resolver.failures), now);
        let kept = all.filter(p);
        if kept.contains(s) {
            all.lemma_filter_contains_rev(p, s);
            let i = choose|i: int| 0 <= i < kept.len() && kept[i] == s;
            all.lemma_filter_pred(p, i);
        }
        if all.contains(s) && p(s) {
            let i = choose|i: int| 0 <= i < all.len() && all[i] == s;
            all.lemma_filter_contains(p, i);
        }
    }
}

/// A failure is counted for the agent that failed, with its time, and for no other.
pub proof fn law_failures_are_counted(
    failures: Map<u128, FailureRecord>,
    agent_id: u128,
    other: u128,
    now: u64,
)
    requires
        failures.contains_key(agent_id) ==> failures[agent_id].consecutive_failures < u32::MAX,
    ensures
        ({
            let after = with_failure(failures, agent_id, now);
            &&& after.contains_key(agent_id)
            &&& after[agent_id].failed_at == now
            &&& failures.contains_key(agent_id) ==> after[agent_id].consecutive_failures
                == failures[agent_id].consecutive_failures + 1
            &&& !failures.contains_key(agent_id) ==> after[agent_id].consecutive_failures == 1
            &&& other != agent_id ==> (after.contains_key(other) <==> failures.contains_key(other))
            &&& other != agent_id && failures.contains_key(other) ==> after[other]
                == failures[other]
        }),
{
}

/// The agent with the lowest load is chosen, the first of them if there are several.
pub proof fn law_least_load_is_chosen(s: Seq<ServiceModel>, i: int, j: int)
    requires
        is_least(s, i),
        0 <= j < s.len(),
    ensures
        0 <= i < s.len(),
        s[i].load <= s[j].load,
        s[j].load == s[i].load ==> i <= j,
{
}

/// Every turn that a query takes is followed by the next; other queries keep theirs.
pub proof fn law_turns_follow_one_another(
    turns: Map<Seq<char>, usize>,
    key: Seq<char>,
    other: Seq<char>,
)
    ensures
        !turns.contains_key(key) ==> turn_of(turns, key) == 0,
        turn_of(turns, key) < usize::MAX ==> turn_of(turns_after(turns, key), key) == turn_of(
            turns,
            key,
        ) + 1,
        turn_of(turns, key) == usize::MAX ==> turn_of(turns_after(turns, key), key) == 0,
        other != key ==> turn_of(turns_after(turns, key), other) == turn_of(turns, other),
{
}

/// Queries for different kinds of agents, or for different capabilities of one kind, are known by
/// different keys.
pub proof fn law_queries_are_told_apart(agent_type: Seq<char>, a: Seq<char>, b: Seq<char>)
    ensures
        key_of(agent_type, a) == key_of(agent_type, b) ==> a == b,
        key_of(a, agent_type) == key_of(b, agent_type) ==> a == b,
{
    let n = agent_type.len() as int;
    reveal_strlit(":");
    if key_of(agent_type, a) == key_of(agent_type, b) {
        assert(key_of(agent_type, a).skip(n + 1) =~= a);
        assert(key_of(agent_type, b).skip(n + 1) =~= b);
    }
    if key_of(a, agent_type) == key_of(b, agent_type) {
        assert(key_of(a, agent_type).len() == a.len() + 1 + n);
        assert(key_of(b, agent_type).len() == b.len() + 1 + n);
        assert(key_of(a, agent_type).take(a.len() as int) =~= a);
        assert(key_of(b, agent_type).take(a.len() as int) =~= b);
    }
}

/// Where the registry is asked, and where an agent is reached.
pub proof fn law_addresses_of_services(
    master_url: Seq<char>,
    agent_type: Seq<char>,
    capability: &str,
    s: ServiceModel,
)
    ensures
        url_of(master_url, agent_type, None) == master_url + "/api/v1/agents?agent_type="@
            + agent_type,
        url_of(master_url, agent_type, Some(capability)) == url_of(master_url, agent_type, None)
            + "&capability="@ + capability@,
        wanted(None) == "any"@,
        wanted(Some(capability)) == capability@,
        s.url() == "http://"@ + s.host + ":"@ + decimal_text(s.port as nat),
        s.healthy() <==> s.health == "healthy"@,
{
}

} // verus!
