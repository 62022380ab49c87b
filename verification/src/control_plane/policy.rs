//! The policy of a discovery.

use crate::config::PdcConfig;
use crate::traits::DiscovererType;
use vstd::prelude::*;

verus! {

/// How a discovery is carried out.
#[derive(Debug, Clone)]
pub struct DiscoveryPolicy {
    /// How many discoverers run at a time.
    pub max_concurrent: usize,
    /// How long a discovery may take, in seconds.
    pub timeout_secs: u64,
    /// How many peers a discovery returns.
    pub max_peers: usize,
    /// The kinds of discoverers in use.
    pub enabled_types: Vec<DiscovererType>,
    /// Whether cached peers can be enough.
    pub prefer_cache: bool,
    /// The number of cached peers that is enough.
    pub cache_hit_threshold: usize,
}

/// One kind if `enabled`, none otherwise.
pub open spec fn type_if(enabled: bool, kind: DiscovererType) -> Seq<DiscovererType> {
    if enabled {
        seq![kind]
    } else {
        Seq::empty()
    }
}

/// The kinds of discoverers that a configuration enables, in a fixed order.
pub open spec fn enabled_types_of(config: PdcConfig) -> Seq<DiscovererType> {
    type_if(config.discoverers.enable_tracker, DiscovererType::Tracker) + type_if(
        config.discoverers.enable_dht,
        DiscovererType::Dht,
    ) + type_if(config.discoverers.enable_pex, DiscovererType::Pex) + type_if(
        config.discoverers.enable_lpd,
        DiscovererType::Lpd,
    ) + type_if(config.discoverers.enable_webseed, DiscovererType::WebSeed)
}

fn push_type_if(out: &mut Vec<DiscovererType>, enabled: bool, kind: DiscovererType)
    ensures
        final(out)@ == old(out)@ + type_if(enabled, kind),
{
    if enabled {
        out.push(kind);
    }
    assert(out@ =~= old(out)@ + type_if(enabled, kind));
}

impl DiscoveryPolicy {
    /// The policy that a configuration asks for.
    pub fn from_config(config: &PdcConfig) -> (r: DiscoveryPolicy)
        ensures
            r.max_concurrent == config.discoverers.max_concurrent,
            r.timeout_secs == config.discoverers.discovery_timeout_secs,
            r.max_peers == config.cache.max_peers_per_discovery,
            r.enabled_types@ == enabled_types_of(*config),
            r.prefer_cache,
            r.cache_hit_threshold == 20,
    {
        let mut enabled_types: Vec<DiscovererType> = Vec::new();
        push_type_if(
            &mut enabled_types,
            config.discoverers.enable_tracker,
            DiscovererType::Tracker,
        );
        push_type_if(&mut enabled_types, config.discoverers.enable_dht, DiscovererType::Dht);
        push_type_if(&mut enabled_types, config.discoverers.enable_pex, DiscovererType::Pex);
        push_type_if(&mut enabled_types, config.discoverers.enable_lpd, DiscovererType::Lpd);
        push_type_if(
            &mut enabled_types,
            config.discoverers.enable_webseed,
            DiscovererType::WebSeed,
        );
        assert(enabled_types@ =~= enabled_types_of(*config));
        DiscoveryPolicy {
            max_concurrent: config.discoverers.max_concurrent,
            timeout_secs: config.discoverers.discovery_timeout_secs,
            max_peers: config.cache.max_peers_per_discovery,
            enabled_types,
            prefer_cache: true,
            cache_hit_threshold: 20,
        }
    }

    /// The policy without a configuration.
    pub fn default_policy() -> (r: DiscoveryPolicy)
        ensures
            r.max_concurrent == 10,
            r.timeout_secs == 30,
            r.max_peers == 200,
            r.enabled_types@ == seq![
                DiscovererType::Tracker,
                DiscovererType::Dht,
                DiscovererType::Pex,
            ],
            r.prefer_cache,
            r.cache_hit_threshold == 20,
    {
        DiscoveryPolicy {
            max_concurrent: 10,
            timeout_secs: 30,
            max_peers: 200,
            enabled_types: vec![DiscovererType::Tracker, DiscovererType::Dht, DiscovererType::Pex],
            prefer_cache: true,
            cache_hit_threshold: 20,
        }
    }

    /// Whether a kind of discoverer is in use.
    pub fn is_type_enabled(&self, dtype: DiscovererType) -> (r: bool)
        ensures
            r == self.enabled_types@.contains(dtype),
    {
        let mut i: usize = 0;
        while i < self.enabled_types.len()
            invariant
                i <= self.enabled_types@.len(),
                forall|j: int| 0 <= j < i ==> self.enabled_types@[j] != dtype,
            decreases self.enabled_types@.len() - i,
        {
            if self.enabled_types[i] == dtype {
                assert(self.enabled_types@[i as int] == dtype);
                return true;
            }
            i += 1;
        }
        false
    }

    /// Whether discoverers have to run although `cached_count` peers are cached.
    pub fn should_trigger_discovery(&self, cached_count: usize) -> (r: bool)
        ensures
            r == (!self.prefer_cache || cached_count < self.cache_hit_threshold),
    {
        if !self.prefer_cache {
            return true;
        }
        cached_count < self.cache_hit_threshold
    }
}

impl Default for DiscoveryPolicy {
    fn default() -> (r: DiscoveryPolicy)
        ensures
            r.max_concurrent == 10,
            r.timeout_secs == 30,
            r.max_peers == 200,
            r.enabled_types@ == seq![
                DiscovererType::Tracker,
                DiscovererType::Dht,
                DiscovererType::Pex,
            ],
            r.prefer_cache,
            r.cache_hit_threshold == 20,
    {
        Self::default_policy()
    }
}

/// A policy made from a configuration uses a kind of discoverer exactly if the configuration
/// enables it; third-party kinds are never among them.
pub proof fn law_policy_follows_config(config: PdcConfig)
    ensures
        enabled_types_of(config).contains(DiscovererType::Tracker)
            <==> config.discoverers.enable_tracker,
        enabled_types_of(config).contains(DiscovererType::Dht) <==> config.discoverers.enable_dht,
        enabled_types_of(config).contains(DiscovererType::Pex) <==> config.discoverers.enable_pex,
        enabled_types_of(config).contains(DiscovererType::Lpd) <==> config.discoverers.enable_lpd,
        enabled_types_of(config).contains(DiscovererType::WebSeed)
            <==> config.discoverers.enable_webseed,
        !enabled_types_of(config).contains(DiscovererType::Custom),
{
    let d = config.discoverers;
    let a = type_if(d.enable_tracker, DiscovererType::Tracker);
    let b = type_if(d.enable_dht, DiscovererType::Dht);
    let c = type_if(d.enable_pex, DiscovererType::Pex);
    let e = type_if(d.enable_lpd, DiscovererType::Lpd);
    let f = type_if(d.enable_webseed, DiscovererType::WebSeed);
    assert forall|k: DiscovererType| #[trigger]
        enabled_types_of(config).contains(k) <==> a.contains(k) || b.contains(k) || c.contains(k)
            || e.contains(k) || f.contains(k) by {
        vstd::seq_lib::lemma_seq_concat_contains_all_elements(a, b, k);
        vstd::seq_lib::lemma_seq_concat_contains_all_elements(a + b, c, k);
        vstd::seq_lib::lemma_seq_concat_contains_all_elements(a + b + c, e, k);
        vstd::seq_lib::lemma_seq_concat_contains_all_elements(a + b + c + e, f, k);
    }
    lemma_type_if(d.enable_tracker, DiscovererType::Tracker);
    lemma_type_if(d.enable_dht, DiscovererType::Dht);
    lemma_type_if(d.enable_pex, DiscovererType::Pex);
    lemma_type_if(d.enable_lpd, DiscovererType::Lpd);
    lemma_type_if(d.enable_webseed, DiscovererType::WebSeed);
}

proof fn lemma_type_if(enabled: bool, kind: DiscovererType)
    ensures
        forall|k: DiscovererType| #[trigger]
            type_if(enabled, kind).contains(k) <==> enabled && k == kind,
{
    if enabled {
        assert(type_if(enabled, kind)[0] == kind);
    }
}

} // verus!
