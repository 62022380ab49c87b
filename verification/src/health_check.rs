//! Looking after the discoverers and the cache.
//!
//! The caller keeps the time and calls [`HealthCheckTask::check`], [`HealthCheckTask::cleanup`] and
//! [`HealthCheckTask::totals`] at the intervals of the configuration.

use crate::aggregator::{lemma_sum_prefix, sum_of};
use crate::cache::PeerCache;
use crate::discoverers::{unhealthy_names, AnyDiscoverer, DiscovererRegistry};
use crate::text::texts;
use crate::traits::DiscovererStats;
use vstd::prelude::*;

verus! {

/// How often the checks are made, in seconds.
#[derive(Debug, Clone, Copy)]
pub struct HealthCheckConfig {
    pub interval: u64,
    pub cache_cleanup_interval: u64,
    pub stats_output_interval: u64,
}

impl Default for HealthCheckConfig {
    fn default() -> (r: HealthCheckConfig)
        ensures
            r == (HealthCheckConfig {
                interval: 300,
                cache_cleanup_interval: 600,
                stats_output_interval: 300,
            }),
    {
        HealthCheckConfig { interval: 300, cache_cleanup_interval: 600, stats_output_interval: 300 }
    }
}

/// All requests together.
#[derive(Debug, Clone, Copy, PartialEq, Eq, Structural)]
pub struct Totals {
    pub total_requests: u64,
    pub success_requests: u64,
    pub failed_requests: u64,
    pub total_peers: u64,
    pub cached_peers: usize,
}

/// The checks.
pub struct HealthCheckTask {
    pub config: HealthCheckConfig,
}

impl HealthCheckTask {
    /// Checks at the given intervals.
    pub fn new(config: HealthCheckConfig) -> (r: HealthCheckTask)
        ensures
            r.config == config,
    {
        HealthCheckTask { config }
    }

    /// Checks at the usual intervals.
    pub fn with_default_config() -> (r: HealthCheckTask)
        ensures
            r.config.interval == 300,
            r.config.cache_cleanup_interval == 600,
            r.config.stats_output_interval == 300,
    {
        Self::new(HealthCheckConfig::default())
    }

    /// The names of the discoverers that are of no use at present.
    pub fn check(&self, registry: &DiscovererRegistry<AnyDiscoverer>) -> (r: Vec<String>)
        ensures
            texts(r@) == unhealthy_names(registry.discoverers@),
    {
        registry.unhealthy()
    }

    /// Drops expired peers. Returns how many there were before and after.
    pub fn cleanup(&self, cache: &mut PeerCache) -> (r: (usize, usize))
        requires
            old(cache).wf(),
        ensures
            final(cache).wf(),
            final(cache).same_limits(*old(cache)),
            exists|now: u64| #[trigger] final(cache).is_cleaned(*old(cache), now),
            r.0 == old(cache).total(),
            r.1 == final(cache).total(),
    {
        let before: usize = cache.len();
        cache.cleanup_expired();
        let after: usize = cache.len();
        (before, after)
    }

    /// All requests together.
    pub fn totals(&self, raw: &Vec<(String, DiscovererStats)>, cache: &PeerCache) -> (r: Totals)
        requires
            cache.total() <= usize::MAX,
            sum_of(raw@).0 <= u64::MAX,
            sum_of(raw@).1 <= u64::MAX,
            sum_of(raw@).2 <= u64::MAX,
            sum_of(raw@).3 <= u64::MAX,
        ensures
            (
                r.total_requests as nat,
                r.success_requests as nat,
                r.failed_requests as nat,
                r.total_peers as nat,
            ) == sum_of(raw@),
            r.cached_peers == cache.total(),
    {
        let mut out: Totals = Totals {
            total_requests: 0,
            success_requests: 0,
            failed_requests: 0,
            total_peers: 0,
            cached_peers: cache.len(),
        };
        let mut i: usize = 0;
        while i < raw.len()
            invariant
                i <= raw@.len(),
                sum_of(raw@).0 <= u64::MAX,
                sum_of(raw@).1 <= u64::MAX,
                sum_of(raw@).2 <= u64::MAX,
                sum_of(raw@).3 <= u64::MAX,
                (
                    out.total_requests as nat,
                    out.success_requests as nat,
                    out.failed_requests as nat,
                    out.total_peers as nat,
                ) == sum_of(raw@.take(i as int)),
                out.cached_peers == cache.total(),
            decreases raw@.len() - i,
        {
            proof {
                lemma_sum_prefix(raw@, i + 1);
                assert(raw@.take(i + 1).drop_last() =~= raw@.take(i as int));
                assert(raw@.take(i + 1).last() == raw@[i as int]);
            }
            let s: DiscovererStats = raw[i].1;
            out.total_requests = out.total_requests + s.total_requests;
            out.success_requests = out.success_requests + s.success_requests;
            out.failed_requests = out.failed_requests + s.failed_requests;
            out.total_peers = out.total_peers + s.total_peers_discovered;
            i += 1;
        }
        assert(raw@.take(i as int) =~= raw@);
        out
    }
}

} // verus!
