//! What decides how peers are discovered.

pub mod policy;

use crate::config::PdcConfig;
use crate::control_plane::policy::{enabled_types_of, type_if, DiscoveryPolicy};
use crate::discoverers::dht::client::{DhtConfig, DhtDiscoverer};
use crate::discoverers::lpd::client::{LpdConfig, LpdDiscoverer};
use crate::discoverers::pex::client::PexDiscoverer;
use crate::discoverers::tracker::client::{public_texts, TrackerDiscoverer};
use crate::discoverers::webseed::client::WebSeedDiscoverer;
use crate::discoverers::{dht, lpd, not_named, pex, tracker, AnyDiscoverer, DiscovererRegistry};
use crate::text::{copy_texts, texts};
use crate::traits::{no_requests, DiscovererType, PeerDiscoverer};
use crate::types::Event;
use vstd::prelude::*;

verus! {

/// The kinds of discoverers.
pub open spec fn kinds(s: Seq<AnyDiscoverer>) -> Seq<DiscovererType> {
    s.map_values(|d: AnyDiscoverer| d.kind())
}

/// Whether a discoverer is set up as a configuration has it, and was not used yet.
pub open spec fn fits(config: PdcConfig, d: AnyDiscoverer) -> bool {
    match d {
        AnyDiscoverer::Tracker(t) => {
            &&& tracker::client::has_usual_settings(t.config)
            &&& t.untried()
            &&& texts(t.config.trackers@) == if config.discoverers.custom_trackers@.len() == 0 {
                public_texts()
            } else {
                texts(config.discoverers.custom_trackers@)
            }
        },
        AnyDiscoverer::Dht(t) => {
            &&& dht::client::has_usual_settings(t.config)
            &&& t.config.listen_port == config.discoverers.dht_listen_port
            &&& !t.initialized
            &&& t.request_stats == no_requests()
        },
        AnyDiscoverer::Pex(t) => {
            &&& pex::client::has_usual_settings(t.config)
            &&& t.request_stats == no_requests()
        },
        AnyDiscoverer::Lpd(t) => {
            &&& lpd::client::has_usual_settings(t.config)
            &&& t.config.listen_port == config.discoverers.dht_listen_port
            &&& !t.listener_started
            &&& t.request_stats == no_requests()
        },
        AnyDiscoverer::WebSeed(t) => {
            &&& t.config.urls@.len() == 0
            &&& !t.config.enabled
            &&& t.request_stats == no_requests()
        },
    }
}

/// The configuration and the discoverers.
pub struct ControlPlane {
    pub config: PdcConfig,
    pub registry: DiscovererRegistry<AnyDiscoverer>,
}

impl ControlPlane {
    /// A control plane with the given configuration and discoverers.
    pub fn new(config: PdcConfig, registry: DiscovererRegistry<AnyDiscoverer>) -> (r: ControlPlane)
        ensures
            r.config == config,
            r.registry == registry,
    {
        ControlPlane { config, registry }
    }

    /// The configuration.
    pub fn config(&self) -> (r: &PdcConfig)
        ensures
            *r == self.config,
    {
        &self.config
    }

    /// Changes the configuration. The discoverers stay as they are. Returns what to tell the other
    /// parts.
    pub fn update_config(&mut self, new_config: PdcConfig) -> (r: Event)
        ensures
            final(self).config == new_config,
            final(self).registry == old(self).registry,
            r is ConfigChanged,
    {
        self.config = new_config;
        Event::ConfigChanged
    }

    /// The discoverers.
    pub fn registry(&self) -> (r: &DiscovererRegistry<AnyDiscoverer>)
        ensures
            *r == self.registry,
    {
        &self.registry
    }

    /// Adds a discoverer.
    pub fn register_discoverer(&mut self, discoverer: AnyDiscoverer)
        ensures
            final(self).config == old(self).config,
            final(self).registry.discoverers@ == old(self).registry.discoverers@.push(discoverer),
    {
        self.registry.register(discoverer);
    }

    /// Drops the discoverers with a name.
    pub fn unregister_discoverer(&mut self, name: &str)
        ensures
            final(self).config == old(self).config,
            final(self).registry.discoverers@ == old(self).registry.discoverers@.filter(
                not_named(name@),
            ),
    {
        self.registry.unregister(name);
    }

    /// Adds a discoverer of a kind if `wanted`.
    fn add_if(&mut self, wanted: bool, discoverer: AnyDiscoverer, Ghost(from): Ghost<int>)
        requires
            0 <= from <= old(self).registry.discoverers@.len(),
            fits(old(self).config, discoverer),
            forall|i: int|
                from <= i < old(self).registry.discoverers@.len() ==> fits(
                    old(self).config,
                    #[trigger] old(self).registry.discoverers@[i],
                ),
        ensures
            final(self).config == old(self).config,
            final(self).registry.discoverers@.take(from) == old(self).registry.discoverers@.take(
                from,
            ),
            kinds(final(self).registry.discoverers@) == kinds(old(self).registry.discoverers@)
                + type_if(wanted, discoverer.kind()),
            forall|i: int|
                from <= i < final(self).registry.discoverers@.len() ==> fits(
                    old(self).config,
                    #[trigger] final(self).registry.discoverers@[i],
                ),
            final(self).registry.discoverers@.len() >= old(self).registry.discoverers@.len(),
    {
        let ghost before = self.registry.discoverers@;
        if wanted {
            self.registry.register(discoverer);
        }
        proof {
            let after = self.registry.discoverers@;
            assert(after.take(from) =~= before.take(from));
            assert(kinds(after) =~= kinds(before) + type_if(wanted, discoverer.kind()));
        }
    }

    /// Adds the discoverers that the configuration asks for, in a fixed order.
    pub fn init_default_discoverers(&mut self)
        ensures
            final(self).config == old(self).config,
            final(self).registry.discoverers@.len() >= old(self).registry.discoverers@.len(),
            final(self).registry.discoverers@.take(old(self).registry.discoverers@.len() as int)
                == old(self).registry.discoverers@,
            kinds(final(self).registry.discoverers@) == kinds(old(self).registry.discoverers@)
                + enabled_types_of(old(self).config),
            forall|i: int|
                old(self).registry.discoverers@.len() <= i < final(self).registry.discoverers@.len() ==> fits(
                    old(self).config,
                    #[trigger] final(self).registry.discoverers@[i],
                ),
    {
        let ghost before = self.registry.discoverers@;
        let ghost n = before.len() as int;
        let tracker: TrackerDiscoverer = if self.config.discoverers.custom_trackers.len() == 0 {
            TrackerDiscoverer::with_default_config()
        } else {
            TrackerDiscoverer::with_trackers(copy_texts(&self.config.discoverers.custom_trackers))
        };
        let mut dht_config: DhtConfig = DhtConfig::default();
        dht_config.listen_port = self.config.discoverers.dht_listen_port;
        let mut lpd_config: LpdConfig = LpdConfig::default();
        lpd_config.listen_port = self.config.discoverers.dht_listen_port;
        let enable_tracker: bool = self.config.discoverers.enable_tracker;
        let enable_dht: bool = self.config.discoverers.enable_dht;
        let enable_pex: bool = self.config.discoverers.enable_pex;
        let enable_lpd: bool = self.config.discoverers.enable_lpd;
        let enable_webseed: bool = self.config.discoverers.enable_webseed;
        self.add_if(enable_tracker, AnyDiscoverer::Tracker(tracker), Ghost(n));
        self.add_if(enable_dht, AnyDiscoverer::Dht(DhtDiscoverer::new(dht_config)), Ghost(n));
        self.add_if(
            enable_pex,
            AnyDiscoverer::Pex(PexDiscoverer::with_default_config()),
            Ghost(n),
        );
        self.add_if(enable_lpd, AnyDiscoverer::Lpd(LpdDiscoverer::new(lpd_config)), Ghost(n));
        self.add_if(
            enable_webseed,
            AnyDiscoverer::WebSeed(WebSeedDiscoverer::with_default_config()),
            Ghost(n),
        );
        proof {
            let after = self.registry.discoverers@;
            assert(before.take(n) =~= before);
            assert(kinds(after) =~= kinds(before) + enabled_types_of(self.config));
        }
    }

    /// How a discovery is carried out.
    pub fn policy(&self) -> (r: DiscoveryPolicy)
        ensures
            r.max_concurrent == self.config.discoverers.max_concurrent,
            r.timeout_secs == self.config.discoverers.discovery_timeout_secs,
            r.max_peers == self.config.cache.max_peers_per_discovery,
            r.enabled_types@ == enabled_types_of(self.config),
            r.prefer_cache,
            r.cache_hit_threshold == 20,
    {
        DiscoveryPolicy::from_config(&self.config)
    }
}

/// The trackers are those of the configuration, the public ones only if it names none, and the DHT and
/// the search in the local network tell the port of the configuration; nobody was asked yet.
pub proof fn law_discoverers_follow_the_configuration(config: PdcConfig, d: AnyDiscoverer)
    requires
        fits(config, d),
    ensures
        d matches AnyDiscoverer::Tracker(t) ==> {
            &&& config.discoverers.custom_trackers@.len() > 0 ==> texts(t.config.trackers@) == texts(
                config.discoverers.custom_trackers@,
            )
            &&& config.discoverers.custom_trackers@.len() == 0 ==> texts(t.config.trackers@)
                == public_texts()
        },
        d matches AnyDiscoverer::Dht(t) ==> t.config.listen_port
            == config.discoverers.dht_listen_port && t.request_stats.total_requests == 0
            && !t.initialized,
        d matches AnyDiscoverer::Lpd(t) ==> t.config.listen_port
            == config.discoverers.dht_listen_port && t.request_stats.total_requests == 0,
        d matches AnyDiscoverer::Pex(t) ==> t.request_stats.total_requests == 0,
        d matches AnyDiscoverer::WebSeed(t) ==> t.config.urls@.len() == 0 && !t.config.enabled,
{
}

} // verus!
