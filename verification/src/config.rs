//! The configuration.

use crate::text::{join_path, joined, push_text_if, text_if, texts};
use vstd::prelude::*;

verus! {

/// The whole configuration.
#[derive(Debug, Clone)]
pub struct PdcConfig {
    pub server: ServerConfig,
    pub super_tracker: SuperTrackerConfig,
    pub discoverers: DiscoverersConfig,
    pub cache: CacheConfig,
    pub health_check: HealthCheckConfig,
    pub crawler: CrawlerConfig,
    pub nat: NatConfig,
    pub agent: AgentConfig,
    pub controller: ControllerConfig,
    pub log_level: String,
}

/// The server.
#[derive(Debug, Clone)]
pub struct ServerConfig {
    /// The address to listen on.
    pub listen: String,
    /// The port to listen on.
    pub port: u16,
    /// The token that requests need, none for open access.
    pub token: Option<String>,
    /// The working directory.
    pub work_dir: String,
}

/// The tracker that this node offers.
#[derive(Debug, Clone)]
pub struct SuperTrackerConfig {
    pub enabled: bool,
    pub announce_path: String,
    pub scrape_path: String,
    /// Seconds after which a client should announce again.
    pub interval: i64,
    /// Seconds before which a client should not announce again.
    pub min_interval: i64,
    /// How many peers an answer holds.
    pub max_numwant: usize,
    /// Seconds after which a peer has expired.
    pub peer_ttl_secs: u64,
    /// Whether an announcement starts a discovery.
    pub trigger_backend_discovery: bool,
    /// The port for UDP, none for that of HTTP.
    pub udp_port: Option<u16>,
}

/// The discoverers.
#[derive(Debug, Clone)]
pub struct DiscoverersConfig {
    pub enable_tracker: bool,
    pub enable_dht: bool,
    pub enable_pex: bool,
    pub enable_lpd: bool,
    pub enable_webseed: bool,
    /// How long a discovery may take, in seconds.
    pub discovery_timeout_secs: u64,
    /// How many discoverers run at a time.
    pub max_concurrent: usize,
    /// Trackers to use in place of the public ones.
    pub custom_trackers: Vec<String>,
    pub dht_listen_port: u16,
}

/// The cache of peers.
#[derive(Debug, Clone, Copy)]
pub struct CacheConfig {
    /// How many peers are cached.
    pub max_cached_peers: usize,
    /// Seconds after which a peer has expired.
    pub peer_ttl_secs: u64,
    /// How many peers a discovery returns.
    pub max_peers_per_discovery: usize,
}

/// The regular checks.
#[derive(Debug, Clone, Copy)]
pub struct HealthCheckConfig {
    /// Seconds between two checks of the discoverers.
    pub interval_secs: u64,
    /// Seconds between two clearings of the cache.
    pub cache_cleanup_interval_secs: u64,
    /// Seconds between two outputs of statistics.
    pub stats_output_interval_secs: u64,
}

/// The crawler.
#[derive(Debug, Clone)]
pub struct CrawlerConfig {
    pub enabled: bool,
    pub crawl_interval_secs: u64,
    pub max_nodes: usize,
    pub max_infohashes: usize,
    pub listen_port: u16,
    pub bootstrap_nodes: Vec<(String, u16)>,
}

/// The port mapping.
#[derive(Debug, Clone, Copy)]
pub struct NatConfig {
    pub enabled: bool,
    /// Seconds that a mapping is kept, zero for ever.
    pub lease_duration: u32,
}

/// The agent mode.
#[derive(Debug, Clone)]
pub struct AgentConfig {
    pub enabled: bool,
    /// The name of the node, none for that of the host.
    pub name: Option<String>,
    pub region: Option<String>,
    pub heartbeat_interval_secs: u64,
    pub reconnect_interval_secs: u64,
    /// The ports on which a master is looked for.
    pub scan_ports: Vec<u16>,
}

/// The connection to a master.
#[derive(Debug, Clone)]
pub struct ControllerConfig {
    pub master: Option<String>,
    pub token: Option<String>,
    pub auto_discover_master: bool,
}

impl Default for ServerConfig {
    fn default() -> (r: ServerConfig)
        ensures
            r.listen@ == "0.0.0.0"@,
            r.port == 6880,
            r.token is None,
            r.work_dir@ == "pdc-data"@,
    {
        ServerConfig {
            listen: "0.0.0.0".to_string(),
            port: 6880,
            token: None,
            work_dir: "pdc-data".to_string(),
        }
    }
}

impl Default for SuperTrackerConfig {
    fn default() -> (r: SuperTrackerConfig)
        ensures
            r.enabled,
            r.announce_path@ == "/announce"@,
            r.scrape_path@ == "/scrape"@,
            r.interval == 1800,
            r.min_interval == 900,
            r.max_numwant == 100,
            r.peer_ttl_secs == 3600,
            r.trigger_backend_discovery,
            r.udp_port is None,
    {
        SuperTrackerConfig {
            enabled: true,
            announce_path: "/announce".to_string(),
            scrape_path: "/scrape".to_string(),
            interval: 1800,
            min_interval: 900,
            max_numwant: 100,
            peer_ttl_secs: 3600,
            trigger_backend_discovery: true,
            udp_port: None,
        }
    }
}

impl Default for DiscoverersConfig {
    fn default() -> (r: DiscoverersConfig)
        ensures
            r.enable_tracker,
            r.enable_dht,
            r.enable_pex,
            !r.enable_lpd,
            !r.enable_webseed,
            r.discovery_timeout_secs == 30,
            r.max_concurrent == 10,
            r.custom_trackers@ == Seq::<String>::empty(),
            r.dht_listen_port == 6881,
    {
        DiscoverersConfig {
            enable_tracker: true,
            enable_dht: true,
            enable_pex: true,
            enable_lpd: false,
            enable_webseed: false,
            discovery_timeout_secs: 30,
            max_concurrent: 10,
            custom_trackers: Vec::new(),
            dht_listen_port: 6881,
        }
    }
}

impl Default for CacheConfig {
    fn default() -> (r: CacheConfig)
        ensures
            r == (CacheConfig {
                max_cached_peers: 10000,
                peer_ttl_secs: 86400,
                max_peers_per_discovery: 200,
            }),
    {
        CacheConfig { max_cached_peers: 10000, peer_ttl_secs: 86400, max_peers_per_discovery: 200 }
    }
}

impl Default for HealthCheckConfig {
    fn default() -> (r: HealthCheckConfig)
        ensures
            r == (HealthCheckConfig {
                interval_secs: 300,
                cache_cleanup_interval_secs: 600,
                stats_output_interval_secs: 300,
            }),
    {
        HealthCheckConfig {
            interval_secs: 300,
            cache_cleanup_interval_secs: 600,
            stats_output_interval_secs: 300,
        }
    }
}

/// The names and ports of a list of hosts.
pub open spec fn hosts(v: Seq<(String, u16)>) -> Seq<(Seq<char>, u16)> {
    v.map_values(|h: (String, u16)| (h.0@, h.1))
}

/// The hosts and ports where a crawler starts unless it is told otherwise.
pub open spec fn usual_bootstrap_nodes() -> Seq<(Seq<char>, u16)> {
    seq![
        ("router.bittorrent.com"@, 6881u16),
        ("dht.transmissionbt.com"@, 6881u16),
        ("router.utorrent.com"@, 6881u16),
        ("dht.aelitis.com"@, 6881u16),
        ("bootstap.bitcomet.com"@, 6881u16),
    ]
}

impl Default for CrawlerConfig {
    fn default() -> (r: CrawlerConfig)
        ensures
            !r.enabled,
            r.crawl_interval_secs == 60,
            r.max_nodes == 1000,
            r.max_infohashes == 100000,
            r.listen_port == 6882,
            hosts(r.bootstrap_nodes@) == usual_bootstrap_nodes(),
    {
        let bootstrap_nodes: Vec<(String, u16)> = vec![
            ("router.bittorrent.com".to_string(), 6881),
            ("dht.transmissionbt.com".to_string(), 6881),
            ("router.utorrent.com".to_string(), 6881),
            ("dht.aelitis.com".to_string(), 6881),
            ("bootstap.bitcomet.com".to_string(), 6881),
        ];
        assert(hosts(bootstrap_nodes@) =~= usual_bootstrap_nodes());
        CrawlerConfig {
            enabled: false,
            crawl_interval_secs: 60,
            max_nodes: 1000,
            max_infohashes: 100000,
            listen_port: 6882,
            bootstrap_nodes,
        }
    }
}

impl Default for NatConfig {
    fn default() -> (r: NatConfig)
        ensures
            r == (NatConfig { enabled: false, lease_duration: 3600 }),
    {
        NatConfig { enabled: false, lease_duration: 3600 }
    }
}

impl Default for AgentConfig {
    fn default() -> (r: AgentConfig)
        ensures
            !r.enabled,
            r.name is None,
            r.region is None,
            r.heartbeat_interval_secs == 5,
            r.reconnect_interval_secs == 3,
            r.scan_ports@ == seq![5566u16, 8080u16, 80u16, 8000u16, 3000u16],
    {
        AgentConfig {
            enabled: false,
            name: None,
            region: None,
            heartbeat_interval_secs: 5,
            reconnect_interval_secs: 3,
            scan_ports: vec![5566, 8080, 80, 8000, 3000],
        }
    }
}

impl Default for ControllerConfig {
    fn default() -> (r: ControllerConfig)
        ensures
            r.master is None,
            r.token is None,
            r.auto_discover_master,
    {
        ControllerConfig { master: None, token: None, auto_discover_master: true }
    }
}

impl Default for PdcConfig {
    fn default() -> (r: PdcConfig)
        ensures
            r.is_default(),
    {
        PdcConfig {
            server: ServerConfig::default(),
            super_tracker: SuperTrackerConfig::default(),
            discoverers: DiscoverersConfig::default(),
            cache: CacheConfig::default(),
            health_check: HealthCheckConfig::default(),
            crawler: CrawlerConfig::default(),
            nat: NatConfig::default(),
            agent: AgentConfig::default(),
            controller: ControllerConfig::default(),
            log_level: "info".to_string(),
        }
    }
}

/// The capabilities that every node has.
pub open spec fn common_capabilities() -> Seq<Seq<char>> {
    seq!["cache"@, "announce"@, "priority_sorting"@, "dedup"@, "health_check"@]
}

impl PdcConfig {
    /// The values that the sections have without a configuration file.
    pub open spec fn is_default(&self) -> bool {
        &&& self.server.listen@ == "0.0.0.0"@
        &&& self.server.port == 6880
        &&& self.server.token is None
        &&& self.server.work_dir@ == "pdc-data"@
        &&& self.super_tracker.enabled
        &&& self.super_tracker.announce_path@ == "/announce"@
        &&& self.super_tracker.scrape_path@ == "/scrape"@
        &&& self.super_tracker.interval == 1800
        &&& self.super_tracker.min_interval == 900
        &&& self.super_tracker.max_numwant == 100
        &&& self.super_tracker.peer_ttl_secs == 3600
        &&& self.super_tracker.trigger_backend_discovery
        &&& self.super_tracker.udp_port is None
        &&& self.discoverers.enable_tracker
        &&& self.discoverers.enable_dht
        &&& self.discoverers.enable_pex
        &&& !self.discoverers.enable_lpd
        &&& !self.discoverers.enable_webseed
        &&& self.discoverers.discovery_timeout_secs == 30
        &&& self.discoverers.max_concurrent == 10
        &&& self.discoverers.custom_trackers@ == Seq::<String>::empty()
        &&& self.discoverers.dht_listen_port == 6881
        &&& self.cache == (CacheConfig {
            max_cached_peers: 10000,
            peer_ttl_secs: 86400,
            max_peers_per_discovery: 200,
        })
        &&& self.health_check == (HealthCheckConfig {
            interval_secs: 300,
            cache_cleanup_interval_secs: 600,
            stats_output_interval_secs: 300,
        })
        &&& !self.crawler.enabled
        &&& self.crawler.crawl_interval_secs == 60
        &&& self.crawler.max_nodes == 1000
        &&& self.crawler.max_infohashes == 100000
        &&& self.crawler.listen_port == 6882
        &&& hosts(self.crawler.bootstrap_nodes@) == usual_bootstrap_nodes()
        &&& self.nat == (NatConfig { enabled: false, lease_duration: 3600 })
        &&& !self.agent.enabled
        &&& self.agent.name is None
        &&& self.agent.region is None
        &&& self.agent.heartbeat_interval_secs == 5
        &&& self.agent.reconnect_interval_secs == 3
        &&& self.agent.scan_ports@ == seq![5566u16, 8080u16, 80u16, 8000u16, 3000u16]
        &&& self.controller.master is None
        &&& self.controller.token is None
        &&& self.controller.auto_discover_master
        &&& self.log_level@ == "info"@
    }

    /// The configuration without a file.
    pub fn default_config() -> (r: PdcConfig)
        ensures
            r.is_default(),
    {
        Self::default()
    }

    /// The configuration that was read, or the one without a file if none could be read.
    pub fn loaded_or_default(loaded: Option<PdcConfig>) -> (r: PdcConfig)
        ensures
            match loaded {
                Some(c) => r == c,
                None => r.is_default(),
            },
    {
        match loaded {
            Some(c) => c,
            None => Self::default(),
        }
    }

    /// The UDP port of the tracker that this node offers.
    pub open spec fn udp_port_spec(&self) -> u16 {
        match self.super_tracker.udp_port {
            Some(p) => p,
            None => self.server.port,
        }
    }

    /// The UDP port of the tracker that this node offers.
    pub fn udp_port(&self) -> (r: u16)
        ensures
            r == self.udp_port_spec(),
    {
        match self.super_tracker.udp_port {
            Some(p) => p,
            None => self.server.port,
        }
    }

    /// The ports that are to be reached from outside: for HTTP, for UDP and for the crawler, which is
    /// zero if there is none.
    pub fn mapped_ports(&self) -> (r: (u16, u16, u16))
        ensures
            r.0 == self.server.port,
            r.1 == self.udp_port_spec(),
            r.2 == if self.crawler.enabled {
                self.crawler.listen_port
            } else {
                0
            },
    {
        let crawler_port: u16 = if self.crawler.enabled {
            self.crawler.listen_port
        } else {
            0
        };
        (self.server.port, self.udp_port(), crawler_port)
    }

    /// The capabilities that a node with this configuration has.
    pub open spec fn capabilities(&self) -> Seq<Seq<char>> {
        text_if(self.discoverers.enable_tracker, "tracker"@) + text_if(
            self.discoverers.enable_dht,
            "dht"@,
        ) + text_if(self.discoverers.enable_pex, "pex"@) + text_if(
            self.discoverers.enable_lpd,
            "lpd"@,
        ) + text_if(self.discoverers.enable_webseed, "webseed"@) + common_capabilities()
    }

    /// The capabilities that a node with this configuration has: those of its discoverers, then
    /// those that every node has.
    pub fn capability_tags(&self) -> (r: Vec<String>)
        ensures
            texts(r@) == self.capabilities(),
    {
        let mut caps: Vec<String> = Vec::new();
        push_text_if(&mut caps, self.discoverers.enable_tracker, "tracker");
        push_text_if(&mut caps, self.discoverers.enable_dht, "dht");
        push_text_if(&mut caps, self.discoverers.enable_pex, "pex");
        push_text_if(&mut caps, self.discoverers.enable_lpd, "lpd");
        push_text_if(&mut caps, self.discoverers.enable_webseed, "webseed");
        let ghost enabled = texts(caps@);
        push_text_if(&mut caps, true, "cache");
        push_text_if(&mut caps, true, "announce");
        push_text_if(&mut caps, true, "priority_sorting");
        push_text_if(&mut caps, true, "dedup");
        push_text_if(&mut caps, true, "health_check");
        assert(texts(caps@) =~= enabled + common_capabilities());
        assert(texts(caps@) =~= self.capabilities());
        caps
    }
}

/// The working directory: the one that is asked for, else one beside the program, else one in the
/// present directory.
pub fn resolve_work_dir(explicit: Option<&str>, program_dir: Option<&str>) -> (r: String)
    ensures
        r@ == match explicit {
            Some(dir) => dir@,
            None => match program_dir {
                Some(dir) => joined(dir@, "pdc-node"@),
                None => "pdc-node"@,
            },
        },
{
    match explicit {
        Some(dir) => dir.to_string(),
        None => match program_dir {
            Some(dir) => join_path(dir, "pdc-node"),
            None => "pdc-node".to_string(),
        },
    }
}

/// A node names the capability of a discoverer if and only if that is enabled, and the common ones in
/// any case.
pub proof fn law_capabilities_follow_the_configuration(config: PdcConfig)
    ensures
        config.capabilities().contains("tracker"@) <==> config.discoverers.enable_tracker,
        config.capabilities().contains("dht"@) <==> config.discoverers.enable_dht,
        config.capabilities().contains("pex"@) <==> config.discoverers.enable_pex,
        config.capabilities().contains("lpd"@) <==> config.discoverers.enable_lpd,
        config.capabilities().contains("webseed"@) <==> config.discoverers.enable_webseed,
        config.capabilities().contains("cache"@),
        config.capabilities().contains("announce"@),
        config.capabilities().contains("priority_sorting"@),
        config.capabilities().contains("dedup"@),
        config.capabilities().contains("health_check"@),
{
    reveal_strlit("tracker");
    reveal_strlit("dht");
    reveal_strlit("pex");
    reveal_strlit("lpd");
    reveal_strlit("webseed");
    reveal_strlit("cache");
    reveal_strlit("announce");
    reveal_strlit("priority_sorting");
    reveal_strlit("dedup");
    reveal_strlit("health_check");
    assert("tracker"@.len() == 7 && "tracker"@[0] == 't');
    assert("webseed"@.len() == 7 && "webseed"@[0] == 'w');
    assert("dht"@.len() == 3 && "dht"@[0] == 'd');
    assert("pex"@.len() == 3 && "pex"@[0] == 'p');
    assert("lpd"@.len() == 3 && "lpd"@[0] == 'l');
    assert("cache"@.len() == 5 && "announce"@.len() == 8 && "priority_sorting"@.len() == 16);
    assert("dedup"@.len() == 5 && "health_check"@.len() == 12);
    let d = config.discoverers;
    let a = text_if(d.enable_tracker, "tracker"@);
    let b = text_if(d.enable_dht, "dht"@);
    let c = text_if(d.enable_pex, "pex"@);
    let e = text_if(d.enable_lpd, "lpd"@);
    let f = text_if(d.enable_webseed, "webseed"@);
    let g = common_capabilities();
    let all = config.capabilities();
    assert(all == a + b + c + e + f + g);
    assert forall|t: Seq<char>| #[trigger] all.contains(t) <==> a.contains(t) || b.contains(t)
        || c.contains(t) || e.contains(t) || f.contains(t) || g.contains(t) by {
        vstd::seq_lib::lemma_seq_concat_contains_all_elements(a, b, t);
        vstd::seq_lib::lemma_seq_concat_contains_all_elements(a + b, c, t);
        vstd::seq_lib::lemma_seq_concat_contains_all_elements(a + b + c, e, t);
        vstd::seq_lib::lemma_seq_concat_contains_all_elements(a + b + c + e, f, t);
        vstd::seq_lib::lemma_seq_concat_contains_all_elements(a + b + c + e + f, g, t);
    }
    assert(d.enable_tracker ==> a[0] == "tracker"@);
    assert(d.enable_dht ==> b[0] == "dht"@);
    assert(d.enable_pex ==> c[0] == "pex"@);
    assert(d.enable_lpd ==> e[0] == "lpd"@);
    assert(d.enable_webseed ==> f[0] == "webseed"@);
    assert(g[0] == "cache"@ && g[1] == "announce"@ && g[2] == "priority_sorting"@);
    assert(g[3] == "dedup"@ && g[4] == "health_check"@);
}

/// The tracker has the UDP port that is configured for it, or the port of the web interface.
pub proof fn law_udp_port_of_the_tracker(config: PdcConfig)
    ensures
        config.super_tracker.udp_port is Some ==> config.udp_port_spec()
            == config.super_tracker.udp_port->0,
        config.super_tracker.udp_port is None ==> config.udp_port_spec() == config.server.port,
{
}

} // verus!
