//! Sources that are downloaded from over HTTP.
//!
//! Such a source is no peer. It is passed on as one with an address that stands for nothing, and the
//! address of the source is in the metadata, under the name `webseed_url`.

use crate::clock::unix_nanos;
use crate::net::{IpAddr, SocketAddr};
use crate::seqs::at_most;
use crate::text::{copy_texts, texts};
use crate::traits::{no_requests, DiscovererStats, DiscovererType, PeerDiscoverer};
use crate::types::{Infohash, PeerInfo, PeerModel, PeerSource};
use crate::vecmap::VecMap;
use vstd::prelude::*;
use vstd::string::*;

verus! {

/// The score of a source.
pub const WEBSEED_SCORE: u32 = 200;

/// The sources that are known.
pub struct WebSeedConfig {
    /// The sources for every infohash.
    pub urls: Vec<String>,
    /// The sources for some infohashes.
    pub infohash_urls: VecMap<Infohash, Vec<String>>,
    pub enabled: bool,
}

impl Default for WebSeedConfig {
    fn default() -> (r: WebSeedConfig)
        ensures
            r.urls@ == Seq::<String>::empty(),
            r.infohash_urls@ == Map::<Seq<u8>, Vec<String>>::empty(),
            !r.enabled,
    {
        WebSeedConfig { urls: Vec::new(), infohash_urls: VecMap::new(), enabled: false }
    }
}

/// The sources for one infohash alone.
pub open spec fn own_urls(m: Map<Seq<u8>, Vec<String>>, infohash: Seq<u8>) -> Seq<Seq<char>> {
    if m.contains_key(infohash) {
        texts(m[infohash]@)
    } else {
        Seq::empty()
    }
}

/// All sources for an infohash.
pub open spec fn urls_for(config: WebSeedConfig, infohash: Seq<u8>) -> Seq<Seq<char>> {
    texts(config.urls@) + own_urls(config.infohash_urls@, infohash)
}

/// The address that stands for the source at a position.
pub open spec fn virtual_addr(index: int) -> SocketAddr {
    SocketAddr { ip: IpAddr::V4([0u8, 0u8, 0u8, 0u8]), port: ((index + 1) % 0x1_0000) as u16 }
}

/// Whether `m` passes on the source `url` at a position, learned of at time `now`.
pub open spec fn passes_on(m: PeerModel, url: Seq<char>, index: int, now: u64) -> bool {
    &&& m == (PeerModel {
        priority_score: WEBSEED_SCORE,
        metadata: m.metadata,
        ..PeerModel::fresh(virtual_addr(index), PeerSource::WebSeed, now)
    })
    &&& m.metadata.dom() == set!["webseed_url"@]
    &&& m.metadata["webseed_url"@]@ == url
}

/// Sources that are downloaded from over HTTP.
pub struct WebSeedDiscoverer {
    pub config: WebSeedConfig,
    pub request_stats: DiscovererStats,
}

impl WebSeedDiscoverer {
    /// A discoverer that knows the given sources.
    pub fn new(config: WebSeedConfig) -> (r: WebSeedDiscoverer)
        ensures
            r.config == config,
            r.request_stats == no_requests(),
    {
        WebSeedDiscoverer { config, request_stats: DiscovererStats::default() }
    }

    /// A discoverer that knows no sources.
    pub fn with_default_config() -> (r: WebSeedDiscoverer)
        ensures
            r.config.urls@ == Seq::<String>::empty(),
            r.config.infohash_urls@ == Map::<Seq<u8>, Vec<String>>::empty(),
            !r.config.enabled,
            r.request_stats == no_requests(),
    {
        Self::new(WebSeedConfig::default())
    }

    /// Adds a source for every infohash.
    pub fn add_url(&mut self, url: String)
        ensures
            final(self).config.urls@ == old(self).config.urls@.push(url),
            final(self).config.infohash_urls == old(self).config.infohash_urls,
            final(self).config.enabled == old(self).config.enabled,
            final(self).request_stats == old(self).request_stats,
    {
        self.config.urls.push(url);
    }

    /// Adds a source for one infohash.
    pub fn add_infohash_url(&mut self, infohash: Infohash, url: String)
        ensures
            final(self).config.urls == old(self).config.urls,
            final(self).config.enabled == old(self).config.enabled,
            final(self).request_stats == old(self).request_stats,
            own_urls(final(self).config.infohash_urls@, infohash@) == own_urls(
                old(self).config.infohash_urls@,
                infohash@,
            ).push(url@),
            forall|k: Seq<u8>|
                k != infohash@ ==> #[trigger] own_urls(final(self).config.infohash_urls@, k)
                    == own_urls(old(self).config.infohash_urls@, k),
    {
        let ghost before = self.config.infohash_urls@;
        let mut list: Vec<String> = match self.config.infohash_urls.remove(&infohash) {
            Some(v) => v,
            None => Vec::new(),
        };
        assert(texts(list@) =~= own_urls(before, infohash@));
        let ghost list0 = list@;
        list.push(url);
        assert(texts(list@) =~= texts(list0).push(url@));
        self.config.infohash_urls.insert(infohash, list);
    }

    /// All sources for an infohash: those for every infohash and then those for this one.
    pub fn get_urls_for_infohash(&self, infohash: &Infohash) -> (r: Vec<String>)
        ensures
            texts(r@) == urls_for(self.config, infohash@),
    {
        let mut urls: Vec<String> = copy_texts(&self.config.urls);
        let mut own: Vec<String> = match self.config.infohash_urls.get(infohash) {
            Some(v) => copy_texts(v),
            None => Vec::new(),
        };
        let ghost a = urls@;
        let ghost b = own@;
        assert(texts(b) =~= own_urls(self.config.infohash_urls@, infohash@));
        urls.append(&mut own);
        assert(texts(urls@) =~= texts(a) + texts(b));
        urls
    }

    /// The source at a position as it is passed on.
    pub fn url_to_peer_info_at(url: &str, index: usize, now: u64) -> (r: PeerInfo)
        requires
            index < usize::MAX,
        ensures
            passes_on(r@, url@, index as int, now),
    {
        let port: u16 = ((index + 1) % 0x1_0000) as u16;
        let addr: SocketAddr = SocketAddr { ip: IpAddr::V4([0u8, 0u8, 0u8, 0u8]), port };
        let mut info: PeerInfo = PeerInfo::new_at(addr, PeerSource::WebSeed, now);
        info.metadata.insert("webseed_url".to_string(), url.to_string());
        info.priority_score = WEBSEED_SCORE;
        assert(info@.metadata.dom() =~= set!["webseed_url"@]);
        info
    }

    /// The source at a position as it is passed on.
    pub fn url_to_peer_info(url: &str, index: usize) -> (r: PeerInfo)
        requires
            index < usize::MAX,
        ensures
            passes_on(r@, url@, index as int, r.first_seen),
    {
        Self::url_to_peer_info_at(url, index, unix_nanos())
    }

    /// The first `limit` sources for an infohash, as they are passed on at time `now`. Counts the
    /// request.
    pub fn discover_peers_at(&mut self, infohash: &Infohash, limit: usize, now: u64) -> (r: Vec<
        PeerInfo,
    >)
        requires
            old(self).request_stats.total_requests < u64::MAX,
            old(self).request_stats.success_requests < u64::MAX,
            old(self).request_stats.total_peers_discovered + urls_for(
                old(self).config,
                infohash@,
            ).len() <= u64::MAX,
        ensures
            r@.len() == at_most(limit as int, urls_for(old(self).config, infohash@).len() as int),
            forall|i: int|
                0 <= i < r@.len() ==> passes_on(
                    (#[trigger] r@[i])@,
                    urls_for(old(self).config, infohash@)[i],
                    i,
                    now,
                ),
            final(self).config == old(self).config,
            final(self).request_stats == (DiscovererStats {
                total_requests: (old(self).request_stats.total_requests + 1) as u64,
                success_requests: (old(self).request_stats.success_requests + 1) as u64,
                total_peers_discovered: (old(self).request_stats.total_peers_discovered
                    + r@.len()) as u64,
                last_success_at: Some(now),
                ..old(self).request_stats
            }),
    {
        let urls: Vec<String> = self.get_urls_for_infohash(infohash);
        let ghost all = texts(urls@);
        let count: usize = if limit < urls.len() {
            limit
        } else {
            urls.len()
        };
        let mut out: Vec<PeerInfo> = Vec::with_capacity(count);
        let mut i: usize = 0;
        while i < count
            invariant
                i <= count <= urls@.len(),
                all == texts(urls@),
                out@.len() == i,
                forall|j: int| 0 <= j < i ==> passes_on((#[trigger] out@[j])@, all[j], j, now),
            decreases count - i,
        {
            out.push(Self::url_to_peer_info_at(urls[i].as_str(), i, now));
            i += 1;
        }
        self.request_stats.record_success_at(out.len(), now);
        out
    }

    /// The first `limit` sources for an infohash, as they are passed on. Counts the request.
    pub fn discover_peers(&mut self, infohash: &Infohash, limit: usize) -> (r: Vec<PeerInfo>)
        requires
            old(self).request_stats.total_requests < u64::MAX,
            old(self).request_stats.success_requests < u64::MAX,
            old(self).request_stats.total_peers_discovered + urls_for(
                old(self).config,
                infohash@,
            ).len() <= u64::MAX,
        ensures
            r@.len() == at_most(limit as int, urls_for(old(self).config, infohash@).len() as int),
            forall|i: int|
                0 <= i < r@.len() ==> passes_on(
                    (#[trigger] r@[i])@,
                    urls_for(old(self).config, infohash@)[i],
                    i,
                    r@[i].first_seen,
                ),
            final(self).config == old(self).config,
            final(self).request_stats.total_requests == old(self).request_stats.total_requests + 1,
            final(self).request_stats.success_requests == old(self).request_stats.success_requests
                + 1,
            final(self).request_stats.failed_requests == old(self).request_stats.failed_requests,
            final(self).request_stats.total_peers_discovered == old(
                self,
            ).request_stats.total_peers_discovered + r@.len(),
    {
        self.discover_peers_at(infohash, limit, unix_nanos())
    }

    /// Whether any source is known.
    pub fn health_check(&self) -> (r: bool)
        ensures
            r == (self.config.urls@.len() > 0 || self.config.infohash_urls@.len() > 0),
    {
        self.config.urls.len() > 0 || self.config.infohash_urls.len() > 0
    }

    /// The request counts.
    pub fn stats(&self) -> (r: DiscovererStats)
        ensures
            r == self.request_stats,
    {
        self.request_stats
    }
}

impl PeerDiscoverer for WebSeedDiscoverer {
    open spec fn label(&self) -> Seq<char> {
        "webseed"@
    }

    open spec fn kind(&self) -> DiscovererType {
        DiscovererType::WebSeed
    }

    /// Without a source for every infohash there is nothing to use.
    open spec fn enabled(&self) -> bool {
        self.config.enabled && self.config.urls@.len() > 0
    }

    fn name(&self) -> (r: &str) {
        "webseed"
    }

    fn discoverer_type(&self) -> (r: DiscovererType) {
        DiscovererType::WebSeed
    }

    fn is_enabled(&self) -> (r: bool) {
        self.config.enabled && self.config.urls.len() > 0
    }
}

/// The sources of an infohash are told apart by their addresses, as long as there are no more of
/// them than ports.
pub proof fn law_sources_have_distinct_addresses(i: int, j: int)
    requires
        0 <= i < j < 0x1_0000,
    ensures
        virtual_addr(i) != virtual_addr(j),
{
    assert((i + 1) % 0x1_0000 != (j + 1) % 0x1_0000);
}

/// The sources for an infohash are first those for every infohash and then those for it alone, and none for
/// another infohash.
pub proof fn law_sources_of_an_infohash(config: WebSeedConfig, infohash: Seq<u8>)
    ensures
        ({
            let all = urls_for(config, infohash);
            let n = config.urls@.len() as int;
            &&& forall|i: int| 0 <= i < n ==> #[trigger] all[i] == config.urls@[i]@
            &&& config.infohash_urls@.contains_key(infohash) ==> {
                let own = config.infohash_urls@[infohash]@;
                &&& all.len() == n + own.len()
                &&& forall|i: int| 0 <= i < own.len() ==> all[n + i] == (#[trigger] own[i])@
            }
            &&& !config.infohash_urls@.contains_key(infohash) ==> all.len() == n
        }),
{
}

/// A source is passed on with its own address under `webseed_url` and nothing else beside it, from the
/// source of its kind, with a score of 200 and an address that stands for nothing.
pub proof fn law_source_is_passed_on(m: PeerModel, url: Seq<char>, index: int, now: u64)
    requires
        passes_on(m, url, index, now),
        0 <= index < 65535,
    ensures
        m.metadata.contains_key("webseed_url"@),
        m.metadata["webseed_url"@]@ == url,
        forall|k: Seq<char>| #[trigger] m.metadata.contains_key(k) ==> k == "webseed_url"@,
        m.source == PeerSource::WebSeed,
        m.priority_score == 200,
        m.addr.port == index + 1,
        m.addr.ip matches IpAddr::V4(ip) && ip[0] == 0 && ip[1] == 0 && ip[2] == 0 && ip[3] == 0,
        m.first_seen == now,
        m.last_active == now,
        m.connection_attempts == 0,
        m.connection_successes == 0,
        m.peer_id is None,
{
    assert forall|k: Seq<char>| #[trigger] m.metadata.contains_key(k) implies k == "webseed_url"@ by {
        assert(m.metadata.dom().contains(k));
    }
    assert(m.metadata.dom().contains("webseed_url"@));
}

} // verus!
