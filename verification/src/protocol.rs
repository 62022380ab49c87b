//! Requests and answers of the node's own interface.

use crate::random::{is_random_uuid, random_uuid};
use crate::vecmap::VecMap;
use vstd::prelude::*;

verus! {

/// How many peers are returned if a request does not say.
pub const DEFAULT_LIMIT: usize = 200;

/// The event of an announcement that does not say.
pub const DEFAULT_EVENT: &'static str = "none";

/// A request for peers.
#[derive(Debug, Clone)]
pub struct DiscoverRequest {
    /// The infohash in hexadecimal.
    pub infohash: String,
    pub limit: usize,
}

impl DiscoverRequest {
    /// A request with or without a limit.
    pub fn new(infohash: String, limit: Option<usize>) -> (r: DiscoverRequest)
        ensures
            r.infohash == infohash,
            r.limit == match limit {
                Some(n) => n,
                None => 200,
            },
    {
        let limit: usize = match limit {
            Some(n) => n,
            None => DEFAULT_LIMIT,
        };
        DiscoverRequest { infohash, limit }
    }
}

/// A peer.
#[derive(Debug, Clone)]
pub struct PeerResponse {
    /// The address and the port.
    pub addr: String,
    /// The kind of discoverer that found it.
    pub source: String,
    pub priority_score: u32,
    pub is_ipv6: bool,
}

/// The peers of an infohash.
pub struct DiscoverResponse {
    pub peers_count: usize,
    pub peers: Vec<PeerResponse>,
    pub duration_ms: u64,
    /// How many peers each source gave.
    pub source_stats: VecMap<String, usize>,
}

/// Cached peers.
#[derive(Debug)]
pub struct CachedPeersResponse {
    pub count: usize,
    pub peers: Vec<PeerResponse>,
}

/// How the node is doing.
#[derive(Debug)]
pub struct HealthResponse {
    pub status: String,
    pub discoverers: usize,
    pub cached_peers: usize,
    pub uptime_secs: u64,
}

/// What the node can do.
#[derive(Debug)]
pub struct CapabilityResponse {
    pub name: String,
    pub version: String,
    pub capabilities: Vec<String>,
    pub max_concurrent_discoverers: usize,
    pub cached_peers: usize,
}

/// An announcement.
#[derive(Debug)]
pub struct AnnounceRequest {
    pub port: u16,
    pub event: String,
}

impl AnnounceRequest {
    /// An announcement with or without an event.
    pub fn new(port: u16, event: Option<String>) -> (r: AnnounceRequest)
        ensures
            r.port == port,
            r.event@ == match event {
                Some(e) => e@,
                None => "none"@,
            },
    {
        let event: String = match event {
            Some(e) => e,
            None => DEFAULT_EVENT.to_string(),
        };
        AnnounceRequest { port, event }
    }
}

/// The configuration as YAML.
#[derive(Debug)]
pub struct ConfigResponse {
    pub config_yaml: String,
}

/// A number for a task.
pub fn new_task_id() -> (r: u128)
    ensures
        is_random_uuid(r),
{
    random_uuid()
}

} // verus!
