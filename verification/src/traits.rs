//! What all discoverers have in common.

use vstd::prelude::*;

verus! {

/// The kinds of discoverers.
#[derive(Debug, Clone, Copy, PartialEq, Eq, Hash, Structural)]
pub enum DiscovererType {
    Tracker,
    Dht,
    Pex,
    /// Local peer discovery by multicast.
    Lpd,
    /// HTTP sources (BEP 19 and BEP 17).
    WebSeed,
    /// A third-party discoverer.
    Custom,
}

impl DiscovererType {
    /// The name of the kind.
    pub open spec fn label(self) -> Seq<char> {
        match self {
            DiscovererType::Tracker => "tracker"@,
            DiscovererType::Dht => "dht"@,
            DiscovererType::Pex => "pex"@,
            DiscovererType::Lpd => "lpd"@,
            DiscovererType::WebSeed => "webseed"@,
            DiscovererType::Custom => "custom"@,
        }
    }

    /// The name of the kind.
    pub fn as_str(&self) -> (r: &'static str)
        ensures
            r@ == self.label(),
    {
        match self {
            DiscovererType::Tracker => "tracker",
            DiscovererType::Dht => "dht",
            DiscovererType::Pex => "pex",
            DiscovererType::Lpd => "lpd",
            DiscovererType::WebSeed => "webseed",
            DiscovererType::Custom => "custom",
        }
    }
}

/// What an announcement reports.
#[derive(Debug, Clone, Copy, PartialEq, Eq, Structural)]
pub enum AnnounceEvent {
    Started,
    Stopped,
    Completed,
    /// A regular update.
    Regular,
}

impl AnnounceEvent {
    /// The name of the event.
    pub open spec fn label(self) -> Seq<char> {
        match self {
            AnnounceEvent::Started => "started"@,
            AnnounceEvent::Stopped => "stopped"@,
            AnnounceEvent::Completed => "completed"@,
            AnnounceEvent::Regular => "none"@,
        }
    }

    /// The name of the event.
    pub fn as_str(&self) -> (r: &'static str)
        ensures
            r@ == self.label(),
    {
        match self {
            AnnounceEvent::Started => "started",
            AnnounceEvent::Stopped => "stopped",
            AnnounceEvent::Completed => "completed",
            AnnounceEvent::Regular => "none",
        }
    }
}

/// The request counts of a discoverer.
#[derive(Debug, Clone, Copy)]
pub struct DiscovererStats {
    /// All requests.
    pub total_requests: u64,
    /// Requests that succeeded.
    pub success_requests: u64,
    /// Requests that failed.
    pub failed_requests: u64,
    /// Peers found by all of them.
    pub total_peers_discovered: u64,
    /// When a request last succeeded, in nanoseconds since the Unix epoch.
    pub last_success_at: Option<u64>,
    /// When a request last failed, in nanoseconds since the Unix epoch.
    pub last_failure_at: Option<u64>,
}

/// The counts of a discoverer that was never asked.
pub open spec fn no_requests() -> DiscovererStats {
    DiscovererStats {
        total_requests: 0,
        success_requests: 0,
        failed_requests: 0,
        total_peers_discovered: 0,
        last_success_at: None,
        last_failure_at: None,
    }
}

impl DiscovererStats {
    /// Every request either succeeded or failed.
    pub open spec fn balanced(&self) -> bool {
        self.total_requests == self.success_requests + self.failed_requests
    }

    /// Counts a request that succeeded at time `now`.
    pub fn record_success_at(&mut self, peers_count: usize, now: u64)
        requires
            old(self).total_requests < u64::MAX,
            old(self).success_requests < u64::MAX,
            old(self).total_peers_discovered + peers_count <= u64::MAX,
        ensures
            *final(self) == (DiscovererStats {
                total_requests: (old(self).total_requests + 1) as u64,
                success_requests: (old(self).success_requests + 1) as u64,
                total_peers_discovered: (old(self).total_peers_discovered + peers_count) as u64,
                last_success_at: Some(now),
                ..*old(self)
            }),
            old(self).balanced() ==> final(self).balanced(),
    {
        self.total_requests = self.total_requests + 1;
        self.success_requests = self.success_requests + 1;
        self.total_peers_discovered = self.total_peers_discovered + peers_count as u64;
        self.last_success_at = Some(now);
    }

    /// Counts a request that succeeded just now.
    pub fn record_success(&mut self, peers_count: usize)
        requires
            old(self).total_requests < u64::MAX,
            old(self).success_requests < u64::MAX,
            old(self).total_peers_discovered + peers_count <= u64::MAX,
        ensures
            *final(self) == (DiscovererStats {
                total_requests: (old(self).total_requests + 1) as u64,
                success_requests: (old(self).success_requests + 1) as u64,
                total_peers_discovered: (old(self).total_peers_discovered + peers_count) as u64,
                last_success_at: final(self).last_success_at,
                ..*old(self)
            }),
            final(self).last_success_at is Some,
            old(self).balanced() ==> final(self).balanced(),
    {
        self.record_success_at(peers_count, crate::clock::unix_nanos());
    }

    /// Counts a request that failed at time `now`.
    pub fn record_failure_at(&mut self, now: u64)
        requires
            old(self).total_requests < u64::MAX,
            old(self).failed_requests < u64::MAX,
        ensures
            *final(self) == (DiscovererStats {
                total_requests: (old(self).total_requests + 1) as u64,
                failed_requests: (old(self).failed_requests + 1) as u64,
                last_failure_at: Some(now),
                ..*old(self)
            }),
            old(self).balanced() ==> final(self).balanced(),
    {
        self.total_requests = self.total_requests + 1;
        self.failed_requests = self.failed_requests + 1;
        self.last_failure_at = Some(now);
    }

    /// Counts a request that failed just now.
    pub fn record_failure(&mut self)
        requires
            old(self).total_requests < u64::MAX,
            old(self).failed_requests < u64::MAX,
        ensures
            *final(self) == (DiscovererStats {
                total_requests: (old(self).total_requests + 1) as u64,
                failed_requests: (old(self).failed_requests + 1) as u64,
                last_failure_at: final(self).last_failure_at,
                ..*old(self)
            }),
            final(self).last_failure_at is Some,
            old(self).balanced() ==> final(self).balanced(),
    {
        self.record_failure_at(crate::clock::unix_nanos());
    }
}

impl Default for DiscovererStats {
    fn default() -> (r: DiscovererStats)
        ensures
            r == no_requests(),
            r.balanced(),
    {
        DiscovererStats {
            total_requests: 0,
            success_requests: 0,
            failed_requests: 0,
            total_peers_discovered: 0,
            last_success_at: None,
            last_failure_at: None,
        }
    }
}

/// A name, as contracts see it.
pub type Label = Seq<char>;

/// A source of peers.
pub trait PeerDiscoverer {
    /// The name of the discoverer.
    spec fn label(&self) -> Label;

    /// The kind of the discoverer.
    spec fn kind(&self) -> DiscovererType;

    /// Whether the discoverer is to be used.
    spec fn enabled(&self) -> bool;

    /// The name of the discoverer.
    fn name(&self) -> (r: &str)
        ensures
            r@ == self.label(),
    ;

    /// The kind of the discoverer.
    fn discoverer_type(&self) -> (r: DiscovererType)
        ensures
            r == self.kind(),
    ;

    /// Whether the discoverer is to be used.
    fn is_enabled(&self) -> (r: bool)
        ensures
            r == self.enabled(),
    ;
}

/// The names of the kinds of discoverers and of the events.
pub proof fn law_names()
    ensures
        DiscovererType::Tracker.label() == "tracker"@,
        DiscovererType::Dht.label() == "dht"@,
        DiscovererType::Pex.label() == "pex"@,
        DiscovererType::Lpd.label() == "lpd"@,
        DiscovererType::WebSeed.label() == "webseed"@,
        DiscovererType::Custom.label() == "custom"@,
        AnnounceEvent::Started.label() == "started"@,
        AnnounceEvent::Stopped.label() == "stopped"@,
        AnnounceEvent::Completed.label() == "completed"@,
        AnnounceEvent::Regular.label() == "none"@,
{
}

/// A discoverer that was never asked has nothing to count.
pub proof fn law_nothing_was_asked(s: DiscovererStats)
    requires
        s == no_requests(),
    ensures
        s.total_requests == 0 && s.success_requests == 0 && s.failed_requests == 0,
        s.total_peers_discovered == 0,
        s.last_success_at is None && s.last_failure_at is None,
        s.balanced(),
{
}

} // verus!
