//! Finding peers by exchange with connected peers (BEP 10 and BEP 11).
//!
//! The connection is the caller's. [`PexDiscoverer::begin_exchange`] gives the handshake to send,
//! [`PexDiscoverer::on_handshake`] and [`PexDiscoverer::on_message`] take what the peer sent and
//! give what to send next, and [`PexDiscoverer::finish_exchange`] gives the peers.

use crate::bencode::{
    bytes_entry, decoded, encoding, entries_encoding, entry, int_entry, lemma_empty_encodings,
    lemma_entries_push, tree_meaning, Meaning, Tree,
};
use crate::bytes::{decimal, same_array, sub_vec};
use crate::clock::{instant_now, nanos_between, nanos_of, nanos_since, unix_nanos, NANOS_PER_SEC};
use crate::compact::{compact_peers, peers_of};
use crate::discoverers::pex::message::{
    bytes_or_empty, extended_bytes, handshake_bytes, handshake_tree, lemma_client_version,
    lemma_protocol_name, listed_extensions,
    no_reserved, pex_tree, protocol_name, BtHandshake, ExtendedMessage, ExtensionHandshake,
    UtPexMessage, CLIENT_VERSION, EXTENDED_MESSAGE_ID, OWN_UT_PEX_ID,
};
use crate::net::SocketAddr;
use crate::random::random_peer_id;
use crate::seqs::at_most;
use crate::sort::views;
use crate::traits::{no_requests, DiscovererStats, DiscovererType, PeerDiscoverer};
use crate::types::{
    best_of, by_priority, law_best_come_first, peer_models, retain_unexpired, unexpired, Infohash,
    PeerInfo, PeerModel, PeerSource,
};
use crate::vecmap::VecMap;
use std::time::Instant;
use vstd::prelude::*;
use vstd::string::*;

verus! {

/// How many messages are read while waiting for the extension handshake.
pub const MAX_EXTENSION_READS: u8 = 5;

/// The settings of the peer exchange.
pub struct PexConfig {
    pub our_peer_id: [u8; 20],
    pub listen_port: u16,
    pub max_connected_peers: usize,
    /// Seconds between two exchanges with a peer.
    pub pex_request_interval_secs: u64,
    /// How many peers are offered in an exchange.
    pub max_peers_per_request: usize,
    pub peer_ttl_secs: u64,
    pub connect_timeout_secs: u64,
    pub enabled: bool,
}

/// Whether the settings are the usual ones.
pub open spec fn has_usual_settings(c: PexConfig) -> bool {
    &&& c.our_peer_id@.take(8) == "-PD0002-".spec_bytes()
    &&& c.listen_port == 6881
    &&& c.max_connected_peers == 50
    &&& c.pex_request_interval_secs == 60
    &&& c.max_peers_per_request == 50
    &&& c.peer_ttl_secs == 1800
    &&& c.connect_timeout_secs == 10
    &&& c.enabled
}

impl Default for PexConfig {
    /// The usual settings, with a random peer id that names this program.
    fn default() -> (r: PexConfig)
        ensures
            has_usual_settings(r),
    {
        proof {
            reveal_strlit("-PD0002-");
            assert(is_ascii("-PD0002-"));
        }
        PexConfig {
            our_peer_id: random_peer_id("-PD0002-"),
            listen_port: 6881,
            max_connected_peers: 50,
            pex_request_interval_secs: 60,
            max_peers_per_request: 50,
            peer_ttl_secs: 1800,
            connect_timeout_secs: 10,
            enabled: true,
        }
    }
}

/// A connected peer.
#[derive(Debug, Clone, Copy)]
pub struct ConnectedPeer {
    pub addr: SocketAddr,
    pub peer_id: Option<[u8; 20]>,
    pub connected_at: Instant,
    pub last_pex_exchange: Option<Instant>,
    /// How many peers it has told of.
    pub peers_received: u64,
    pub supports_pex: bool,
    /// The number that it uses for `ut_pex`.
    pub ut_pex_id: Option<u8>,
}

/// Why an exchange failed.
#[derive(Debug, Clone, Copy, PartialEq, Eq, Structural)]
pub enum ExchangeError {
    /// What the peer sent is no BitTorrent handshake.
    InvalidHandshake,
    /// The peer is about another infohash.
    InfohashMismatch,
}

impl ExchangeError {
    /// The error as text.
    pub fn message(&self) -> (r: &'static str)
        ensures
            r@ == match self {
                ExchangeError::InvalidHandshake => "无效的 BitTorrent 握手响应"@,
                ExchangeError::InfohashMismatch => "infohash 不匹配"@,
            },
    {
        match self {
            ExchangeError::InvalidHandshake => "无效的 BitTorrent 握手响应",
            ExchangeError::InfohashMismatch => "infohash 不匹配",
        }
    }
}

/// Where an exchange stands.
#[derive(Debug, Clone, Copy)]
pub enum ExchangeStage {
    /// Waiting for the handshake.
    Handshake,
    /// Waiting for the extension handshake, for as many messages at most.
    Extension { left: u8, peer_id: [u8; 20] },
    /// Waiting for peers, under the number that the peer uses for them.
    Peers { ut_pex_id: u8 },
    /// Peers came.
    Received,
    /// The peer does not exchange peers.
    Unsupported,
}

/// Seconds for which peers are waited for in all.
pub const PEERS_WAIT_SECS: u64 = 3;

/// Seconds for which one message with peers is waited for.
pub const MESSAGE_WAIT_SECS: u64 = 2;

/// How long to wait for a message.
#[derive(Debug, Clone, Copy, PartialEq, Eq, Structural)]
pub enum Wait {
    /// For as long as it takes.
    Unlimited,
    /// For as many seconds at most.
    Seconds(u64),
    /// No longer.
    Over,
}

/// An exchange with a peer.
pub struct Exchange {
    pub addr: SocketAddr,
    pub infohash: Infohash,
    pub stage: ExchangeStage,
    /// The peers that came.
    pub peers: Vec<SocketAddr>,
}

/// The known peers after some were told of at time `now`: new ones are added.
pub open spec fn models_with(
    m: Map<SocketAddr, PeerModel>,
    addrs: Seq<SocketAddr>,
    now: u64,
) -> Map<SocketAddr, PeerModel>
    decreases addrs.len(),
{
    if addrs.len() == 0 {
        m
    } else {
        let rest = models_with(m, addrs.drop_last(), now);
        if rest.contains_key(addrs.last()) {
            rest
        } else {
            rest.insert(addrs.last(), PeerModel::fresh(addrs.last(), PeerSource::Pex, now))
        }
    }
}

/// The connected peers with one of them changed.
pub open spec fn with_peer(
    m: Map<SocketAddr, ConnectedPeer>,
    addr: SocketAddr,
    p: ConnectedPeer,
) -> Map<SocketAddr, ConnectedPeer> {
    if m.contains_key(addr) {
        m.insert(addr, p)
    } else {
        m
    }
}

/// The connected peers after one turned out not to exchange peers.
pub open spec fn without_support(m: Map<SocketAddr, ConnectedPeer>, addr: SocketAddr) -> Map<
    SocketAddr,
    ConnectedPeer,
> {
    with_peer(m, addr, ConnectedPeer { supports_pex: false, ..m[addr] })
}

/// The connected peers after one said how it exchanges peers.
pub open spec fn with_support(
    m: Map<SocketAddr, ConnectedPeer>,
    addr: SocketAddr,
    ut_pex_id: u8,
    peer_id: [u8; 20],
) -> Map<SocketAddr, ConnectedPeer> {
    with_peer(
        m,
        addr,
        ConnectedPeer { ut_pex_id: Some(ut_pex_id), peer_id: Some(peer_id), ..m[addr] },
    )
}

/// The connected peers after an exchange at time `now` that gave `count` peers.
pub open spec fn with_exchange(
    m: Map<SocketAddr, ConnectedPeer>,
    addr: SocketAddr,
    count: nat,
    now: Instant,
) -> Map<SocketAddr, ConnectedPeer> {
    with_peer(
        m,
        addr,
        ConnectedPeer {
            last_pex_exchange: Some(now),
            peers_received: (m[addr].peers_received + count) as u64,
            ..m[addr]
        },
    )
}

/// Whether an exchange with a peer is due, `since` nanoseconds after the last one.
pub open spec fn exchange_due(p: ConnectedPeer, since: u64, interval_secs: u64) -> bool {
    p.supports_pex && (p.last_pex_exchange is None || since >= interval_secs * NANOS_PER_SEC)
}

/// Nanoseconds from the last exchange with each peer to a point in time, zero without one.
pub open spec fn since_exchanges(peers: Seq<ConnectedPeer>, now: Instant) -> Seq<u64> {
    peers.map_values(
        |p: ConnectedPeer|
            match p.last_pex_exchange {
                Some(t) => nanos_since(t, now),
                None => 0,
            },
    )
}

/// The peers with which an exchange is due.
pub open spec fn due_addrs(s: Seq<ConnectedPeer>, since: Seq<u64>, interval_secs: u64) -> Seq<
    SocketAddr,
>
    decreases s.len(),
{
    if s.len() == 0 {
        Seq::empty()
    } else {
        let rest = due_addrs(s.drop_last(), since.drop_last(), interval_secs);
        if exchange_due(s.last(), since.last(), interval_secs) {
            rest.push(s.last().addr)
        } else {
            rest
        }
    }
}

/// The connected peers in the order in which they are kept.
pub open spec fn connected(m: VecMap<SocketAddr, ConnectedPeer>) -> Seq<ConnectedPeer> {
    m.seq().map_values(|e: (SocketAddr, ConnectedPeer)| e.1)
}

/// The known peers in the order in which they are kept.
pub open spec fn known_models(m: VecMap<SocketAddr, PeerInfo>) -> Seq<PeerModel> {
    m.seq().map_values(|e: (SocketAddr, PeerInfo)| e.1@)
}

/// The addresses of the known peers in the order in which they are kept.
pub open spec fn known_addrs(m: VecMap<SocketAddr, PeerInfo>) -> Seq<SocketAddr> {
    m.seq().map_values(|e: (SocketAddr, PeerInfo)| e.0)
}

/// Whether a message is the extension handshake.
pub open spec fn is_extension_handshake(msg_type: u8, payload: Seq<u8>) -> bool {
    msg_type == EXTENDED_MESSAGE_ID && payload.len() > 0 && payload[0] == 0
}

/// The number for `ut_pex` in an extension handshake.
pub open spec fn offered_id(payload: Seq<u8>) -> Option<u8> {
    match decoded(payload.skip(1)) {
        Some(top) => if top is Dict && listed_extensions(top).contains_key("ut_pex"@) {
            Some(listed_extensions(top)["ut_pex"@])
        } else {
            None
        },
        None => None,
    }
}

/// Whether a message tells of peers.
pub open spec fn tells_peers(msg_type: u8, payload: Seq<u8>, ut_pex_id: u8) -> bool {
    msg_type == EXTENDED_MESSAGE_ID && payload.len() > 0 && payload[0] == ut_pex_id
}

/// The peers that a message tells of.
pub open spec fn told_peers(payload: Seq<u8>) -> Seq<SocketAddr> {
    match decoded(payload.skip(1)) {
        Some(top) => if top is Dict {
            peers_of(bytes_or_empty(top, "added".spec_bytes()), false)
        } else {
            Seq::empty()
        },
        None => Seq::empty(),
    }
}

/// Peer exchange as a source of peers.
pub struct PexDiscoverer {
    pub config: PexConfig,
    pub connected_peers: VecMap<SocketAddr, ConnectedPeer>,
    pub known_peers: VecMap<SocketAddr, PeerInfo>,
    pub request_stats: DiscovererStats,
}

/// The peers that are offered in an exchange.
pub open spec fn offered(d: PexDiscoverer) -> Seq<SocketAddr> {
    known_addrs(d.known_peers).take(
        at_most(d.config.max_peers_per_request as int, known_addrs(d.known_peers).len() as int),
    )
}

/// The payload of the message that offers them.
pub open spec fn offer_payload(d: PexDiscoverer) -> Seq<u8> {
    encoding(pex_tree(offered(d), Seq::empty()))
}

/// The payload of our own extension handshake.
pub open spec fn extension_payload(d: PexDiscoverer) -> Seq<u8> {
    encoding(handshake_tree(d.config.our_peer_id@, d.config.listen_port))
}

/// Whether two discoverers differ in their connected peers at most.
pub open spec fn same_but_connected(a: PexDiscoverer, b: PexDiscoverer) -> bool {
    &&& a.config == b.config
    &&& a.known_peers == b.known_peers
    &&& a.request_stats == b.request_stats
}

/// The stage after a message that came while waiting for the extension handshake.
pub open spec fn stage_after_extension(
    left: u8,
    peer_id: [u8; 20],
    msg_type: u8,
    payload: Seq<u8>,
) -> ExchangeStage {
    if is_extension_handshake(msg_type, payload) {
        match offered_id(payload) {
            Some(id) => ExchangeStage::Peers { ut_pex_id: id },
            None => ExchangeStage::Unsupported,
        }
    } else if left <= 1 {
        ExchangeStage::Unsupported
    } else {
        ExchangeStage::Extension { left: (left - 1) as u8, peer_id }
    }
}

proof fn lemma_decimal_len(n: nat, digits: nat)
    requires
        n < vstd::arithmetic::power::pow(10, digits),
        digits > 0,
    ensures
        decimal(n).len() <= digits,
    decreases digits,
{
    if n >= 10 {
        vstd::arithmetic::power::lemma_pow1(10);
        vstd::arithmetic::power::lemma_pow_adds(10, 1, (digits - 1) as nat);
        if digits == 1 {
            vstd::arithmetic::power::lemma_pow0(10);
        } else {
            lemma_decimal_len(n / 10, (digits - 1) as nat);
        }
    }
}

/// Our extension handshake is short.
proof fn lemma_extension_payload(d: PexDiscoverer)
    ensures
        extension_payload(d).len() < 100,
{
    reveal_strlit("m");
    reveal_strlit("pi");
    reveal_strlit("port");
    reveal_strlit("v");
    reveal_strlit("ut_pex");
    assert(is_ascii("m"));
    assert(is_ascii("pi"));
    assert(is_ascii("port"));
    assert(is_ascii("v"));
    assert(is_ascii("ut_pex"));
    lemma_client_version();
    lemma_empty_encodings();
    let none = Seq::<(Seq<u8>, Tree)>::empty();
    let number = Tree::Int(OWN_UT_PEX_ID as int);
    let m1 = none.push(("ut_pex".spec_bytes(), number));
    assert(m1 =~= seq![("ut_pex".spec_bytes(), number)]);
    let m = Tree::Dict(m1);
    let pi = Tree::Bytes(d.config.our_peer_id@);
    let at = Tree::Int(d.config.listen_port as int);
    let v = Tree::Bytes(CLIENT_VERSION.spec_bytes());
    let e1 = none.push(("m".spec_bytes(), m));
    let e2 = e1.push(("pi".spec_bytes(), pi));
    let e3 = e2.push(("port".spec_bytes(), at));
    let e4 = e3.push(("v".spec_bytes(), v));
    lemma_entries_push(none, "ut_pex".spec_bytes(), number);
    lemma_entries_push(none, "m".spec_bytes(), m);
    lemma_entries_push(e1, "pi".spec_bytes(), pi);
    lemma_entries_push(e2, "port".spec_bytes(), at);
    lemma_entries_push(e3, "v".spec_bytes(), v);
    assert(handshake_tree(d.config.our_peer_id@, d.config.listen_port)->Dict_0 =~= e4);
    assert(vstd::arithmetic::power::pow(10, 1) == 10 && vstd::arithmetic::power::pow(10, 2) == 100
        && vstd::arithmetic::power::pow(10, 5) == 100000) by {
        reveal_with_fuel(vstd::arithmetic::power::pow, 6);
    }
    lemma_decimal_len(d.config.listen_port as nat, 5);
    lemma_decimal_len(1, 1);
    lemma_decimal_len(2, 1);
    lemma_decimal_len(4, 1);
    lemma_decimal_len(6, 1);
    lemma_decimal_len(20, 2);
    lemma_decimal_len(23, 2);
    assert(encoding(m).len() == 2 + entries_encoding(m1).len());
    assert(entries_encoding(m1).len() <= 11);
    assert(entries_encoding(e1).len() <= 16);
    assert(entries_encoding(e2).len() <= 43);
    assert(entries_encoding(e3).len() <= 56);
    assert(entries_encoding(e4).len() <= 85);
}

impl PexDiscoverer {
    /// A discoverer without peers.
    pub fn new(config: PexConfig) -> (r: PexDiscoverer)
        ensures
            r.config == config,
            r.connected_peers@ == Map::<SocketAddr, ConnectedPeer>::empty(),
            r.known_peers@ == Map::<SocketAddr, PeerInfo>::empty(),
            r.request_stats == no_requests(),
    {
        PexDiscoverer {
            config,
            connected_peers: VecMap::new(),
            known_peers: VecMap::new(),
            request_stats: DiscovererStats::default(),
        }
    }

    /// A discoverer with the usual settings.
    pub fn with_default_config() -> (r: PexDiscoverer)
        ensures
            has_usual_settings(r.config),
            r.request_stats == no_requests(),
            r.connected_peers@ == Map::<SocketAddr, ConnectedPeer>::empty(),
            r.known_peers@ == Map::<SocketAddr, PeerInfo>::empty(),
    {
        Self::new(PexConfig::default())
    }

    /// Notes at time `now` that a peer is connected, unless there are too many already.
    pub fn add_connected_peer_at(
        &mut self,
        addr: SocketAddr,
        peer_id: Option<[u8; 20]>,
        now: Instant,
    )
        ensures
            same_but_connected(*final(self), *old(self)),
            final(self).connected_peers@ == if old(self).connected_peers@.len() < old(
                self,
            ).config.max_connected_peers {
                old(self).connected_peers@.insert(
                    addr,
                    (ConnectedPeer {
                        addr,
                        peer_id,
                        connected_at: now,
                        last_pex_exchange: None,
                        peers_received: 0,
                        supports_pex: true,
                        ut_pex_id: None,
                    }),
                )
            } else {
                old(self).connected_peers@
            },
    {
        if self.connected_peers.len() < self.config.max_connected_peers {
            self.connected_peers.insert(
                addr,
                ConnectedPeer {
                    addr,
                    peer_id,
                    connected_at: now,
                    last_pex_exchange: None,
                    peers_received: 0,
                    supports_pex: true,
                    ut_pex_id: None,
                },
            );
        }
    }

    /// Notes that a peer is connected, unless there are too many already.
    pub fn add_connected_peer(&mut self, addr: SocketAddr, peer_id: Option<[u8; 20]>)
        ensures
            same_but_connected(*final(self), *old(self)),
            if old(self).connected_peers@.len() < old(self).config.max_connected_peers {
                &&& final(self).connected_peers@.contains_key(addr)
                &&& final(self).connected_peers@ == old(self).connected_peers@.insert(
                    addr,
                    final(self).connected_peers@[addr],
                )
                &&& final(self).connected_peers@[addr] == (ConnectedPeer {
                    addr,
                    peer_id,
                    connected_at: final(self).connected_peers@[addr].connected_at,
                    last_pex_exchange: None,
                    peers_received: 0,
                    supports_pex: true,
                    ut_pex_id: None,
                })
            } else {
                final(self).connected_peers@ == old(self).connected_peers@
            },
    {
        self.add_connected_peer_at(addr, peer_id, instant_now());
    }

    /// Notes that a peer is no longer connected.
    pub fn remove_connected_peer(&mut self, addr: &SocketAddr)
        ensures
            same_but_connected(*final(self), *old(self)),
            final(self).connected_peers@ == old(self).connected_peers@.remove(*addr),
    {
        let _ = self.connected_peers.remove(addr);
    }

    /// Notes peers that were told of at time `now`. Peers that are known stay as they are.
    pub fn add_known_peers_at(&mut self, peers: &[SocketAddr], now: u64)
        ensures
            final(self).config == old(self).config,
            final(self).connected_peers == old(self).connected_peers,
            final(self).request_stats == old(self).request_stats,
            peer_models(final(self).known_peers@) == models_with(
                peer_models(old(self).known_peers@),
                peers@,
                now,
            ),
    {
        let ghost before = peer_models(self.known_peers@);
        let mut i: usize = 0;
        assert(models_with(before, peers@.take(0), now) == before);
        while i < peers.len()
            invariant
                i <= peers@.len(),
                self.config == old(self).config,
                self.connected_peers == old(self).connected_peers,
                self.request_stats == old(self).request_stats,
                peer_models(self.known_peers@) == models_with(before, peers@.take(i as int), now),
            decreases peers@.len() - i,
        {
            let ghost mid = self.known_peers@;
            if !self.known_peers.contains_key(&peers[i]) {
                self.known_peers.insert(
                    peers[i],
                    PeerInfo::new_at(peers[i], PeerSource::Pex, now),
                );
            }
            i += 1;
            proof {
                assert(peers@.take(i as int).drop_last() =~= peers@.take(i - 1));
                let a = peers@[i - 1];
                if !mid.contains_key(a) {
                    assert(peer_models(self.known_peers@) =~= peer_models(mid).insert(
                        a,
                        PeerModel::fresh(a, PeerSource::Pex, now),
                    ));
                }
            }
        }
        assert(peers@.take(i as int) =~= peers@);
    }

    /// Notes peers that were told of.
    pub fn add_known_peers(&mut self, peers: &[SocketAddr])
        ensures
            final(self).config == old(self).config,
            final(self).connected_peers == old(self).connected_peers,
            final(self).request_stats == old(self).request_stats,
            exists|now: u64|
                peer_models(final(self).known_peers@) == #[trigger] models_with(
                    peer_models(old(self).known_peers@),
                    peers@,
                    now,
                ),
    {
        self.add_known_peers_at(peers, unix_nanos());
    }

    /// The peers with which an exchange is due, given the nanoseconds since the last exchange with
    /// each.
    pub fn peers_due_after(&self, since: &Vec<u64>) -> (r: Vec<SocketAddr>)
        requires
            since@.len() == connected(self.connected_peers).len(),
        ensures
            r@ == due_addrs(
                connected(self.connected_peers),
                since@,
                self.config.pex_request_interval_secs,
            ),
    {
        let n: usize = self.connected_peers.len();
        let ghost all = connected(self.connected_peers);
        let interval: u128 = nanos_of(self.config.pex_request_interval_secs);
        let mut out: Vec<SocketAddr> = Vec::new();
        let mut i: usize = 0;
        assert(due_addrs(all.take(0), since@.take(0), self.config.pex_request_interval_secs)
            =~= Seq::empty());
        while i < n
            invariant
                i <= n == all.len() == since@.len(),
                all == connected(self.connected_peers),
                interval == self.config.pex_request_interval_secs * NANOS_PER_SEC,
                out@ == due_addrs(
                    all.take(i as int),
                    since@.take(i as int),
                    self.config.pex_request_interval_secs,
                ),
            decreases n - i,
        {
            let p: ConnectedPeer = *self.connected_peers.value_at(i);
            if p.supports_pex && (p.last_pex_exchange.is_none() || since[i] as u128 >= interval) {
                out.push(p.addr);
            }
            i += 1;
            proof {
                assert(all.take(i as int).drop_last() =~= all.take(i - 1));
                assert(since@.take(i as int).drop_last() =~= since@.take(i - 1));
                assert(all.take(i as int).last() == p);
                assert(since@.take(i as int).last() == since@[i - 1]);
            }
        }
        assert(all.take(i as int) =~= all);
        assert(since@.take(i as int) =~= since@);
        out
    }

    /// The peers with which an exchange is due now.
    pub fn peers_due_for_pex(&self) -> (r: Vec<SocketAddr>)
        ensures
            exists|now: Instant|
                r@ == #[trigger] due_addrs(
                    connected(self.connected_peers),
                    since_exchanges(connected(self.connected_peers), now),
                    self.config.pex_request_interval_secs,
                ),
    {
        self.peers_due_at(instant_now())
    }

    /// The peers with which an exchange is due at a point in time.
    pub fn peers_due_at(&self, now: Instant) -> (r: Vec<SocketAddr>)
        ensures
            r@ == due_addrs(
                connected(self.connected_peers),
                since_exchanges(connected(self.connected_peers), now),
                self.config.pex_request_interval_secs,
            ),
    {
        let ghost all = connected(self.connected_peers);
        let n: usize = self.connected_peers.len();
        let mut since: Vec<u64> = Vec::with_capacity(n);
        let mut i: usize = 0;
        while i < n
            invariant
                i <= n == self.connected_peers.seq().len(),
                all == connected(self.connected_peers),
                since@ == since_exchanges(all, now).take(i as int),
            decreases n - i,
        {
            let nanos: u64 = match &self.connected_peers.value_at(i).last_pex_exchange {
                Some(t) => nanos_between(t, &now),
                None => 0,
            };
            since.push(nanos);
            assert(since@ =~= since_exchanges(all, now).take(i + 1));
            i += 1;
        }
        assert(since@ =~= since_exchanges(all, now));
        self.peers_due_after(&since)
    }

    /// Drops the known peers that were not active in the configured time before `now`.
    pub fn cleanup_expired_peers_at(&mut self, now: u64)
        ensures
            final(self).config == old(self).config,
            final(self).connected_peers == old(self).connected_peers,
            final(self).request_stats == old(self).request_stats,
            peer_models(final(self).known_peers@) == unexpired(
                peer_models(old(self).known_peers@),
                old(self).config.peer_ttl_secs,
                now,
            ),
    {
        retain_unexpired(&mut self.known_peers, self.config.peer_ttl_secs, now);
    }

    /// Drops the known peers that were not active in the configured time.
    pub fn cleanup_expired_peers(&mut self)
        ensures
            final(self).config == old(self).config,
            final(self).connected_peers == old(self).connected_peers,
            final(self).request_stats == old(self).request_stats,
            exists|now: u64|
                peer_models(final(self).known_peers@) == #[trigger] unexpired(
                    peer_models(old(self).known_peers@),
                    old(self).config.peer_ttl_secs,
                    now,
                ),
    {
        self.cleanup_expired_peers_at(unix_nanos());
    }

    /// How long to wait for the next part of an exchange, `elapsed` nanoseconds after it came to the
    /// peers: for the handshake as long as for a connection, for the extension handshake as long as
    /// it takes, and for peers no longer than [`MESSAGE_WAIT_SECS`] at once and not after
    /// [`PEERS_WAIT_SECS`] in all.
    pub fn wait_for(&self, exchange: &Exchange, elapsed: u64) -> (r: Wait)
        ensures
            r == match exchange.stage {
                ExchangeStage::Handshake => Wait::Seconds(self.config.connect_timeout_secs),
                ExchangeStage::Extension { .. } => Wait::Unlimited,
                ExchangeStage::Peers { .. } => if elapsed < 3_000_000_000 {
                    Wait::Seconds(2)
                } else {
                    Wait::Over
                },
                ExchangeStage::Received | ExchangeStage::Unsupported => Wait::Over,
            },
    {
        match &exchange.stage {
            ExchangeStage::Handshake => Wait::Seconds(self.config.connect_timeout_secs),
            ExchangeStage::Extension { .. } => Wait::Unlimited,
            ExchangeStage::Peers { .. } => {
                if elapsed < PEERS_WAIT_SECS * NANOS_PER_SEC {
                    Wait::Seconds(MESSAGE_WAIT_SECS)
                } else {
                    Wait::Over
                }
            },
            ExchangeStage::Received => Wait::Over,
            ExchangeStage::Unsupported => Wait::Over,
        }
    }

    /// Starts an exchange about an infohash. Returns it and the handshake to send.
    pub fn begin_exchange(&self, addr: SocketAddr, infohash: &Infohash) -> (r: (Exchange, Vec<u8>))
        ensures
            r.0.addr == addr,
            r.0.infohash == *infohash,
            r.0.stage is Handshake,
            r.0.peers@.len() == 0,
            r.1@ == handshake_bytes(no_reserved(), infohash@, self.config.our_peer_id@),
    {
        let bytes: Vec<u8> = BtHandshake::build(infohash, &self.config.our_peer_id);
        let exchange: Exchange = Exchange {
            addr,
            infohash: *infohash,
            stage: ExchangeStage::Handshake,
            peers: Vec::new(),
        };
        (exchange, bytes)
    }

    /// Notes that a peer does not exchange peers.
    fn drop_support(&mut self, addr: &SocketAddr)
        ensures
            same_but_connected(*final(self), *old(self)),
            final(self).connected_peers@ == without_support(old(self).connected_peers@, *addr),
    {
        let found: Option<ConnectedPeer> = match self.connected_peers.get(addr) {
            Some(p) => Some(*p),
            None => None,
        };
        if let Some(found) = found {
            let mut p: ConnectedPeer = found;
            p.supports_pex = false;
            self.connected_peers.insert(*addr, p);
        }
    }

    /// Takes the peer's handshake. Returns what to send next, nothing if the peer does not speak
    /// the extension protocol.
    pub fn on_handshake(&mut self, exchange: &mut Exchange, data: &[u8]) -> (r: Result<
        Option<Vec<u8>>,
        ExchangeError,
    >)
        requires
            old(exchange).stage is Handshake,
        ensures
            same_but_connected(*final(self), *old(self)),
            final(exchange).addr == old(exchange).addr,
            final(exchange).infohash == old(exchange).infohash,
            final(exchange).peers == old(exchange).peers,
            r == Err::<Option<Vec<u8>>, ExchangeError>(ExchangeError::InvalidHandshake) <==> !(
            data@.len() >= 68 && data@[0] == 19 && data@.subrange(1, 20) == protocol_name()),
            r == Err::<Option<Vec<u8>>, ExchangeError>(ExchangeError::InfohashMismatch) <==> (
            data@.len() >= 68 && data@[0] == 19 && data@.subrange(1, 20) == protocol_name()
                && data@.subrange(28, 48) != old(exchange).infohash@),
            r is Err ==> final(self).connected_peers == old(self).connected_peers,
            r is Err ==> final(exchange).stage == old(exchange).stage,
            r matches Ok(bytes) ==> if data@[25] & 0x10 != 0 {
                &&& bytes matches Some(b) && b@ == extended_bytes(0, extension_payload(*old(self)))
                &&& final(exchange).stage matches ExchangeStage::Extension { left, peer_id }
                    && left == 5 && peer_id@ == data@.subrange(48, 68)
                &&& final(self).connected_peers == old(self).connected_peers
            } else {
                &&& bytes is None
                &&& final(exchange).stage is Unsupported
                &&& final(self).connected_peers@ == without_support(
                    old(self).connected_peers@,
                    old(exchange).addr,
                )
            },
    {
        let handshake: BtHandshake = match BtHandshake::parse(data) {
            Some(h) => h,
            None => {
                return Err(ExchangeError::InvalidHandshake);
            },
        };
        proof {
            let d = data@.take(68);
            lemma_protocol_name();
            assert(d.subrange(28, 48) =~= handshake.infohash@);
            assert(d.subrange(48, 68) =~= handshake.peer_id@);
            assert(data@.subrange(28, 48) =~= d.subrange(28, 48));
            assert(data@.subrange(48, 68) =~= d.subrange(48, 68));
            assert(d[25] == handshake.reserved@[5]);
            if handshake.infohash@ == exchange.infohash@ {
                assert(handshake.infohash =~= exchange.infohash);
            }
        }
        if !same_array(&handshake.infohash, &exchange.infohash) {
            return Err(ExchangeError::InfohashMismatch);
        }
        if !handshake.supports_extension() {
            self.drop_support(&exchange.addr);
            exchange.stage = ExchangeStage::Unsupported;
            return Ok(None);
        }
        let payload: Vec<u8> = ExtensionHandshake::build_request(
            &self.config.our_peer_id,
            self.config.listen_port,
        );
        proof {
            lemma_extension_payload(*self);
        }
        let bytes: Vec<u8> = ExtendedMessage::build(0, payload.as_slice());
        exchange.stage = ExchangeStage::Extension {
            left: MAX_EXTENSION_READS,
            peer_id: handshake.peer_id,
        };
        Ok(Some(bytes))
    }

    /// The number for `ut_pex` in an extension handshake.
    fn read_offer(payload: &[u8]) -> (r: Option<u8>)
        requires
            payload@.len() > 0,
        ensures
            r == offered_id(payload@),
    {
        let rest: Vec<u8> = sub_vec(payload, 1, payload.len());
        assert(rest@ =~= payload@.skip(1));
        match ExtensionHandshake::parse(rest.as_slice()) {
            Some(h) => h.ut_pex_id(),
            None => None,
        }
    }

    /// The peers that are offered in an exchange.
    fn offer(&self) -> (r: Vec<SocketAddr>)
        ensures
            r@ == offered(*self),
    {
        let n: usize = self.known_peers.len();
        let keep: usize = if self.config.max_peers_per_request < n {
            self.config.max_peers_per_request
        } else {
            n
        };
        let ghost all = known_addrs(self.known_peers);
        let mut out: Vec<SocketAddr> = Vec::with_capacity(keep);
        let mut i: usize = 0;
        while i < keep
            invariant
                i <= keep <= all.len(),
                all == known_addrs(self.known_peers),
                out@ == all.take(i as int),
            decreases keep - i,
        {
            out.push(*self.known_peers.key_at(i));
            i += 1;
            assert(out@ =~= all.take(i as int));
        }
        out
    }

    /// Takes a message from the peer. Returns what to send next, if anything.
    pub fn on_message(&mut self, exchange: &mut Exchange, msg_type: u8, payload: &[u8]) -> (r: Option<
        Vec<u8>,
    >)
        requires
            offer_payload(*old(self)).len() + 2 <= u32::MAX,
        ensures
            same_but_connected(*final(self), *old(self)),
            final(exchange).addr == old(exchange).addr,
            final(exchange).infohash == old(exchange).infohash,
            match old(exchange).stage {
                ExchangeStage::Extension { left, peer_id } => {
                    let stage = stage_after_extension(left, peer_id, msg_type, payload@);
                    &&& final(exchange).stage == stage
                    &&& final(exchange).peers == old(exchange).peers
                    &&& match stage {
                        ExchangeStage::Peers { ut_pex_id } => {
                            &&& r matches Some(b) && b@ == extended_bytes(
                                ut_pex_id,
                                offer_payload(*old(self)),
                            )
                            &&& final(self).connected_peers@ == with_support(
                                old(self).connected_peers@,
                                old(exchange).addr,
                                ut_pex_id,
                                peer_id,
                            )
                        },
                        ExchangeStage::Unsupported => {
                            &&& r is None
                            &&& final(self).connected_peers@ == without_support(
                                old(self).connected_peers@,
                                old(exchange).addr,
                            )
                        },
                        _ => r is None && final(self).connected_peers == old(self).connected_peers,
                    }
                },
                ExchangeStage::Peers { ut_pex_id } => {
                    &&& r is None
                    &&& final(self).connected_peers == old(self).connected_peers
                    &&& if tells_peers(msg_type, payload@, ut_pex_id) {
                        &&& final(exchange).stage is Received
                        &&& final(exchange).peers@ == old(exchange).peers@ + told_peers(payload@)
                    } else {
                        *final(exchange) == *old(exchange)
                    }
                },
                _ => {
                    &&& r is None
                    &&& *final(exchange) == *old(exchange)
                    &&& final(self).connected_peers == old(self).connected_peers
                },
            },
    {
        match exchange.stage {
            ExchangeStage::Extension { left, peer_id } => {
                let mut concluded: bool = left <= 1;
                let mut id: Option<u8> = None;
                if msg_type == EXTENDED_MESSAGE_ID && payload.len() > 0 && payload[0] == 0 {
                    id = Self::read_offer(payload);
                    concluded = true;
                }
                if !concluded {
                    exchange.stage = ExchangeStage::Extension { left: left - 1, peer_id };
                    return None;
                }
                match id {
                    Some(ut_pex_id) => {
                        let offer: Vec<SocketAddr> = self.offer();
                        let none: Vec<SocketAddr> = Vec::new();
                        let message: Vec<u8> = UtPexMessage::build(
                            offer.as_slice(),
                            none.as_slice(),
                        );
                        assert(none@ =~= Seq::<SocketAddr>::empty());
                        let bytes: Vec<u8> = ExtendedMessage::build(ut_pex_id, message.as_slice());
                        let found: Option<ConnectedPeer> = match self.connected_peers.get(
                            &exchange.addr,
                        ) {
                            Some(p) => Some(*p),
                            None => None,
                        };
                        if let Some(found) = found {
                            let mut p: ConnectedPeer = found;
                            p.ut_pex_id = Some(ut_pex_id);
                            p.peer_id = Some(peer_id);
                            self.connected_peers.insert(exchange.addr, p);
                        }
                        exchange.stage = ExchangeStage::Peers { ut_pex_id };
                        Some(bytes)
                    },
                    None => {
                        self.drop_support(&exchange.addr);
                        exchange.stage = ExchangeStage::Unsupported;
                        None
                    },
                }
            },
            ExchangeStage::Peers { ut_pex_id } => {
                if msg_type == EXTENDED_MESSAGE_ID && payload.len() > 0 && payload[0] == ut_pex_id {
                    let rest: Vec<u8> = sub_vec(payload, 1, payload.len());
                    assert(rest@ =~= payload@.skip(1));
                    match UtPexMessage::parse(rest.as_slice()) {
                        Some(message) => {
                            let mut added: Vec<SocketAddr> = message.added;
                            exchange.peers.append(&mut added);
                        },
                        None => {
                            assert(exchange.peers@ =~= exchange.peers@ + Seq::empty());
                        },
                    }
                    exchange.stage = ExchangeStage::Received;
                }
                None
            },
            _ => None,
        }
    }

    /// Ends an exchange at time `now`. Returns the peers that came. An exchange that got as far as
    /// asking for peers counts as one with the peer.
    pub fn finish_exchange_at(&mut self, exchange: Exchange, now: Instant) -> (r: Vec<SocketAddr>)
        requires
            old(self).connected_peers@.contains_key(exchange.addr) ==> old(
                self,
            ).connected_peers@[exchange.addr].peers_received + exchange.peers@.len() <= u64::MAX,
        ensures
            same_but_connected(*final(self), *old(self)),
            r@ == exchange.peers@,
            final(self).connected_peers@ == if exchange.stage is Peers || exchange.stage is Received {
                with_exchange(
                    old(self).connected_peers@,
                    exchange.addr,
                    exchange.peers@.len(),
                    now,
                )
            } else {
                old(self).connected_peers@
            },
    {
        let reached: bool = match exchange.stage {
            ExchangeStage::Peers { .. } => true,
            ExchangeStage::Received => true,
            _ => false,
        };
        if reached {
            let found: Option<ConnectedPeer> = match self.connected_peers.get(&exchange.addr) {
                Some(p) => Some(*p),
                None => None,
            };
            if let Some(found) = found {
                let mut p: ConnectedPeer = found;
                p.last_pex_exchange = Some(now);
                p.peers_received = p.peers_received + exchange.peers.len() as u64;
                self.connected_peers.insert(exchange.addr, p);
            }
        }
        exchange.peers
    }

    /// Ends an exchange. Returns the peers that came.
    pub fn finish_exchange(&mut self, exchange: Exchange) -> (r: Vec<SocketAddr>)
        requires
            old(self).connected_peers@.contains_key(exchange.addr) ==> old(
                self,
            ).connected_peers@[exchange.addr].peers_received + exchange.peers@.len() <= u64::MAX,
        ensures
            same_but_connected(*final(self), *old(self)),
            r@ == exchange.peers@,
            exists|now: Instant|
                final(self).connected_peers@ == if exchange.stage is Peers
                    || exchange.stage is Received {
                    #[trigger] with_exchange(
                        old(self).connected_peers@,
                        exchange.addr,
                        exchange.peers@.len(),
                        now,
                    )
                } else {
                    old(self).connected_peers@
                },
    {
        let now: Instant = instant_now();
        let ghost m = with_exchange(
            self.connected_peers@,
            exchange.addr,
            exchange.peers@.len(),
            now,
        );
        self.finish_exchange_at(exchange, now)
    }

    /// The known peers with the highest scores, `limit` at most, as found at time `now`. Counts the
    /// request.
    pub fn collect_peers_at(&mut self, limit: usize, now: u64) -> (r: Vec<PeerInfo>)
        requires
            old(self).request_stats.total_requests < u64::MAX,
            old(self).request_stats.success_requests < u64::MAX,
            old(self).request_stats.total_peers_discovered + known_models(
                old(self).known_peers,
            ).len() <= u64::MAX,
        ensures
            views(r@) == best_of(known_models(old(self).known_peers), limit as int),
            final(self).config == old(self).config,
            final(self).connected_peers == old(self).connected_peers,
            final(self).known_peers == old(self).known_peers,
            final(self).request_stats == (DiscovererStats {
                total_requests: (old(self).request_stats.total_requests + 1) as u64,
                success_requests: (old(self).request_stats.success_requests + 1) as u64,
                total_peers_discovered: (old(self).request_stats.total_peers_discovered
                    + r@.len()) as u64,
                last_success_at: Some(now),
                ..old(self).request_stats
            }),
    {
        let n: usize = self.known_peers.len();
        let ghost all = known_models(self.known_peers);
        let mut peers: Vec<PeerInfo> = Vec::with_capacity(n);
        let mut i: usize = 0;
        assert(views(peers@) =~= all.take(0));
        while i < n
            invariant
                i <= n == all.len(),
                all == known_models(self.known_peers),
                views(peers@) == all.take(i as int),
            decreases n - i,
        {
            let ghost before = views(peers@);
            peers.push(self.known_peers.value_at(i).duplicate());
            i += 1;
            proof {
                assert(views(peers@) =~= before.push(all[i - 1]));
                assert(views(peers@) =~= all.take(i as int));
            }
        }
        assert(all.take(i as int) =~= all);
        let r: Vec<PeerInfo> = by_priority(peers, limit);
        proof {
            law_best_come_first(all, limit as nat);
            assert(views(r@).len() == r@.len());
        }
        self.request_stats.record_success_at(r.len(), now);
        r
    }

    /// The known peers with the highest scores, `limit` at most. Counts the request.
    pub fn collect_peers(&mut self, limit: usize) -> (r: Vec<PeerInfo>)
        requires
            old(self).request_stats.total_requests < u64::MAX,
            old(self).request_stats.success_requests < u64::MAX,
            old(self).request_stats.total_peers_discovered + known_models(
                old(self).known_peers,
            ).len() <= u64::MAX,
        ensures
            views(r@) == best_of(known_models(old(self).known_peers), limit as int),
            final(self).config == old(self).config,
            final(self).connected_peers == old(self).connected_peers,
            final(self).known_peers == old(self).known_peers,
            final(self).request_stats.total_requests == old(self).request_stats.total_requests + 1,
            final(self).request_stats.success_requests == old(self).request_stats.success_requests
                + 1,
            final(self).request_stats.failed_requests == old(self).request_stats.failed_requests,
            final(self).request_stats.total_peers_discovered == old(
                self,
            ).request_stats.total_peers_discovered + r@.len(),
    {
        let r: Vec<PeerInfo> = self.collect_peers_at(limit, unix_nanos());
        proof {
            law_best_come_first(known_models(old(self).known_peers), limit as nat);
            assert(views(r@).len() == r@.len());
        }
        r
    }

    /// Whether a peer is connected.
    pub fn health_check(&self) -> (r: bool)
        ensures
            r == (self.connected_peers@.len() > 0),
    {
        self.connected_peers.len() > 0
    }

    /// The request counts.
    pub fn stats(&self) -> (r: DiscovererStats)
        ensures
            r == self.request_stats,
    {
        self.request_stats
    }
}

/// However many other messages come, the wait for the extension handshake ends.
pub proof fn law_extension_wait_ends(left: u8, peer_id: [u8; 20], msg_type: u8, payload: Seq<u8>)
    ensures
        match stage_after_extension(left, peer_id, msg_type, payload) {
            ExchangeStage::Extension { left: l, peer_id: p } => 0 < l < left && p == peer_id,
            ExchangeStage::Peers { ut_pex_id } => offered_id(payload) == Some(ut_pex_id),
            stage => stage is Unsupported,
        },
{
}

/// Being told of peers adds those that are not known and changes nothing about those that are.
pub proof fn law_known_peers_stay(
    m: Map<SocketAddr, PeerModel>,
    addrs: Seq<SocketAddr>,
    now: u64,
    a: SocketAddr,
)
    ensures
        models_with(m, addrs, now).contains_key(a) <==> m.contains_key(a) || addrs.contains(a),
        m.contains_key(a) ==> models_with(m, addrs, now)[a] == m[a],
        !m.contains_key(a) && addrs.contains(a) ==> models_with(m, addrs, now)[a]
            == PeerModel::fresh(a, PeerSource::Pex, now),
    decreases addrs.len(),
{
    if addrs.len() > 0 {
        let rest = addrs.drop_last();
        law_known_peers_stay(m, rest, now, a);
        assert(addrs =~= rest.push(addrs.last()));
        if rest.contains(a) {
            let i = choose|i: int| 0 <= i < rest.len() && rest[i] == a;
            assert(addrs[i] == a);
        }
        if addrs.contains(a) && a != addrs.last() {
            let i = choose|i: int| 0 <= i < addrs.len() && addrs[i] == a;
            assert(rest[i] == a);
        }
        if a == addrs.last() {
            assert(addrs[addrs.len() - 1] == a);
        }
    }
}

/// The peers that a `ut_pex` message tells of are those that were added, as far as they are IPv4 and have
/// a port; those that were dropped are not among them.
pub proof fn law_added_peers_are_told(payload: Seq<u8>, added: Seq<SocketAddr>, dropped: Seq<SocketAddr>)
    requires
        decoded(payload.skip(1)) == Some(tree_meaning(pex_tree(added, dropped))),
    ensures
        told_peers(payload) == added.filter(|p: SocketAddr| p.ip is V4 && p.port != 0),
{
    crate::discoverers::pex::message::lemma_pex_tree(added, dropped);
    crate::compact::law_compact_round_trip(added, false);
    let q = |p: SocketAddr| p.ip is V4 && p.port != 0;
    assert(q =~= crate::compact::carried(false));
}

/// A message is the extension handshake if it is an extended message for extension zero, and tells of
/// peers if it is one for the number that the peer gave.
pub proof fn law_messages_are_told_apart(msg_type: u8, payload: Seq<u8>, ut_pex_id: u8)
    ensures
        is_extension_handshake(msg_type, payload) <==> msg_type == 20 && payload.len() > 0 && payload[0]
            == 0,
        tells_peers(msg_type, payload, ut_pex_id) <==> msg_type == 20 && payload.len() > 0 && payload[0]
            == ut_pex_id,
{
}

/// A peer that offers `ut_pex` under a number in its extension handshake is asked for peers under that
/// number; one that does not offer it, or has sent too many other messages, is not asked.
pub proof fn law_offer_decides(
    left: u8,
    peer_id: [u8; 20],
    payload: Seq<u8>,
    top: Meaning,
    m: Meaning,
    n: int,
)
    requires
        payload.len() > 0,
        payload[0] == 0,
        decoded(payload.skip(1)) == Some(top),
        top is Dict,
        entry(top, "m".spec_bytes()) == Some(m),
        m is Dict,
    ensures
        int_entry(m, "ut_pex".spec_bytes()) == Some(n) && 0 <= n < 256 ==> (stage_after_extension(
            left,
            peer_id,
            20,
            payload,
        ) matches ExchangeStage::Peers { ut_pex_id } && ut_pex_id == n),
        int_entry(m, "ut_pex".spec_bytes()) is None ==> stage_after_extension(
            left,
            peer_id,
            20,
            payload,
        ) is Unsupported,
{
}

/// In an exchange the first peers that are known are offered, as many as the settings allow, each by its
/// address.
pub proof fn law_known_peers_are_offered(d: PexDiscoverer)
    ensures
        offered(d).len() == if d.config.max_peers_per_request < d.known_peers.seq().len() {
            d.config.max_peers_per_request as int
        } else {
            d.known_peers.seq().len() as int
        },
        forall|i: int|
            0 <= i < offered(d).len() ==> #[trigger] offered(d)[i] == d.known_peers.seq()[i].0,
        exists|t: Tree|
            offer_payload(d) == #[trigger] encoding(t) && bytes_entry(
                tree_meaning(t),
                "added".spec_bytes(),
            ) == Some(compact_peers(offered(d))) && bytes_entry(
                tree_meaning(t),
                "dropped".spec_bytes(),
            ) == Some(Seq::<u8>::empty()),
        exists|t: Tree|
            extension_payload(d) == #[trigger] encoding(t) && bytes_entry(
                tree_meaning(t),
                "pi".spec_bytes(),
            ) == Some(d.config.our_peer_id@) && int_entry(tree_meaning(t), "port".spec_bytes()) == Some(
                d.config.listen_port as int,
            ),
{
    let none = Seq::<SocketAddr>::empty();
    crate::discoverers::pex::message::lemma_pex_tree(offered(d), none);
    assert(compact_peers(none) =~= Seq::<u8>::empty());
    crate::discoverers::pex::message::law_own_handshake_fields(
        d.config.our_peer_id,
        d.config.listen_port,
    );
    assert(offer_payload(d) == encoding(pex_tree(offered(d), none)));
    assert(extension_payload(d) == encoding(
        handshake_tree(d.config.our_peer_id@, d.config.listen_port),
    ));
}

/// An exchange is due with the connected peers that exchange peers and with which the last one was as many
/// seconds ago as the settings ask for, or never was; with all of them and nobody else.
pub proof fn law_due_exchanges(
    s: Seq<ConnectedPeer>,
    since: Seq<u64>,
    interval_secs: u64,
    addr: SocketAddr,
)
    requires
        s.len() == since.len(),
    ensures
        due_addrs(s, since, interval_secs).contains(addr) <==> exists|i: int|
            0 <= i < s.len() && (#[trigger] s[i]).addr == addr && s[i].supports_pex && (
            s[i].last_pex_exchange is None || since[i] >= interval_secs * 1_000_000_000),
    decreases s.len(),
{
    let r = due_addrs(s, since, interval_secs);
    if s.len() > 0 {
        let last = s.len() - 1;
        let q = due_addrs(s.drop_last(), since.drop_last(), interval_secs);
        law_due_exchanges(s.drop_last(), since.drop_last(), interval_secs, addr);
        if r.contains(addr) {
            let k = choose|k: int| 0 <= k < r.len() && r[k] == addr;
            if k < q.len() {
                assert(q[k] == addr);
                let i = choose|i: int|
                    0 <= i < s.drop_last().len() && (#[trigger] s.drop_last()[i]).addr == addr
                        && s.drop_last()[i].supports_pex && (s.drop_last()[i].last_pex_exchange is None
                        || since.drop_last()[i] >= interval_secs * 1_000_000_000);
                assert(s[i].addr == addr);
            } else {
                assert(s[last].addr == addr);
            }
        }
        if exists|i: int|
            0 <= i < s.len() && (#[trigger] s[i]).addr == addr && s[i].supports_pex && (
            s[i].last_pex_exchange is None || since[i] >= interval_secs * 1_000_000_000) {
            let i = choose|i: int|
                0 <= i < s.len() && (#[trigger] s[i]).addr == addr && s[i].supports_pex && (
                s[i].last_pex_exchange is None || since[i] >= interval_secs * 1_000_000_000);
            if i < last {
                assert(s.drop_last()[i] == s[i]);
                assert(since.drop_last()[i] == since[i]);
                assert(q.contains(addr));
                let k = choose|k: int| 0 <= k < q.len() && q[k] == addr;
                assert(r[k] == addr);
            } else {
                assert(r[r.len() - 1] == addr);
            }
        }
    }
}

/// What is learned of a connected peer changes that peer alone, and of it only what was learned: the number
/// for `ut_pex` and its peer id, that it exchanges none, or that an exchange brought so many peers.
pub proof fn law_connected_peer_changes(
    m: Map<SocketAddr, ConnectedPeer>,
    addr: SocketAddr,
    ut_pex_id: u8,
    peer_id: [u8; 20],
    count: nat,
    now: Instant,
)
    requires
        m.contains_key(addr),
        m[addr].peers_received + count <= u64::MAX,
    ensures
        ({
            let a = with_support(m, addr, ut_pex_id, peer_id);
            let b = without_support(m, addr);
            let c = with_exchange(m, addr, count, now);
            &&& a.dom() == m.dom() && b.dom() == m.dom() && c.dom() == m.dom()
            &&& forall|x: SocketAddr| #[trigger]
                m.contains_key(x) && x != addr ==> a[x] == m[x] && b[x] == m[x] && c[x] == m[x]
            &&& a[addr].ut_pex_id == Some(ut_pex_id) && a[addr].peer_id == Some(peer_id)
            &&& a[addr].supports_pex == m[addr].supports_pex
            &&& a[addr].last_pex_exchange == m[addr].last_pex_exchange
            &&& a[addr].peers_received == m[addr].peers_received
            &&& !b[addr].supports_pex && b[addr].ut_pex_id == m[addr].ut_pex_id
            &&& b[addr].peer_id == m[addr].peer_id
            &&& b[addr].peers_received == m[addr].peers_received
            &&& c[addr].last_pex_exchange == Some(now)
            &&& c[addr].peers_received == m[addr].peers_received + count
            &&& c[addr].supports_pex == m[addr].supports_pex
            &&& c[addr].peer_id == m[addr].peer_id && c[addr].ut_pex_id == m[addr].ut_pex_id
            &&& a[addr].addr == m[addr].addr && b[addr].addr == m[addr].addr && c[addr].addr
                == m[addr].addr
        }),
        forall|x: SocketAddr|
            !m.contains_key(x) ==> #[trigger] with_support(m, x, ut_pex_id, peer_id) == m
                && with_exchange(m, x, count, now) == m && without_support(m, x) == m,
{
    assert(with_support(m, addr, ut_pex_id, peer_id).dom() =~= m.dom());
    assert(without_support(m, addr).dom() =~= m.dom());
    assert(with_exchange(m, addr, count, now).dom() =~= m.dom());
}

impl PeerDiscoverer for PexDiscoverer {
    open spec fn label(&self) -> Seq<char> {
        "pex"@
    }

    open spec fn kind(&self) -> DiscovererType {
        DiscovererType::Pex
    }

    open spec fn enabled(&self) -> bool {
        self.config.enabled
    }

    fn name(&self) -> (r: &str) {
        "pex"
    }

    fn discoverer_type(&self) -> (r: DiscovererType) {
        DiscovererType::Pex
    }

    fn is_enabled(&self) -> (r: bool) {
        self.config.enabled
    }
}

} // verus!
