//! A UDP tracker (BEP 15), as it answers its clients.
//!
//! A client first asks for a connection and then announces itself under it. The packets come from
//! the caller: [`UdpTrackerServer::handle_packet`] hands an announcement out, [`take_announcement`]
//! takes it into the cache, and [`UdpTrackerServer::announce_response`] makes the answer of the peers
//! that are known.

use crate::bytes::{
    be_bytes, be_value, byte_capacity, lemma_be_bytes_len, lemma_be_round_trip,
    lemma_byte_capacity_values,
    law_short_numbers, put_be, put_text, read_be, signed_32, take_20, to_signed_32,
};
use crate::cache::{lists_group, not_expired, PeerCache};
use crate::clock::{elapsed_nanos, instant_now, nanos_since, unix_nanos, NANOS_PER_SEC};
use crate::compact::{carried, compact_peers, law_compact_round_trip, peers_of, put_compact_peers};
use crate::config::SuperTrackerConfig;
use crate::discoverers::tracker::udp::{
    action_of, announce_request, connect_request, transaction_of, ACTION_ANNOUNCE, ACTION_CONNECT,
    ACTION_ERROR, PROTOCOL_ID,
};
use crate::net::SocketAddr;
use crate::random::random_bytes;
use crate::seqs::{at_most, lemma_filter_step};
use crate::sort::views;
use crate::types::{best_of, AnnounceEvent, Event, Infohash, PeerInfo, PeerModel, PeerSource};
use crate::vecmap::{MapKey, VecMap};
use std::time::Instant;
use vstd::prelude::*;
use vstd::string::*;
use vstd::utf8::{encode_utf8, valid_utf8};

verus! {

pub const ACTION_SCRAPE: u32 = 2;

/// Seconds for which a connection can be used.
pub const CONNECTION_LIFETIME_SECS: u64 = 120;

/// Seconds between two removals of old connections.
pub const CLEANUP_INTERVAL_SECS: u64 = 60;

/// The most peers that a client can ask for by number.
pub const MAX_NUM_WANT: i32 = 100;

/// The bytes of the shortest announcement.
pub const ANNOUNCE_LEN: usize = 98;

/// A connection that was given out.
#[derive(Debug, Clone, Copy)]
pub struct ConnectionEntry {
    /// Who asked for it.
    pub remote_addr: SocketAddr,
    /// When, in nanoseconds since the tracker was set up.
    pub created_at: u64,
}

/// An announcement.
#[derive(Debug, Clone, Copy)]
pub struct Announcement {
    pub transaction_id: u32,
    pub infohash: Infohash,
    pub peer_id: [u8; 20],
    pub downloaded: u64,
    pub left: u64,
    pub uploaded: u64,
    pub event: AnnounceEvent,
    /// How many peers are wanted. A number below zero or above a hundred stands for all of them.
    pub num_want: i32,
    pub port: u16,
    /// Where the packet came from.
    pub from: SocketAddr,
}

/// What a packet comes to.
#[derive(Debug)]
pub enum Answer {
    /// Nothing is sent back.
    Silence,
    /// These bytes are sent back.
    Reply(Vec<u8>),
    /// What the swarm holds is sent back.
    Announced(Announcement),
}

/// The number at the start of a request: the connection, or the protocol in a connection request.
pub open spec fn request_connection(data: Seq<u8>) -> nat {
    be_value(data.subrange(0, 8))
}

/// The action of a request.
pub open spec fn request_action(data: Seq<u8>) -> nat {
    be_value(data.subrange(8, 12))
}

/// The transaction of a request.
pub open spec fn request_transaction(data: Seq<u8>) -> nat {
    be_value(data.subrange(12, 16))
}

/// The event that a number stands for.
pub open spec fn event_of(n: nat) -> AnnounceEvent {
    if n == 1 {
        AnnounceEvent::Completed
    } else if n == 2 {
        AnnounceEvent::Started
    } else if n == 3 {
        AnnounceEvent::Stopped
    } else {
        AnnounceEvent::Regular
    }
}

/// Whether `a` is the announcement in the first 98 bytes of `data`.
pub open spec fn announces(data: Seq<u8>, from: SocketAddr, a: Announcement) -> bool {
    &&& a.transaction_id == request_transaction(data)
    &&& a.infohash@ == data.subrange(16, 36)
    &&& a.peer_id@ == data.subrange(36, 56)
    &&& a.downloaded == be_value(data.subrange(56, 64))
    &&& a.left == be_value(data.subrange(64, 72))
    &&& a.uploaded == be_value(data.subrange(72, 80))
    &&& a.event == event_of(be_value(data.subrange(80, 84)))
    &&& a.num_want == signed_32(be_value(data.subrange(92, 96)) as int)
    &&& a.port == be_value(data.subrange(96, 98))
    &&& a.from == from
}

/// The bytes of an error.
pub open spec fn error_response(transaction_id: u32, message: Seq<char>) -> Seq<u8> {
    be_bytes(ACTION_ERROR as nat, 4) + be_bytes(transaction_id as nat, 4) + encode_utf8(message)
}

/// The bytes that hand out a connection.
pub open spec fn connect_response(transaction_id: u32, connection_id: u64) -> Seq<u8> {
    be_bytes(ACTION_CONNECT as nat, 4) + be_bytes(transaction_id as nat, 4) + be_bytes(
        connection_id as nat,
        8,
    )
}

/// How many peers out of `len` go into the answer to a request for `num_want`.
pub open spec fn peers_wanted(num_want: i32, len: int) -> int {
    if 0 <= num_want <= MAX_NUM_WANT {
        at_most(num_want as int, len)
    } else {
        len
    }
}

/// What an announcement came to.
pub struct Announced {
    /// The peers that it is answered with.
    pub peers: Vec<SocketAddr>,
    /// What the other parts of the node are told.
    pub event: Event,
}

impl Announcement {
    /// The address under which the client can be reached.
    pub open spec fn client(&self) -> SocketAddr {
        SocketAddr { ip: self.from.ip, port: self.port }
    }
}

/// The addresses of peers.
pub open spec fn addrs_of(peers: Seq<PeerModel>) -> Seq<SocketAddr> {
    peers.map_values(|p: PeerModel| p.addr)
}

/// The addresses but for one.
pub open spec fn all_but(own: SocketAddr) -> spec_fn(SocketAddr) -> bool {
    |a: SocketAddr| a != own
}

/// Whether `r` is what an announcement came to at time `now`, and `after` the cache: it is answered
/// with the best peers that were known before, but for the client, and the client becomes known
/// unless it stops.
pub open spec fn is_taken(
    before: PeerCache,
    after: PeerCache,
    a: Announcement,
    most: usize,
    now: u64,
    r: Announced,
) -> bool {
    &&& exists|s: Seq<PeerModel>| #[trigger]
        lists_group(before.group(a.infohash), s) && r.peers@ == addrs_of(
            best_of(s.filter(not_expired(before.ttl_secs, now)), most as int),
        ).filter(all_but(a.client()))
    &&& if a.event is Stopped {
        after == before
    } else {
        after.takes_in(
            before,
            a.infohash,
            seq![PeerModel::fresh(a.client(), PeerSource::SuperTracker, now)],
            now,
        )
    }
    &&& r.event == (Event::AnnounceRequest {
        infohash: a.infohash,
        peer_addr: a.client(),
        peer_id: Some(a.peer_id),
        event: a.event,
        uploaded: a.uploaded,
        downloaded: a.downloaded,
        left: a.left,
    })
}

/// Takes an announcement into the cache at time `now`. The answer has no more than `most` peers.
pub fn take_announcement_at(cache: &mut PeerCache, a: &Announcement, most: usize, now: u64) -> (r:
    Announced)
    requires
        old(cache).wf(),
    ensures
        final(cache).wf(),
        final(cache).same_limits(*old(cache)),
        is_taken(*old(cache), *final(cache), *a, most, now, r),
{
    let client: SocketAddr = SocketAddr { ip: a.from.ip, port: a.port };
    let known: Vec<PeerInfo> = cache.get_peers_at(&a.infohash, most, now);
    let ghost all = addrs_of(views(known@));
    let ghost other = all_but(client);
    let mut peers: Vec<SocketAddr> = Vec::new();
    let mut i: usize = 0;
    assert(peers@ =~= all.take(0).filter(other)) by {
        reveal(Seq::filter);
    }
    while i < known.len()
        invariant
            i <= known@.len() == all.len(),
            all == addrs_of(views(known@)),
            other == all_but(client),
            peers@ == all.take(i as int).filter(other),
        decreases known@.len() - i,
    {
        proof {
            lemma_filter_step(all, i as int, other);
        }
        let addr: SocketAddr = known[i].addr;
        assert(all[i as int] == addr);
        if !addr.same_key(&client) {
            peers.push(addr);
        }
        i += 1;
    }
    assert(all.take(i as int) =~= all);
    match a.event {
        AnnounceEvent::Stopped => {},
        _ => {
            let found: Vec<PeerInfo> = vec![
                PeerInfo::new_at(client, PeerSource::SuperTracker, now),
            ];
            assert(views(found@) =~= seq![
                PeerModel::fresh(client, PeerSource::SuperTracker, now),
            ]);
            cache.add_peers_at(&a.infohash, found.as_slice(), now);
        },
    }
    Announced {
        peers,
        event: Event::AnnounceRequest {
            infohash: a.infohash,
            peer_addr: client,
            peer_id: Some(a.peer_id),
            event: a.event,
            uploaded: a.uploaded,
            downloaded: a.downloaded,
            left: a.left,
        },
    }
}

/// Takes an announcement into the cache. The answer has no more than `most` peers.
pub fn take_announcement(cache: &mut PeerCache, a: &Announcement, most: usize) -> (r: Announced)
    requires
        old(cache).wf(),
    ensures
        final(cache).wf(),
        final(cache).same_limits(*old(cache)),
        exists|now: u64| #[trigger] is_taken(*old(cache), *final(cache), *a, most, now, r),
{
    let now: u64 = unix_nanos();
    take_announcement_at(cache, a, most, now)
}

/// The bytes of the answer to an announcement.
pub open spec fn announce_response_bytes(
    a: Announcement,
    interval: u32,
    peers: Seq<SocketAddr>,
    seeders: u32,
    leechers: u32,
) -> Seq<u8> {
    be_bytes(ACTION_ANNOUNCE as nat, 4) + be_bytes(a.transaction_id as nat, 4) + be_bytes(
        interval as nat,
        4,
    ) + be_bytes(leechers as nat, 4) + be_bytes(seeders as nat, 4) + compact_peers(
        peers.take(peers_wanted(a.num_want, peers.len() as int)),
    )
}

/// Whether a packet asks for a connection the way it should.
pub open spec fn asks_to_connect(data: Seq<u8>) -> bool {
    &&& data.len() >= 16
    &&& request_action(data) == ACTION_CONNECT
    &&& request_connection(data) == PROTOCOL_ID
}

/// Why a packet of at least 16 bytes is refused, `None` if it is not.
pub open spec fn refusal(
    connections: Map<u64, ConnectionEntry>,
    data: Seq<u8>,
    from: SocketAddr,
) -> Option<Seq<char>> {
    let id = request_connection(data) as u64;
    if request_action(data) == ACTION_CONNECT {
        if request_connection(data) == PROTOCOL_ID {
            None
        } else {
            Some("invalid protocol id"@)
        }
    } else if request_action(data) == ACTION_ANNOUNCE {
        if data.len() < ANNOUNCE_LEN {
            Some("announce packet too short"@)
        } else if connections.contains_key(id) && connections[id].remote_addr.ip != from.ip {
            Some("invalid connection id"@)
        } else {
            None
        }
    } else if request_action(data) == ACTION_SCRAPE {
        Some("scrape not implemented"@)
    } else {
        Some("invalid action"@)
    }
}

/// Whether `answer` is what a packet comes to, with `new_id` as the connection to hand out.
pub open spec fn answers(
    connections: Map<u64, ConnectionEntry>,
    data: Seq<u8>,
    from: SocketAddr,
    new_id: u64,
    answer: Answer,
) -> bool {
    if data.len() < 16 {
        answer is Silence
    } else {
        let tid = request_transaction(data) as u32;
        match refusal(connections, data, from) {
            Some(message) => answer matches Answer::Reply(b) && b@ == error_response(tid, message),
            None => if request_action(data) == ACTION_CONNECT {
                answer matches Answer::Reply(b) && b@ == connect_response(tid, new_id)
            } else if !connections.contains_key(request_connection(data) as u64) {
                answer is Silence
            } else {
                answer matches Answer::Announced(a) && announces(data, from, a)
            },
        }
    }
}

/// The connections after a packet.
pub open spec fn connections_after(
    connections: Map<u64, ConnectionEntry>,
    data: Seq<u8>,
    from: SocketAddr,
    new_id: u64,
    now: u64,
) -> Map<u64, ConnectionEntry> {
    if asks_to_connect(data) {
        connections.insert(new_id, ConnectionEntry { remote_addr: from, created_at: now })
    } else {
        connections
    }
}

/// Whether a connection can still be used at time `now`.
pub open spec fn is_alive(entry: ConnectionEntry, now: u64) -> bool {
    now - entry.created_at < CONNECTION_LIFETIME_SECS * NANOS_PER_SEC
}

/// The connections that can still be used at time `now`.
pub open spec fn alive(connections: Map<u64, ConnectionEntry>, now: u64) -> Map<
    u64,
    ConnectionEntry,
> {
    connections.restrict(
        Set::new(|k: u64| connections.contains_key(k) && is_alive(connections[k], now)),
    )
}

/// A UDP tracker. Its times are nanoseconds since it was set up.
pub struct UdpTrackerServer {
    pub started: Instant,
    pub listen_addr: SocketAddr,
    pub config: SuperTrackerConfig,
    pub connections: VecMap<u64, ConnectionEntry>,
}

impl UdpTrackerServer {
    /// A tracker that has given out no connections.
    pub fn new(listen_addr: SocketAddr, config: SuperTrackerConfig) -> (r: UdpTrackerServer)
        ensures
            r.listen_addr == listen_addr,
            r.config == config,
            r.connections@ == Map::<u64, ConnectionEntry>::empty(),
    {
        UdpTrackerServer {
            started: instant_now(),
            listen_addr,
            config,
            connections: VecMap::new(),
        }
    }

    /// Seconds after which a client should announce itself again, as the answers carry them.
    pub open spec fn interval_spec(&self) -> int {
        if self.config.interval < 0 {
            0
        } else {
            self.config.interval as int % 0x1_0000_0000
        }
    }

    /// Seconds after which a client should announce itself again, as the answers carry them.
    pub fn interval(&self) -> (r: u32)
        ensures
            r == self.interval_spec(),
    {
        if self.config.interval < 0 {
            0
        } else {
            (self.config.interval as u64 % 0x1_0000_0000) as u32
        }
    }

    /// An error.
    pub fn build_error(transaction_id: u32, message: &str) -> (r: Vec<u8>)
        ensures
            r@ == error_response(transaction_id, message@),
    {
        let mut buf: Vec<u8> = Vec::new();
        put_be(&mut buf, ACTION_ERROR as u64, 4);
        put_be(&mut buf, transaction_id as u64, 4);
        put_text(&mut buf, message);
        assert(buf@ =~= error_response(transaction_id, message@));
        buf
    }

    /// Answers a connection request that came at time `now`.
    fn handle_connect(
        &mut self,
        protocol_id: u64,
        transaction_id: u32,
        from: SocketAddr,
        new_id: u64,
        now: u64,
    ) -> (r: Vec<u8>)
        ensures
            final(self).started == old(self).started,
            final(self).listen_addr == old(self).listen_addr,
            final(self).config == old(self).config,
            protocol_id == PROTOCOL_ID ==> {
                &&& r@ == connect_response(transaction_id, new_id)
                &&& final(self).connections@ == old(self).connections@.insert(
                    new_id,
                    ConnectionEntry { remote_addr: from, created_at: now },
                )
            },
            protocol_id != PROTOCOL_ID ==> {
                &&& r@ == error_response(transaction_id, "invalid protocol id"@)
                &&& final(self).connections == old(self).connections
            },
    {
        if protocol_id != PROTOCOL_ID {
            return Self::build_error(transaction_id, "invalid protocol id");
        }
        self.connections.insert(new_id, ConnectionEntry { remote_addr: from, created_at: now });
        let mut buf: Vec<u8> = Vec::with_capacity(16);
        put_be(&mut buf, ACTION_CONNECT as u64, 4);
        put_be(&mut buf, transaction_id as u64, 4);
        put_be(&mut buf, new_id, 8);
        assert(buf@ =~= connect_response(transaction_id, new_id));
        buf
    }

    /// Takes an announcement.
    fn handle_announce(&self, data: &[u8], transaction_id: u32, from: SocketAddr) -> (r: Answer)
        requires
            data@.len() >= 16,
            transaction_id == request_transaction(data@),
            request_action(data@) == ACTION_ANNOUNCE,
        ensures
            answers(self.connections@, data@, from, 0, r),
    {
        proof {
            lemma_byte_capacity_values();
        }
        if data.len() < ANNOUNCE_LEN {
            return Answer::Reply(Self::build_error(transaction_id, "announce packet too short"));
        }
        let connection_id: u64 = read_be(data, 0, 8);
        match self.connections.get(&connection_id) {
            Some(entry) => {
                if !entry.remote_addr.ip.same(&from.ip) {
                    return Answer::Reply(
                        Self::build_error(transaction_id, "invalid connection id"),
                    );
                }
            },
            None => {
                return Answer::Silence;
            },
        }
        let event_raw: u64 = read_be(data, 80, 84);
        let event: AnnounceEvent = if event_raw == 1 {
            AnnounceEvent::Completed
        } else if event_raw == 2 {
            AnnounceEvent::Started
        } else if event_raw == 3 {
            AnnounceEvent::Stopped
        } else {
            AnnounceEvent::Regular
        };
        let a: Announcement = Announcement {
            transaction_id,
            infohash: take_20(data, 16),
            peer_id: take_20(data, 36),
            downloaded: read_be(data, 56, 64),
            left: read_be(data, 64, 72),
            uploaded: read_be(data, 72, 80),
            event,
            num_want: to_signed_32(read_be(data, 92, 96) as u32),
            port: read_be(data, 96, 98) as u16,
            from,
        };
        assert(announces(data@, from, a));
        Answer::Announced(a)
    }

    /// Takes a packet that came at time `now`, with `new_id` as the connection to hand out.
    pub fn handle_packet_at(&mut self, data: &[u8], from: SocketAddr, new_id: u64, now: u64) -> (r:
        Answer)
        ensures
            final(self).started == old(self).started,
            final(self).listen_addr == old(self).listen_addr,
            final(self).config == old(self).config,
            answers(old(self).connections@, data@, from, new_id, r),
            final(self).connections@ == connections_after(
                old(self).connections@,
                data@,
                from,
                new_id,
                now,
            ),
    {
        if data.len() < 16 {
            return Answer::Silence;
        }
        proof {
            lemma_byte_capacity_values();
        }
        let connection_id: u64 = read_be(data, 0, 8);
        let action: u32 = read_be(data, 8, 12) as u32;
        let transaction_id: u32 = read_be(data, 12, 16) as u32;
        if action == ACTION_CONNECT {
            Answer::Reply(
                self.handle_connect(connection_id, transaction_id, from, new_id, now),
            )
        } else if action == ACTION_ANNOUNCE {
            self.handle_announce(data, transaction_id, from)
        } else if action == ACTION_SCRAPE {
            Answer::Reply(Self::build_error(transaction_id, "scrape not implemented"))
        } else {
            Answer::Reply(Self::build_error(transaction_id, "invalid action"))
        }
    }

    /// Takes a packet. A connection that is handed out has a random number.
    pub fn handle_packet(&mut self, data: &[u8], from: SocketAddr) -> (r: Answer)
        ensures
            final(self).started == old(self).started,
            final(self).listen_addr == old(self).listen_addr,
            final(self).config == old(self).config,
            exists|new_id: u64, now: Instant|
                answers(old(self).connections@, data@, from, new_id, r)
                    && final(self).connections@ == #[trigger] connections_after(
                    old(self).connections@,
                    data@,
                    from,
                    new_id,
                    nanos_since(old(self).started, now),
                ),
    {
        let drawn: Vec<u8> = random_bytes(8);
        let new_id: u64 = read_be(drawn.as_slice(), 0, 8);
        let now: u64 = elapsed_nanos(&self.started);
        self.handle_packet_at(data, from, new_id, now)
    }

    /// The answer to an announcement: what the swarm holds, as many peers as are wanted.
    pub fn announce_response(
        &self,
        a: &Announcement,
        peers: &Vec<SocketAddr>,
        seeders: u32,
        leechers: u32,
    ) -> (r: Vec<u8>)
        ensures
            r@ == announce_response_bytes(
                *a,
                self.interval_spec() as u32,
                peers@,
                seeders,
                leechers,
            ),
    {
        let count: usize = if a.num_want < 0 || a.num_want > MAX_NUM_WANT {
            peers.len()
        } else if (a.num_want as usize) < peers.len() {
            a.num_want as usize
        } else {
            peers.len()
        };
        let mut wanted: Vec<SocketAddr> = Vec::with_capacity(count);
        let mut i: usize = 0;
        while i < count
            invariant
                i <= count <= peers@.len(),
                wanted@ == peers@.take(i as int),
            decreases count - i,
        {
            wanted.push(peers[i]);
            i += 1;
            assert(wanted@ =~= peers@.take(i as int));
        }
        let mut buf: Vec<u8> = Vec::new();
        put_be(&mut buf, ACTION_ANNOUNCE as u64, 4);
        put_be(&mut buf, a.transaction_id as u64, 4);
        put_be(&mut buf, self.interval() as u64, 4);
        put_be(&mut buf, leechers as u64, 4);
        put_be(&mut buf, seeders as u64, 4);
        put_compact_peers(&mut buf, wanted.as_slice());
        assert(buf@ =~= announce_response_bytes(
            *a,
            self.interval_spec() as u32,
            peers@,
            seeders,
            leechers,
        ));
        buf
    }

    /// Drops the connections that can no longer be used at time `now`. Returns how many.
    pub fn cleanup_connections_at(&mut self, now: u64) -> (r: usize)
        ensures
            final(self).started == old(self).started,
            final(self).listen_addr == old(self).listen_addr,
            final(self).config == old(self).config,
            final(self).connections@ == alive(old(self).connections@, now),
            r == old(self).connections@.len() - final(self).connections@.len(),
    {
        let n: usize = self.connections.len();
        let ghost before = self.connections.seq();
        let ghost all = self.connections@;
        let mut keep: Vec<bool> = Vec::with_capacity(n);
        let mut i: usize = 0;
        while i < n
            invariant
                i <= n == before.len(),
                before == self.connections.seq(),
                keep@.len() == i,
                forall|j: int| 0 <= j < i ==> keep@[j] == is_alive((#[trigger] before[j]).1, now),
            decreases n - i,
        {
            let created: u64 = self.connections.value_at(i).created_at;
            keep.push(created >= now || now - created < CONNECTION_LIFETIME_SECS * NANOS_PER_SEC);
            i += 1;
        }
        proof {
            crate::vecmap::lemma_map_of(before);
        }
        self.connections.retain(&keep);
        proof {
            let left = self.connections@;
            assert forall|k: u64| #[trigger] left.contains_key(k) <==> alive(all, now).contains_key(
                k,
            ) by {
                if all.contains_key(k) {
                    let j = choose|j: int| 0 <= j < before.len() && (#[trigger] before[j]).0@ == k;
                    assert(left.contains_key(before[j].0@) == keep@[j]);
                    assert(all[k] == before[j].1);
                }
            }
            assert(left =~= alive(all, now));
        }
        n - self.connections.len()
    }

    /// Drops the connections that can no longer be used.
    pub fn cleanup_connections(&mut self) -> (r: usize)
        ensures
            final(self).started == old(self).started,
            final(self).listen_addr == old(self).listen_addr,
            final(self).config == old(self).config,
            exists|now: Instant|
                final(self).connections@ == #[trigger] alive(
                    old(self).connections@,
                    nanos_since(old(self).started, now),
                ),
            r == old(self).connections@.len() - final(self).connections@.len(),
    {
        let now: u64 = elapsed_nanos(&self.started);
        self.cleanup_connections_at(now)
    }
}

/// A number of `width` bytes in the middle of others is read back.
proof fn lemma_field(before: Seq<u8>, n: nat, width: nat, after: Seq<u8>)
    requires
        n < byte_capacity(width),
    ensures
        be_value(
            (before + be_bytes(n, width) + after).subrange(
                before.len() as int,
                (before.len() + width) as int,
            ),
        ) == n,
{
    lemma_be_bytes_len(n, width);
    lemma_be_round_trip(n, width);
    assert((before + be_bytes(n, width) + after).subrange(
        before.len() as int,
        (before.len() + width) as int,
    ) =~= be_bytes(n, width));
}

/// A client that asks for a connection is given one: the tracker takes its request, records the
/// connection for the client, and the client reads its number out of the answer.
pub proof fn law_connect_is_answered(
    connections: Map<u64, ConnectionEntry>,
    transaction_id: u32,
    from: SocketAddr,
    new_id: u64,
    now: u64,
)
    ensures
        asks_to_connect(connect_request(transaction_id)),
        refusal(connections, connect_request(transaction_id), from) is None,
        request_transaction(connect_request(transaction_id)) == transaction_id,
        connections_after(
            connections,
            connect_request(transaction_id),
            from,
            new_id,
            now,
        ).contains_pair(new_id, ConnectionEntry { remote_addr: from, created_at: now }),
        connect_response(transaction_id, new_id).len() == 16,
        action_of(connect_response(transaction_id, new_id)) == ACTION_CONNECT,
        transaction_of(connect_response(transaction_id, new_id)) == transaction_id,
        be_value(connect_response(transaction_id, new_id).subrange(8, 16)) == new_id,
{
    lemma_byte_capacity_values();
    let t = be_bytes(transaction_id as nat, 4);
    let p = be_bytes(PROTOCOL_ID as nat, 8);
    let c = be_bytes(ACTION_CONNECT as nat, 4);
    let n = be_bytes(new_id as nat, 8);
    lemma_be_bytes_len(transaction_id as nat, 4);
    lemma_be_bytes_len(PROTOCOL_ID as nat, 8);
    lemma_be_bytes_len(ACTION_CONNECT as nat, 4);
    lemma_be_bytes_len(new_id as nat, 8);
    let e = Seq::<u8>::empty();
    let request = connect_request(transaction_id);
    assert(request =~= e + p + (c + t));
    lemma_field(e, PROTOCOL_ID as nat, 8, c + t);
    assert(request =~= p + c + t);
    lemma_field(p, ACTION_CONNECT as nat, 4, t);
    assert(request =~= (p + c) + t + e);
    lemma_field(p + c, transaction_id as nat, 4, e);
    let response = connect_response(transaction_id, new_id);
    assert(response =~= e + c + (t + n));
    lemma_field(e, ACTION_CONNECT as nat, 4, t + n);
    assert(response =~= c + t + n);
    lemma_field(c, transaction_id as nat, 4, n);
    assert(response =~= (c + t) + n + e);
    lemma_field(c + t, new_id as nat, 8, e);
}

/// What a client announces under its connection reaches the tracker as it was said.
pub proof fn law_announcement_is_understood(
    connections: Map<u64, ConnectionEntry>,
    connection_id: u64,
    transaction_id: u32,
    infohash: Infohash,
    peer_id: [u8; 20],
    port: u16,
    key: u32,
    from: SocketAddr,
    a: Announcement,
)
    requires
        connections.contains_key(connection_id),
        connections[connection_id].remote_addr.ip == from.ip,
    ensures
        ({
            let data = announce_request(
                connection_id,
                transaction_id,
                infohash@,
                peer_id@,
                port,
                key,
            );
            &&& data.len() == 98
            &&& request_action(data) == ACTION_ANNOUNCE
            &&& request_connection(data) == connection_id
            &&& refusal(connections, data, from) is None
            &&& announces(data, from, a) ==> {
                &&& a.transaction_id == transaction_id
                &&& a.infohash@ == infohash@
                &&& a.peer_id@ == peer_id@
                &&& a.downloaded == 0 && a.left == 0 && a.uploaded == 0
                &&& a.event == AnnounceEvent::Regular
                &&& a.num_want == -1
                &&& a.port == port
            }
        }),
{
    lemma_byte_capacity_values();
    let e = Seq::<u8>::empty();
    let cid = be_bytes(connection_id as nat, 8);
    let act = be_bytes(ACTION_ANNOUNCE as nat, 4);
    let tid = be_bytes(transaction_id as nat, 4);
    let z8 = be_bytes(0, 8);
    let z4 = be_bytes(0, 4);
    let k = be_bytes(key as nat, 4);
    let want = be_bytes(0xFFFF_FFFF, 4);
    let p = be_bytes(port as nat, 2);
    lemma_be_bytes_len(connection_id as nat, 8);
    lemma_be_bytes_len(ACTION_ANNOUNCE as nat, 4);
    lemma_be_bytes_len(transaction_id as nat, 4);
    lemma_be_bytes_len(0, 8);
    lemma_be_bytes_len(0, 4);
    lemma_be_bytes_len(key as nat, 4);
    lemma_be_bytes_len(0xFFFF_FFFF, 4);
    lemma_be_bytes_len(port as nat, 2);
    lemma_be_round_trip(connection_id as nat, 8);
    lemma_be_round_trip(ACTION_ANNOUNCE as nat, 4);
    lemma_be_round_trip(transaction_id as nat, 4);
    lemma_be_round_trip(0, 8);
    lemma_be_round_trip(0, 4);
    lemma_be_round_trip(0xFFFF_FFFF, 4);
    lemma_be_round_trip(port as nat, 2);
    let data = announce_request(connection_id, transaction_id, infohash@, peer_id@, port, key);
    assert(data.subrange(0, 8) =~= cid);
    assert(data.subrange(8, 12) =~= act);
    assert(data.subrange(12, 16) =~= tid);
    assert(data.subrange(16, 36) =~= infohash@);
    assert(data.subrange(36, 56) =~= peer_id@);
    assert(data.subrange(56, 64) =~= z8);
    assert(data.subrange(64, 72) =~= z8);
    assert(data.subrange(72, 80) =~= z8);
    assert(data.subrange(80, 84) =~= z4);
    assert(data.subrange(92, 96) =~= want);
    assert(data.subrange(96, 98) =~= p);
}

/// A client reads the peers of the swarm out of the answer to its announcement: all those that are
/// wanted, of version 4 and with a port, in their order.
pub proof fn law_announce_response_is_read(
    a: Announcement,
    interval: u32,
    peers: Seq<SocketAddr>,
    seeders: u32,
    leechers: u32,
)
    ensures
        ({
            let data = announce_response_bytes(a, interval, peers, seeders, leechers);
            &&& data.len() >= 20
            &&& action_of(data) == ACTION_ANNOUNCE
            &&& transaction_of(data) == a.transaction_id
            &&& be_value(data.subrange(8, 12)) == interval
            &&& be_value(data.subrange(12, 16)) == leechers
            &&& be_value(data.subrange(16, 20)) == seeders
            &&& peers_of(data.skip(20), false) == peers.take(
                peers_wanted(a.num_want, peers.len() as int),
            ).filter(carried(false))
        }),
{
    lemma_byte_capacity_values();
    let wanted = peers.take(peers_wanted(a.num_want, peers.len() as int));
    let data = announce_response_bytes(a, interval, peers, seeders, leechers);
    lemma_be_bytes_len(ACTION_ANNOUNCE as nat, 4);
    lemma_be_bytes_len(a.transaction_id as nat, 4);
    lemma_be_bytes_len(interval as nat, 4);
    lemma_be_bytes_len(leechers as nat, 4);
    lemma_be_bytes_len(seeders as nat, 4);
    lemma_be_round_trip(ACTION_ANNOUNCE as nat, 4);
    lemma_be_round_trip(a.transaction_id as nat, 4);
    lemma_be_round_trip(interval as nat, 4);
    lemma_be_round_trip(leechers as nat, 4);
    lemma_be_round_trip(seeders as nat, 4);
    assert(data.subrange(0, 4) =~= be_bytes(ACTION_ANNOUNCE as nat, 4));
    assert(data.subrange(4, 8) =~= be_bytes(a.transaction_id as nat, 4));
    assert(data.subrange(8, 12) =~= be_bytes(interval as nat, 4));
    assert(data.subrange(12, 16) =~= be_bytes(leechers as nat, 4));
    assert(data.subrange(16, 20) =~= be_bytes(seeders as nat, 4));
    assert(data.skip(20) =~= compact_peers(wanted));
    law_compact_round_trip(wanted, false);
}

/// A client reads the reason out of a refusal.
pub proof fn law_refusal_is_read(
    connections: Map<u64, ConnectionEntry>,
    data: Seq<u8>,
    from: SocketAddr,
    transaction_id: u32,
)
    requires
        refusal(connections, data, from) is Some,
    ensures
        ({
            let message = refusal(connections, data, from)->0;
            let response = error_response(transaction_id, message);
            &&& response.len() >= 20
            &&& action_of(response) == ACTION_ERROR
            &&& transaction_of(response) == transaction_id
            &&& response.skip(8) == encode_utf8(message)
            &&& valid_utf8(response.skip(8))
        }),
{
    lemma_byte_capacity_values();
    let message = refusal(connections, data, from)->0;
    let response = error_response(transaction_id, message);
    lemma_be_bytes_len(ACTION_ERROR as nat, 4);
    lemma_be_bytes_len(transaction_id as nat, 4);
    lemma_be_round_trip(ACTION_ERROR as nat, 4);
    lemma_be_round_trip(transaction_id as nat, 4);
    assert(response.subrange(0, 4) =~= be_bytes(ACTION_ERROR as nat, 4));
    assert(response.subrange(4, 8) =~= be_bytes(transaction_id as nat, 4));
    assert(response.skip(8) =~= encode_utf8(message));
    vstd::utf8::encode_utf8_valid_utf8(message);
    reveal_strlit("invalid protocol id");
    reveal_strlit("announce packet too short");
    reveal_strlit("invalid connection id");
    reveal_strlit("scrape not implemented");
    reveal_strlit("invalid action");
    lemma_encoded_at_least(message);
}

/// Text takes at least a byte a character.
proof fn lemma_encoded_at_least(s: Seq<char>)
    ensures
        encode_utf8(s).len() >= s.len(),
    decreases s.len(),
{
    reveal_with_fuel(encode_utf8, 2);
    if s.len() > 0 {
        lemma_encoded_at_least(s.drop_first());
    }
}

/// A connection stays in use until its time is over, whatever is cleaned up before.
pub proof fn law_fresh_connection_is_kept(
    connections: Map<u64, ConnectionEntry>,
    id: u64,
    now: u64,
)
    requires
        connections.contains_key(id),
        now < connections[id].created_at + CONNECTION_LIFETIME_SECS * NANOS_PER_SEC,
    ensures
        alive(connections, now).contains_key(id),
        alive(connections, now)[id] == connections[id],
{
}

/// A packet of at least 98 bytes with the action 1, under a connection that was given to the address
/// that it came from, is an announcement, and its fields are where BEP 15 has them: the event is the
/// number in bytes 80 to 84, where 1 stands for completed, 2 for started and 3 for stopped.
pub proof fn law_announce_packet_is_read(
    connections: Map<u64, ConnectionEntry>,
    data: Seq<u8>,
    from: SocketAddr,
    new_id: u64,
    answer: Answer,
)
    requires
        answers(connections, data, from, new_id, answer),
        data.len() >= 98,
        data[8] == 0 && data[9] == 0 && data[10] == 0 && data[11] == 1,
        connections.contains_key(be_value(data.subrange(0, 8)) as u64),
        connections[be_value(data.subrange(0, 8)) as u64].remote_addr.ip == from.ip,
    ensures
        answer matches Answer::Announced(a) && {
            let number = be_value(data.subrange(80, 84));
            &&& data[80] == 0 && data[81] == 0 && data[82] == 0 && data[83] == 1
                ==> a.event == AnnounceEvent::Completed
            &&& data[80] == 0 && data[81] == 0 && data[82] == 0 && data[83] == 2
                ==> a.event == AnnounceEvent::Started
            &&& data[80] == 0 && data[81] == 0 && data[82] == 0 && data[83] == 3
                ==> a.event == AnnounceEvent::Stopped
            &&& data[80] != 0 || data[81] != 0 || data[82] != 0 || data[83] == 0 || data[83] > 3
                ==> a.event == AnnounceEvent::Regular
            &&& forall|i: int| 0 <= i < 20 ==> #[trigger] a.infohash@[i] == data[16 + i]
            &&& forall|i: int| 0 <= i < 20 ==> #[trigger] a.peer_id@[i] == data[36 + i]
            &&& a.downloaded == be_value(data.subrange(56, 64))
            &&& a.left == be_value(data.subrange(64, 72))
            &&& a.uploaded == be_value(data.subrange(72, 80))
            &&& a.port == data[96] * 256 + data[97]
            &&& a.from == from
            &&& a.client().ip == from.ip && a.client().port == data[96] * 256 + data[97]
            &&& a.transaction_id == be_value(data.subrange(12, 16))
            &&& (data[92] < 128 ==> a.num_want == be_value(data.subrange(92, 96)))
            &&& (data[92] >= 128 ==> a.num_want == be_value(data.subrange(92, 96)) - 0x1_0000_0000)
        },
{
    law_short_numbers(data.subrange(8, 12));
    law_short_numbers(data.subrange(80, 84));
    law_short_numbers(data.subrange(92, 96));
    law_short_numbers(data.subrange(96, 98));
    let id = be_value(data.subrange(0, 8)) as u64;
    assert(request_action(data) == 1);
    assert(refusal(connections, data, from) is None);
}

/// What is sent back to a packet that is no announcement under a connection: nothing to one of fewer
/// than 16 bytes; the new connection, under the transaction of the request, to one that asks for a
/// connection by the protocol's number; and to any other an error under its transaction that says why.
/// An announcement under a connection that nobody was given is passed over.
pub proof fn law_other_packets(
    connections: Map<u64, ConnectionEntry>,
    data: Seq<u8>,
    from: SocketAddr,
    new_id: u64,
    now: u64,
    answer: Answer,
)
    requires
        answers(connections, data, from, new_id, answer),
    ensures
        data.len() < 16 ==> answer is Silence,
        data.len() >= 16 ==> {
            let number = be_value(data.subrange(0, 8));
            let action = be_value(data.subrange(8, 12));
            let known = connections.contains_key(number as u64);
            let message = if action == 0 {
                "invalid protocol id"@
            } else if action == 2 {
                "scrape not implemented"@
            } else if action == 1 {
                if data.len() < 98 {
                    "announce packet too short"@
                } else {
                    "invalid connection id"@
                }
            } else {
                "invalid action"@
            };
            &&& action == 0 && number == 0x41727101980 ==> {
                &&& answer matches Answer::Reply(b)
                &&& b@.len() == 16
                &&& be_value(b@.subrange(0, 4)) == 0
                &&& b@.subrange(4, 8) == data.subrange(12, 16)
                &&& be_value(b@.subrange(8, 16)) == new_id
            }
            &&& action == 0 && number != 0x41727101980 || action > 1 || action == 1 && (data.len()
                < 98 || known && connections[number as u64].remote_addr.ip != from.ip) ==> {
                &&& answer matches Answer::Reply(b)
                &&& be_value(b@.subrange(0, 4)) == 3
                &&& b@.subrange(4, 8) == data.subrange(12, 16)
                &&& b@.len() >= 8 && b@.skip(8) == encode_utf8(message)
            }
            &&& action == 1 && data.len() >= 98 && !known ==> answer is Silence
        },
        ({
            let after = connections_after(connections, data, from, new_id, now);
            if data.len() >= 16 && be_value(data.subrange(8, 12)) == 0 && be_value(
                data.subrange(0, 8),
            ) == 0x41727101980 {
                &&& after.contains_key(new_id)
                &&& after[new_id].remote_addr == from
                &&& after[new_id].created_at == now
                &&& forall|id: u64| #[trigger]
                    after.contains_key(id) && id != new_id <==> connections.contains_key(id) && id
                        != new_id
                &&& forall|id: u64| #[trigger]
                    connections.contains_key(id) && id != new_id ==> after[id] == connections[id]
            } else {
                after == connections
            }
        }),
{
    if data.len() >= 16 {
        lemma_byte_capacity_values();
        let t = data.subrange(12, 16);
        crate::bytes::lemma_be_value_bound(t);
        crate::bytes::lemma_be_bytes_of_value(t);
        let tid = request_transaction(data) as u32;
        assert(be_bytes(tid as nat, 4) == t);
        let e = Seq::<u8>::empty();
        lemma_be_bytes_len(ACTION_ERROR as nat, 4);
        lemma_be_bytes_len(ACTION_CONNECT as nat, 4);
        lemma_be_bytes_len(tid as nat, 4);
        lemma_be_bytes_len(new_id as nat, 8);
        lemma_be_round_trip(ACTION_ERROR as nat, 4);
        lemma_be_round_trip(ACTION_CONNECT as nat, 4);
        lemma_be_round_trip(new_id as nat, 8);
        match refusal(connections, data, from) {
            Some(message) => {
                let b = error_response(tid, message);
                assert(b.subrange(0, 4) =~= be_bytes(ACTION_ERROR as nat, 4));
                assert(b.subrange(4, 8) =~= t);
                assert(b.skip(8) =~= encode_utf8(message));
            },
            None => {
                let b = connect_response(tid, new_id);
                assert(b.subrange(0, 4) =~= be_bytes(ACTION_CONNECT as nat, 4));
                assert(b.subrange(4, 8) =~= t);
                assert(b.subrange(8, 16) =~= be_bytes(new_id as nat, 8));
            },
        }
    }
}

/// A client that stops leaves the cache as it was. Any other one is a peer of its infohash afterwards,
/// under the address that it came from and the port that it named, while there is room, and nobody else
/// comes or goes but for what has expired.
pub proof fn law_announcing_client_is_stored(
    before: PeerCache,
    after: PeerCache,
    a: Announcement,
    most: usize,
    now: u64,
    r: Announced,
)
    requires
        before.wf(),
        is_taken(before, after, a, most, now, r),
    ensures
        a.event == AnnounceEvent::Stopped ==> after == before,
        a.event != AnnounceEvent::Stopped && before.group(a.infohash).len() < before.max_per_infohash
            && before.total() < before.max_peers ==> {
            let client = SocketAddr { ip: a.from.ip, port: a.port };
            &&& after.group(a.infohash).contains_key(client)
            &&& after.group(a.infohash)[client].last_active == now
            &&& !before.group(a.infohash).contains_key(client) ==> after.group(
                a.infohash,
            )[client].source == PeerSource::SuperTracker
            &&& forall|x: SocketAddr| #[trigger]
                after.group(a.infohash).contains_key(x) && x != client ==> before.group(
                    a.infohash,
                ).contains_key(x)
            &&& forall|other: Infohash|
                other != a.infohash ==> #[trigger] after.group(other) == before.group(other)
        },
        r.event matches Event::AnnounceRequest {
            infohash,
            peer_addr,
            peer_id,
            event,
            uploaded,
            downloaded,
            left,
        } && infohash == a.infohash && peer_addr.ip == a.from.ip && peer_addr.port == a.port && peer_id
            == Some(a.peer_id) && event == a.event && uploaded == a.uploaded && downloaded
            == a.downloaded && left == a.left,
{
    if a.event != AnnounceEvent::Stopped && before.group(a.infohash).len() < before.max_per_infohash
        && before.total() < before.max_peers {
        let client = a.client();
        let p = PeerModel::fresh(client, PeerSource::SuperTracker, now);
        let found = seq![p];
        crate::cache::law_found_peers_are_there(before, after, a.infohash, found, now);
        let group = before.group(a.infohash);
        assert(found.drop_last() =~= Seq::<PeerModel>::empty());
        reveal_with_fuel(crate::cache::group_with, 2);
        assert(crate::cache::group_with(group, found.drop_last(), now) == group);
    }
}

/// The peers that an announcement is answered with are peers of its infohash that have not expired, no
/// more than allowed, never the client itself; and while no more are known than allowed, all of them
/// are given.
pub proof fn law_announcement_is_answered_with_the_swarm(
    before: PeerCache,
    after: PeerCache,
    a: Announcement,
    most: usize,
    now: u64,
    r: Announced,
)
    requires
        is_taken(before, after, a, most, now, r),
        forall|x: SocketAddr| #[trigger]
            before.group(a.infohash).contains_key(x) ==> before.group(a.infohash)[x].addr == x,
        before.group(a.infohash).dom().finite(),
    ensures
        r.peers@.len() <= most,
        forall|i: int|
            0 <= i < r.peers@.len() ==> {
                let x = #[trigger] r.peers@[i];
                &&& x != (SocketAddr { ip: a.from.ip, port: a.port })
                &&& before.group(a.infohash).contains_key(x)
                &&& !before.group(a.infohash)[x].expired_within(before.ttl_secs, now)
            },
        before.group(a.infohash).len() <= most ==> forall|x: SocketAddr| #[trigger]
            before.group(a.infohash).contains_key(x) && x != (SocketAddr {
                ip: a.from.ip,
                port: a.port,
            }) && !before.group(a.infohash)[x].expired_within(before.ttl_secs, now)
                ==> r.peers@.contains(x),
{
    let group = before.group(a.infohash);
    let s = choose|s: Seq<PeerModel>| #[trigger]
        lists_group(group, s) && r.peers@ == addrs_of(
            best_of(s.filter(not_expired(before.ttl_secs, now)), most as int),
        ).filter(all_but(a.client()));
    let live = not_expired(before.ttl_secs, now);
    let open = s.filter(live);
    let best = best_of(open, most as int);
    let all = addrs_of(best);
    let other = all_but(a.client());
    crate::types::law_best_come_first(open, most as nat);
    all.lemma_filter_len(other);
    s.lemma_filter_len(live);
    let keys = choose|keys: Seq<SocketAddr>|
        #![trigger keys.no_duplicates()]
        keys.no_duplicates() && keys.len() == s.len() && (forall|i: int|
            0 <= i < s.len() ==> group.contains_key(#[trigger] keys[i]) && group[keys[i]] == s[i])
            && (forall|x: SocketAddr| #[trigger] group.contains_key(x) ==> keys.contains(x));
    assert forall|i: int| 0 <= i < r.peers@.len() implies {
        let x = #[trigger] r.peers@[i];
        &&& x != a.client()
        &&& group.contains_key(x)
        &&& !group[x].expired_within(before.ttl_secs, now)
    } by {
        let x = r.peers@[i];
        all.lemma_filter_pred(other, i);
        all.lemma_filter_contains_rev(other, x);
        let k = choose|k: int| 0 <= k < all.len() && all[k] == x;
        assert(open.contains(best[k]));
        let q = choose|q: int| 0 <= q < open.len() && open[q] == best[k];
        s.lemma_filter_pred(live, q);
        s.lemma_filter_contains_rev(live, open[q]);
        let z = choose|z: int| 0 <= z < s.len() && s[z] == open[q];
        assert(group[keys[z]] == s[z]);
        assert(group[keys[z]].addr == keys[z]);
    }
    if group.len() <= most {
        keys.unique_seq_to_set();
        assert(keys.to_set() =~= group.dom()) by {
            assert forall|x: SocketAddr| keys.to_set().contains(x) <==> group.dom().contains(x) by {
                if keys.contains(x) {
                    let z = choose|z: int| 0 <= z < keys.len() && keys[z] == x;
                    assert(group.contains_key(keys[z]));
                }
            }
        }
        assert(s.len() <= most);
        assert forall|x: SocketAddr| #[trigger] group.contains_key(x) && x != a.client()
            && !group[x].expired_within(before.ttl_secs, now) implies r.peers@.contains(x) by {
            let z = choose|z: int| 0 <= z < keys.len() && keys[z] == x;
            assert(group[keys[z]] == s[z]);
            s.lemma_filter_contains(live, z);
            crate::types::lemma_all_fit(open, most as nat, s[z]);
            let k = choose|k: int| 0 <= k < best.len() && best[k] == s[z];
            assert(all[k] == x);
            all.lemma_filter_contains(other, k);
        }
    }
}

/// A client that names a number of peers, up to 100, gets as many of the peers that there are; one that
/// names another number, or none, gets all.
pub proof fn law_how_many_peers_are_sent(num_want: i32, len: nat)
    ensures
        0 <= num_want <= 100 && num_want <= len ==> peers_wanted(num_want, len as int) == num_want,
        0 <= num_want <= 100 && num_want > len ==> peers_wanted(num_want, len as int) == len,
        num_want < 0 || num_want > 100 ==> peers_wanted(num_want, len as int) == len,
{
}

/// A cleanup drops just the connections that were given 120 seconds ago or earlier.
pub proof fn law_connections_last(connections: Map<u64, ConnectionEntry>, now: u64, id: u64)
    ensures
        alive(connections, now).contains_key(id) <==> connections.contains_key(id) && now
            - connections[id].created_at < 120_000_000_000,
        alive(connections, now).contains_key(id) ==> alive(connections, now)[id] == connections[id],
{
}

/// The interval of the settings is told as it is, zero in place of a negative one.
pub proof fn law_interval_is_told(server: UdpTrackerServer)
    ensures
        0 <= server.config.interval < 0x1_0000_0000 ==> server.interval_spec()
            == server.config.interval,
        server.config.interval < 0 ==> server.interval_spec() == 0,
{
}

} // verus!
