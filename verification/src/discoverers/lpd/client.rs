//! Finding peers on the local network.
//!
//! The sockets are the caller's: [`LpdDiscoverer::query`] gives the message to send, and
//! [`LpdDiscoverer::on_message`] takes what was received.

use crate::bytes::{
    append_decimal, decimal_text, law_decimal_round_trip, lemma_decimal_text, number_in,
    parse_number, put_text, same_text,
};
use crate::clock::{elapsed_nanos, instant_now, nanos_of, nanos_since, unix_nanos, NANOS_PER_SEC};
use crate::digest::{
    hex_bytes, hex_decode, hex_encode, hex_text, hex_value, is_hex, law_hex_round_trip,
};
use crate::discoverers::lpd::{LPD_MULTICAST_ADDR, LPD_MULTICAST_PORT};
use crate::net::SocketAddr;
use crate::random::{is_alphanumeric, random_text};
use crate::seqs::{at_most, first_where, lemma_filter_step, lemma_first_where, lemma_first_where_at};
use crate::sort::views;
use crate::text::{
    chars_of, is_white_space, lemma_trimmed, lower, occurs_at, part_at, part_reads_as, reads_as,
    sub_text, text_from_utf8, trim, trimmed,
};
use crate::traits::{no_requests, DiscovererStats, DiscovererType, PeerDiscoverer};
use crate::types::{fresh_models, fresh_peers, Infohash, PeerInfo, PeerSource};
use crate::vecmap::VecMap;
use std::time::Instant;
use vstd::prelude::*;
use vstd::string::*;
use vstd::utf8::{decode_utf8, encode_utf8, valid_utf8};

verus! {

/// The settings of the local discovery.
pub struct LpdConfig {
    /// The port that messages tell of.
    pub listen_port: u16,
    pub multicast_addr: [u8; 4],
    pub multicast_port: u16,
    /// What the messages of this node are known by.
    pub cookie: String,
    /// Seconds between two messages about an infohash.
    pub min_broadcast_interval_secs: u64,
    /// Seconds to wait for others.
    pub query_wait_secs: u64,
    pub peer_ttl_secs: u64,
    pub enabled: bool,
}

/// Whether all settings but the port are the usual ones.
pub open spec fn has_usual_settings(c: LpdConfig) -> bool {
    &&& c.multicast_addr == [239u8, 192u8, 152u8, 143u8]
    &&& c.multicast_port == LPD_MULTICAST_PORT
    &&& c.cookie@.len() == 8
    &&& forall|i: int| 0 <= i < 8 ==> is_alphanumeric(#[trigger] c.cookie@[i])
    &&& c.min_broadcast_interval_secs == 300
    &&& c.query_wait_secs == 3
    &&& c.peer_ttl_secs == 1800
    &&& c.enabled
}

impl Default for LpdConfig {
    /// The usual settings, with a random cookie.
    fn default() -> (r: LpdConfig)
        ensures
            r.listen_port == 6881,
            has_usual_settings(r),
    {
        LpdConfig {
            listen_port: 6881,
            multicast_addr: [239u8, 192u8, 152u8, 143u8],
            multicast_port: LPD_MULTICAST_PORT,
            cookie: random_text(8),
            min_broadcast_interval_secs: 300,
            query_wait_secs: 3,
            peer_ttl_secs: 1800,
            enabled: true,
        }
    }
}

/// A peer that was heard of. Times are nanoseconds since the discoverer was set up.
#[derive(Debug, Clone, Copy)]
pub struct LpdPeer {
    pub addr: SocketAddr,
    pub first_seen: u64,
    pub last_seen: u64,
}

/// Line ends.
pub open spec fn is_newline() -> spec_fn(char) -> bool {
    |c: char| c == '\n'
}

/// Colons.
pub open spec fn is_colon() -> spec_fn(char) -> bool {
    |c: char| c == ':'
}

/// What the lines of a message say.
pub struct Fields {
    pub infohash: Option<Seq<u8>>,
    pub port: Option<nat>,
    /// Whether the message is one of this node.
    pub own: bool,
}

/// A message of which nothing was read.
pub open spec fn no_fields() -> Fields {
    Fields { infohash: None, port: None, own: false }
}

/// What a message says with one more line: a name, a colon and a value. Other lines say nothing, and
/// neither does an infohash that is not made of 40 hexadecimal digits.
pub open spec fn with_line(f: Fields, line: Seq<char>, cookie: Seq<char>) -> Fields {
    let t = trimmed(line);
    let c = first_where(t, is_colon());
    if c >= t.len() {
        f
    } else {
        with_field(f, trimmed(t.take(c)), trimmed(t.skip(c + 1)), cookie)
    }
}

/// What a message says with one more field.
pub open spec fn with_field(
    f: Fields,
    name: Seq<char>,
    value: Seq<char>,
    cookie: Seq<char>,
) -> Fields {
    if reads_as(name, "infohash"@) {
        if value.len() == 40 && is_hex(value) {
            Fields { infohash: Some(hex_bytes(value)), ..f }
        } else {
            f
        }
    } else if reads_as(name, "port"@) {
        Fields { port: number_in(encode_utf8(value), 0xFFFF), ..f }
    } else if reads_as(name, "cookie"@) {
        Fields { own: value == cookie, ..f }
    } else {
        f
    }
}

/// What the lines of a text say, on top of what was said before.
pub open spec fn with_lines(f: Fields, s: Seq<char>, cookie: Seq<char>) -> Fields
    decreases s.len(),
{
    let i = first_where(s, is_newline());
    proof {
        lemma_first_where(s, is_newline());
    }
    if i >= s.len() {
        with_line(f, s, cookie)
    } else {
        with_lines(with_line(f, s.take(i), cookie), s.skip(i + 1), cookie)
    }
}

/// The infohash and the port in a message, if it is one of another node.
pub open spec fn message_in(data: Seq<u8>, cookie: Seq<char>) -> Option<
    (Seq<u8>, Option<nat>),
> {
    if !valid_utf8(data) || !occurs_at(decode_utf8(data), "BT-SEARCH"@, 0) {
        None
    } else {
        let f = with_lines(no_fields(), decode_utf8(data), cookie);
        match f.infohash {
            Some(h) => if f.own {
                None
            } else {
                Some((h, f.port))
            },
            None => None,
        }
    }
}

/// A line of a message: a name and a value.
pub open spec fn header(name: Seq<char>, value: Seq<char>) -> Seq<char> {
    name + ": "@ + value + "\r\n"@
}

/// The text of a message.
pub open spec fn message_text(infohash: Seq<u8>, port: u16, cookie: Seq<char>) -> Seq<char> {
    "BT-SEARCH * HTTP/1.1"@ + "\r\n"@ + header(
        "Host"@,
        LPD_MULTICAST_ADDR@ + ":"@ + decimal_text(LPD_MULTICAST_PORT as nat),
    ) + header("Port"@, decimal_text(port as nat)) + header("Infohash"@, hex_text(infohash))
        + header("cookie"@, cookie) + "\r\n"@
}

/// Peers with an address.
pub open spec fn at_addr(addr: SocketAddr) -> spec_fn(LpdPeer) -> bool {
    |p: LpdPeer| p.addr == addr
}

/// Peers that were heard of less than `ttl` seconds before `now`.
pub open spec fn recent(ttl: u64, now: u64) -> spec_fn(LpdPeer) -> bool {
    |p: LpdPeer| now - p.last_seen < ttl * NANOS_PER_SEC
}

/// The peers after one of them was heard of at time `now`.
pub open spec fn heard(list: Seq<LpdPeer>, addr: SocketAddr, now: u64) -> Seq<LpdPeer> {
    let i = first_where(list, at_addr(addr));
    if i < list.len() {
        list.update(i, LpdPeer { last_seen: now, ..list[i] })
    } else {
        list.push(LpdPeer { addr, first_seen: now, last_seen: now })
    }
}

/// The peers that an infohash has.
pub open spec fn peers_for(m: Map<Seq<u8>, Vec<LpdPeer>>, infohash: Seq<u8>) -> Seq<LpdPeer> {
    if m.contains_key(infohash) {
        m[infohash]@
    } else {
        Seq::empty()
    }
}

/// Finding peers on the local network. Its times are nanoseconds since it was set up.
pub struct LpdDiscoverer {
    pub config: LpdConfig,
    pub started: Instant,
    pub discovered_peers: VecMap<Infohash, Vec<LpdPeer>>,
    /// When each infohash was last asked about.
    pub last_broadcast: VecMap<Infohash, u64>,
    pub request_stats: DiscovererStats,
    /// Whether messages are being received.
    pub listener_started: bool,
}

/// What the lines of a message say, as far as they were read.
struct Found {
    infohash: Option<[u8; 20]>,
    port: Option<u16>,
    own: bool,
}

impl Found {
    spec fn model(&self) -> Fields {
        Fields {
            infohash: match self.infohash {
                Some(h) => Some(h@),
                None => None,
            },
            port: match self.port {
                Some(p) => Some(p as nat),
                None => None,
            },
            own: self.own,
        }
    }
}

/// Reads the line between two positions.
fn read_line(text: &str, chars: &Vec<char>, from: usize, to: usize, cookie: &str, found: &mut Found)
    requires
        chars@ == text@,
        from <= to <= chars@.len(),
    ensures
        final(found).model() == with_line(
            old(found).model(),
            chars@.subrange(from as int, to as int),
            cookie@,
        ),
{
    let (a, b): (usize, usize) = trim(chars, from, to);
    let ghost line = chars@.subrange(a as int, b as int);
    let mut c: usize = a;
    while c < b && chars[c] != ':'
        invariant
            a <= c <= b <= chars@.len(),
            line == chars@.subrange(a as int, b as int),
            forall|j: int| 0 <= j < c - a ==> !is_colon()(#[trigger] line[j]),
        decreases b - c,
    {
        assert(line[c - a] == chars@[c as int]);
        c += 1;
    }
    proof {
        if c < b {
            assert(line[c - a] == chars@[c as int]);
        }
        lemma_first_where_at(line, is_colon(), c - a);
    }
    if c >= b {
        return;
    }
    let (n0, n1): (usize, usize) = trim(chars, a, c);
    let (v0, v1): (usize, usize) = trim(chars, c + 1, b);
    proof {
        assert(line.take(c - a) =~= chars@.subrange(a as int, c as int));
        assert(line.skip(c - a + 1) =~= chars@.subrange(c + 1, b as int));
    }
    let value: String = sub_text(text, v0, v1);
    if part_reads_as(chars, n0, n1, "infohash") {
        if v1 - v0 == 40 {
            if let Ok(bytes) = hex_decode(value.as_str()) {
                let id: [u8; 20] = crate::bytes::take_20(bytes.as_slice(), 0);
                assert(id@ =~= bytes@);
                found.infohash = Some(id);
            }
        }
    } else if part_reads_as(chars, n0, n1, "port") {
        found.port = match parse_number(value.as_str().as_bytes(), 0xFFFF) {
            Some(p) => Some(p as u16),
            None => None,
        };
    } else if part_reads_as(chars, n0, n1, "cookie") {
        found.own = same_text(value.as_str(), cookie);
    }
}

/// Appends a line.
fn put_header(text: &mut String, name: &str, value: &str)
    ensures
        final(text)@ == old(text)@ + header(name@, value@),
{
    text.append(name);
    text.append(": ");
    text.append(value);
    text.append("\r\n");
    assert(text@ =~= old(text)@ + header(name@, value@));
}

/// What hearing a message from `from` at time `now` makes of a discoverer, and what it returns.
pub open spec fn took_message(
    before: LpdDiscoverer,
    after: LpdDiscoverer,
    data: Seq<u8>,
    from: SocketAddr,
    now: u64,
    r: Option<(Infohash, SocketAddr)>,
) -> bool {
    &&& after.config == before.config
    &&& after.started == before.started
    &&& after.last_broadcast == before.last_broadcast
    &&& after.request_stats == before.request_stats
    &&& after.listener_started == before.listener_started
    &&& match message_in(data, before.config.cookie@) {
        None => r is None && after.discovered_peers == before.discovered_peers,
        Some((h, port)) => {
            let addr = SocketAddr {
                ip: from.ip,
                port: match port {
                    Some(p) => p as u16,
                    None => from.port,
                },
            };
            &&& r matches Some((ih, a)) && ih@ == h && a == addr
            &&& peers_for(after.discovered_peers@, h) == heard(
                peers_for(before.discovered_peers@, h),
                addr,
                now,
            ).filter(recent(before.config.peer_ttl_secs, now))
            &&& after.discovered_peers@.dom() == before.discovered_peers@.dom().insert(h)
            &&& forall|k: Seq<u8>|
                k != h ==> #[trigger] peers_for(after.discovered_peers@, k) == peers_for(
                    before.discovered_peers@,
                    k,
                )
        },
    }
}

/// What asking about an infohash at time `now` makes of a discoverer, and the message to send.
pub open spec fn asked_about(
    before: LpdDiscoverer,
    after: LpdDiscoverer,
    infohash: Seq<u8>,
    now: u64,
    r: Option<Vec<u8>>,
) -> bool {
    &&& after.config == before.config
    &&& after.started == before.started
    &&& after.discovered_peers == before.discovered_peers
    &&& after.request_stats == before.request_stats
    &&& after.listener_started == before.listener_started
    &&& r is None <==> before.last_broadcast@.contains_key(infohash) && now
        - before.last_broadcast@[infohash] < before.config.min_broadcast_interval_secs
        * NANOS_PER_SEC
    &&& r is None ==> after.last_broadcast == before.last_broadcast
    &&& r matches Some(m) ==> {
        &&& m@ == encode_utf8(
            message_text(infohash, before.config.listen_port, before.config.cookie@),
        )
        &&& after.last_broadcast@ == before.last_broadcast@.insert(infohash, now)
    }
}

impl LpdDiscoverer {
    /// A discoverer with the given settings.
    pub fn new(config: LpdConfig) -> (r: LpdDiscoverer)
        ensures
            r.config == config,
            r.discovered_peers@ == Map::<Seq<u8>, Vec<LpdPeer>>::empty(),
            r.last_broadcast@ == Map::<Seq<u8>, u64>::empty(),
            r.request_stats == no_requests(),
            !r.listener_started,
    {
        LpdDiscoverer {
            config,
            started: instant_now(),
            discovered_peers: VecMap::new(),
            last_broadcast: VecMap::new(),
            request_stats: DiscovererStats::default(),
            listener_started: false,
        }
    }

    /// A discoverer with the usual settings.
    pub fn with_default_config() -> (r: LpdDiscoverer)
        ensures
            r.config.listen_port == 6881,
            has_usual_settings(r.config),
            r.request_stats == no_requests(),
            !r.listener_started,
            r.discovered_peers@ == Map::<Seq<u8>, Vec<LpdPeer>>::empty(),
            r.last_broadcast@ == Map::<Seq<u8>, u64>::empty(),
    {
        Self::new(LpdConfig::default())
    }

    /// Whether messages are yet to be received. From now on they are taken to be.
    pub fn begin_listening(&mut self) -> (r: bool)
        ensures
            r == !old(self).listener_started,
            *final(self) == (LpdDiscoverer { listener_started: true, ..*old(self) }),
    {
        let first: bool = !self.listener_started;
        self.listener_started = true;
        first
    }

    /// The infohash and the port in a message, if it is one of another node.
    pub fn parse_lpd_message(data: &[u8], our_cookie: &str) -> (r: Option<(Infohash, Option<u16>)>)
        ensures
            match r {
                Some((h, p)) => message_in(data@, our_cookie@) == Some(
                    (
                        h@,
                        match p {
                            Some(port) => Some(port as nat),
                            None => None,
                        },
                    ),
                ),
                None => message_in(data@, our_cookie@) is None,
            },
    {
        let text: String = match text_from_utf8(data) {
            Some(t) => t,
            None => {
                return None;
            },
        };
        proof {
            vstd::utf8::encode_utf8_decode_utf8(text@);
        }
        let chars: Vec<char> = chars_of(text.as_str());
        let head: Vec<char> = chars_of("BT-SEARCH");
        if !part_at(&chars, &head, 0) {
            return None;
        }
        let mut found: Found = Found { infohash: None, port: None, own: false };
        let mut start: usize = 0;
        let mut i: usize = 0;
        assert(chars@.skip(0) =~= chars@);
        while i < chars.len()
            invariant
                chars@ == text@,
                start <= i <= chars@.len(),
                forall|j: int| start <= j < i ==> chars@[j] != '\n',
                with_lines(found.model(), chars@.skip(start as int), our_cookie@) == with_lines(
                    no_fields(),
                    chars@,
                    our_cookie@,
                ),
            decreases chars@.len() - i,
        {
            if chars[i] == '\n' {
                let ghost rest = chars@.skip(start as int);
                proof {
                    lemma_first_where_at(rest, is_newline(), i - start);
                    assert(rest.take(i - start) =~= chars@.subrange(start as int, i as int));
                    assert(rest.skip(i - start + 1) =~= chars@.skip(i + 1));
                }
                read_line(text.as_str(), &chars, start, i, our_cookie, &mut found);
                start = i + 1;
            }
            i += 1;
        }
        proof {
            let rest = chars@.skip(start as int);
            lemma_first_where_at(rest, is_newline(), rest.len() as int);
            assert(rest =~= chars@.subrange(start as int, chars@.len() as int));
        }
        read_line(text.as_str(), &chars, start, chars.len(), our_cookie, &mut found);
        if found.own {
            return None;
        }
        match found.infohash {
            Some(h) => Some((h, found.port)),
            None => None,
        }
    }

    /// The message about an infohash.
    pub fn build_lpd_message(infohash: &Infohash, listen_port: u16, cookie: &str) -> (r: Vec<u8>)
        ensures
            r@ == encode_utf8(message_text(infohash@, listen_port, cookie@)),
    {
        let mut host: String = LPD_MULTICAST_ADDR.to_string();
        host.append(":");
        append_decimal(&mut host, LPD_MULTICAST_PORT as u64);
        let mut port: String = String::new();
        append_decimal(&mut port, listen_port as u64);
        assert(port@ =~= decimal_text(listen_port as nat));
        let hex: String = hex_encode(infohash);
        let mut text: String = "BT-SEARCH * HTTP/1.1".to_string();
        text.append("\r\n");
        put_header(&mut text, "Host", host.as_str());
        put_header(&mut text, "Port", port.as_str());
        put_header(&mut text, "Infohash", hex.as_str());
        put_header(&mut text, "cookie", cookie);
        text.append("\r\n");
        let mut out: Vec<u8> = Vec::new();
        put_text(&mut out, text.as_str());
        assert(text@ =~= message_text(infohash@, listen_port, cookie@));
        assert(out@ =~= encode_utf8(message_text(infohash@, listen_port, cookie@)));
        out
    }

    /// Takes what was received from `from` at time `now`. Returns the infohash and the peer that the
    /// message told of.
    pub fn on_message_at(&mut self, data: &[u8], from: SocketAddr, now: u64) -> (r: Option<
        (Infohash, SocketAddr),
    >)
        ensures
            took_message(*old(self), *final(self), data@, from, now, r),
    {
        let (infohash, port): (Infohash, Option<u16>) = match Self::parse_lpd_message(
            data,
            self.config.cookie.as_str(),
        ) {
            Some(m) => m,
            None => {
                return None;
            },
        };
        let addr: SocketAddr = SocketAddr {
            ip: from.ip,
            port: match port {
                Some(p) => p,
                None => from.port,
            },
        };
        let ghost before = self.discovered_peers@;
        let mut list: Vec<LpdPeer> = match self.discovered_peers.remove(&infohash) {
            Some(v) => v,
            None => Vec::new(),
        };
        let ghost old_list = peers_for(before, infohash@);
        assert(list@ =~= old_list);
        heard_of(&mut list, addr, now);
        let kept: Vec<LpdPeer> = keep_recent(&list, self.config.peer_ttl_secs, now);
        self.discovered_peers.insert(infohash, kept);
        assert(self.discovered_peers@.dom() =~= before.dom().insert(infohash@));
        Some((infohash, addr))
    }

    /// Takes what was received from `from`.
    pub fn on_message(&mut self, data: &[u8], from: SocketAddr) -> (r: Option<
        (Infohash, SocketAddr),
    >)
        ensures
            exists|now: Instant| #[trigger]
                took_message(
                    *old(self),
                    *final(self),
                    data@,
                    from,
                    nanos_since(old(self).started, now),
                    r,
                ),
    {
        let now: u64 = elapsed_nanos(&self.started);
        self.on_message_at(data, from, now)
    }

    /// The message to send about an infohash at time `now`, `None` if the last one is not long ago.
    pub fn query_at(&mut self, infohash: &Infohash, now: u64) -> (r: Option<Vec<u8>>)
        ensures
            asked_about(*old(self), *final(self), infohash@, now, r),
    {
        let wait: u128 = nanos_of(self.config.min_broadcast_interval_secs);
        let last: Option<u64> = match self.last_broadcast.get(infohash) {
            Some(t) => Some(*t),
            None => None,
        };
        if let Some(t) = last {
            if t >= now {
                if wait > 0 || t > now {
                    return None;
                }
            } else if ((now - t) as u128) < wait {
                return None;
            }
        }
        self.last_broadcast.insert(*infohash, now);
        Some(
            Self::build_lpd_message(
                infohash,
                self.config.listen_port,
                self.config.cookie.as_str(),
            ),
        )
    }

    /// The message to send about an infohash, `None` if the last one is not long ago.
    pub fn query(&mut self, infohash: &Infohash) -> (r: Option<Vec<u8>>)
        ensures
            exists|now: Instant| #[trigger]
                asked_about(
                    *old(self),
                    *final(self),
                    infohash@,
                    nanos_since(old(self).started, now),
                    r,
                ),
    {
        let now: u64 = elapsed_nanos(&self.started);
        self.query_at(infohash, now)
    }

    /// The first `limit` peers that were heard of for an infohash, as found at time `now` (nanoseconds
    /// since the Unix epoch). Counts the request.
    pub fn collect_peers_at(&mut self, infohash: &Infohash, limit: usize, now: u64) -> (r: Vec<
        PeerInfo,
    >)
        requires
            old(self).request_stats.total_requests < u64::MAX,
            old(self).request_stats.success_requests < u64::MAX,
            old(self).request_stats.total_peers_discovered + peers_for(
                old(self).discovered_peers@,
                infohash@,
            ).len() <= u64::MAX,
        ensures
            views(r@) == fresh_models(
                addrs_of(peers_for(old(self).discovered_peers@, infohash@)).take(
                    at_most(
                        limit as int,
                        peers_for(old(self).discovered_peers@, infohash@).len() as int,
                    ),
                ),
                PeerSource::Lpd,
                now,
            ),
            final(self).config == old(self).config,
            final(self).started == old(self).started,
            final(self).discovered_peers == old(self).discovered_peers,
            final(self).last_broadcast == old(self).last_broadcast,
            final(self).listener_started == old(self).listener_started,
            final(self).request_stats == (DiscovererStats {
                total_requests: (old(self).request_stats.total_requests + 1) as u64,
                success_requests: (old(self).request_stats.success_requests + 1) as u64,
                total_peers_discovered: (old(self).request_stats.total_peers_discovered
                    + r@.len()) as u64,
                last_success_at: Some(now),
                ..old(self).request_stats
            }),
    {
        let ghost list = peers_for(self.discovered_peers@, infohash@);
        let mut addrs: Vec<SocketAddr> = Vec::new();
        if let Some(v) = self.discovered_peers.get(infohash) {
            let mut i: usize = 0;
            while i < v.len()
                invariant
                    i <= v@.len(),
                    v@ == list,
                    addrs@ == addrs_of(list).take(i as int),
                decreases v@.len() - i,
            {
                addrs.push(v[i].addr);
                i += 1;
                assert(addrs@ =~= addrs_of(list).take(i as int));
            }
        }
        assert(addrs@ =~= addrs_of(list));
        let r: Vec<PeerInfo> = fresh_peers(addrs.as_slice(), limit, PeerSource::Lpd, now);
        assert(views(r@).len() == r@.len());
        self.request_stats.record_success_at(r.len(), now);
        r
    }

    /// The first `limit` peers that were heard of for an infohash. Counts the request.
    pub fn collect_peers(&mut self, infohash: &Infohash, limit: usize) -> (r: Vec<PeerInfo>)
        requires
            old(self).request_stats.total_requests < u64::MAX,
            old(self).request_stats.success_requests < u64::MAX,
            old(self).request_stats.total_peers_discovered + peers_for(
                old(self).discovered_peers@,
                infohash@,
            ).len() <= u64::MAX,
        ensures
            exists|now: u64|
                views(r@) == #[trigger] fresh_models(
                    addrs_of(peers_for(old(self).discovered_peers@, infohash@)).take(
                        at_most(
                            limit as int,
                            peers_for(old(self).discovered_peers@, infohash@).len() as int,
                        ),
                    ),
                    PeerSource::Lpd,
                    now,
                ),
            final(self).config == old(self).config,
            final(self).started == old(self).started,
            final(self).discovered_peers == old(self).discovered_peers,
            final(self).last_broadcast == old(self).last_broadcast,
            final(self).listener_started == old(self).listener_started,
            final(self).request_stats.total_requests == old(self).request_stats.total_requests + 1,
            final(self).request_stats.success_requests == old(self).request_stats.success_requests
                + 1,
            final(self).request_stats.failed_requests == old(self).request_stats.failed_requests,
            final(self).request_stats.total_peers_discovered == old(
                self,
            ).request_stats.total_peers_discovered + r@.len(),
            final(self).request_stats.last_success_at is Some,
    {
        let r: Vec<PeerInfo> = self.collect_peers_at(infohash, limit, unix_nanos());
        assert(views(r@).len() == r@.len());
        r
    }

    /// Whether messages are being received.
    pub fn health_check(&self) -> (r: bool)
        ensures
            r == self.listener_started,
    {
        self.listener_started
    }

    /// The request counts.
    pub fn stats(&self) -> (r: DiscovererStats)
        ensures
            r == self.request_stats,
    {
        self.request_stats
    }
}

/// The addresses of peers.
pub open spec fn addrs_of(list: Seq<LpdPeer>) -> Seq<SocketAddr> {
    list.map_values(|p: LpdPeer| p.addr)
}

/// Notes that a peer was heard of at time `now`.
fn heard_of(list: &mut Vec<LpdPeer>, addr: SocketAddr, now: u64)
    ensures
        final(list)@ == heard(old(list)@, addr, now),
{
    let mut i: usize = 0;
    while i < list.len()
        invariant
            i <= list@.len(),
            list@ == old(list)@,
            forall|j: int| 0 <= j < i ==> !at_addr(addr)(#[trigger] list@[j]),
        decreases list@.len() - i,
    {
        if list[i].addr.same(&addr) {
            proof {
                lemma_first_where_at(list@, at_addr(addr), i as int);
            }
            let mut p: LpdPeer = list[i];
            p.last_seen = now;
            list.set(i, p);
            return;
        }
        i += 1;
    }
    proof {
        lemma_first_where_at(list@, at_addr(addr), list@.len() as int);
    }
    list.push(LpdPeer { addr, first_seen: now, last_seen: now });
}

/// The peers that were heard of less than `ttl` seconds before `now`.
fn keep_recent(list: &Vec<LpdPeer>, ttl: u64, now: u64) -> (r: Vec<LpdPeer>)
    ensures
        r@ == list@.filter(recent(ttl, now)),
{
    let limit: u128 = nanos_of(ttl);
    let mut out: Vec<LpdPeer> = Vec::new();
    let mut i: usize = 0;
    assert(list@.take(0).filter(recent(ttl, now)) =~= Seq::empty()) by {
        reveal(Seq::filter);
    }
    while i < list.len()
        invariant
            i <= list@.len(),
            limit == ttl * NANOS_PER_SEC,
            out@ == list@.take(i as int).filter(recent(ttl, now)),
        decreases list@.len() - i,
    {
        proof {
            lemma_filter_step(list@, i as int, recent(ttl, now));
        }
        let seen: u64 = list[i].last_seen;
        let keep: bool = if seen > now {
            true
        } else {
            ((now - seen) as u128) < limit
        };
        if keep {
            out.push(list[i]);
        }
        i += 1;
    }
    assert(list@.take(i as int) =~= list@);
    out
}

impl PeerDiscoverer for LpdDiscoverer {
    open spec fn label(&self) -> Seq<char> {
        "lpd"@
    }

    open spec fn kind(&self) -> DiscovererType {
        DiscovererType::Lpd
    }

    open spec fn enabled(&self) -> bool {
        self.config.enabled
    }

    fn name(&self) -> (r: &str) {
        "lpd"
    }

    fn discoverer_type(&self) -> (r: DiscovererType) {
        DiscovererType::Lpd
    }

    fn is_enabled(&self) -> (r: bool) {
        self.config.enabled
    }
}

/// Whether a text is a single line without white space around it.
pub open spec fn is_plain(s: Seq<char>) -> bool {
    &&& forall|i: int| 0 <= i < s.len() ==> #[trigger] s[i] != '\n'
    &&& s.len() > 0 ==> !is_white_space(s[0]) && !is_white_space(s.last())
}

/// Reading a text line by line.
proof fn lemma_next_line(f: Fields, line: Seq<char>, rest: Seq<char>, cookie: Seq<char>)
    requires
        forall|i: int| 0 <= i < line.len() ==> #[trigger] line[i] != '\n',
    ensures
        with_lines(f, line + seq!['\n'] + rest, cookie) == with_lines(
            with_line(f, line, cookie),
            rest,
            cookie,
        ),
{
    let s = line + seq!['\n'] + rest;
    let n = line.len() as int;
    assert forall|j: int| 0 <= j < n implies !is_newline()(#[trigger] s[j]) by {
        assert(s[j] == line[j]);
    }
    assert(s[n] == '\n');
    lemma_first_where_at(s, is_newline(), n);
    assert(s.take(n) =~= line);
    assert(s.skip(n + 1) =~= rest);
}

/// A line without a colon says nothing.
proof fn lemma_other_line(f: Fields, line: Seq<char>, cookie: Seq<char>)
    requires
        forall|i: int| 0 <= i < line.len() ==> #[trigger] line[i] != ':' && line[i] != '\r',
        is_plain(line),
    ensures
        with_line(f, line + seq!['\r'], cookie) == f,
{
    lemma_trimmed(Seq::empty(), line, seq!['\r']);
    assert(Seq::<char>::empty() + line + seq!['\r'] =~= line + seq!['\r']);
    assert forall|j: int| 0 <= j < line.len() implies !is_colon()(#[trigger] line[j]) by {}
    lemma_first_where_at(line, is_colon(), line.len() as int);
}

/// What is said by a name and a value.
proof fn lemma_header_line(f: Fields, name: Seq<char>, value: Seq<char>, cookie: Seq<char>)
    requires
        is_plain(name),
        name.len() > 0,
        forall|i: int| 0 <= i < name.len() ==> #[trigger] name[i] != ':',
        is_plain(value),
    ensures
        with_line(f, name + seq![':', ' '] + value + seq!['\r'], cookie) == with_field(
            f,
            name,
            value,
            cookie,
        ),
{
    let line = name + seq![':', ' '] + value + seq!['\r'];
    let e = Seq::<char>::empty();
    let n = name.len() as int;
    let t = if value.len() > 0 {
        name + seq![':', ' '] + value
    } else {
        name + seq![':']
    };
    let tail = if value.len() > 0 {
        seq!['\r']
    } else {
        seq![' ', '\r']
    };
    assert(line =~= e + t + tail);
    assert(t[0] == name[0]);
    assert(value.len() > 0 ==> t.last() == value.last());
    assert(value.len() == 0 ==> t.last() == ':');
    lemma_trimmed(e, t, tail);
    assert forall|j: int| 0 <= j < n implies !is_colon()(#[trigger] t[j]) by {
        assert(t[j] == name[j]);
    }
    assert(t[n] == ':');
    lemma_first_where_at(t, is_colon(), n);
    assert(t.take(n) =~= e + name + e);
    lemma_trimmed(e, name, e);
    if value.len() > 0 {
        assert(t.skip(n + 1) =~= seq![' '] + value + e);
        lemma_trimmed(seq![' '], value, e);
    } else {
        assert(t.skip(n + 1) =~= e + value + e);
        lemma_trimmed(e, value, e);
    }
}

/// A header followed by the rest of a message.
proof fn lemma_header(f: Fields, name: Seq<char>, value: Seq<char>, rest: Seq<char>, cookie: Seq<char>)
    requires
        is_plain(name),
        name.len() > 0,
        forall|i: int| 0 <= i < name.len() ==> #[trigger] name[i] != ':',
        is_plain(value),
    ensures
        with_lines(f, header(name, value) + rest, cookie) == with_lines(
            with_field(f, name, value, cookie),
            rest,
            cookie,
        ),
{
    reveal_strlit(": ");
    reveal_strlit("\r\n");
    let line = name + seq![':', ' '] + value + seq!['\r'];
    assert(header(name, value) + rest =~= line + seq!['\n'] + rest);
    assert forall|i: int| 0 <= i < line.len() implies #[trigger] line[i] != '\n' by {
        let n = name.len() as int;
        if i < n {
            assert(line[i] == name[i]);
        } else if n + 2 <= i < n + 2 + value.len() {
            assert(line[i] == value[i - n - 2]);
        }
    }
    lemma_next_line(f, line, rest, cookie);
    lemma_header_line(f, name, value, cookie);
}

proof fn lemma_hex_plain(data: Seq<u8>)
    ensures
        is_plain(hex_text(data)),
{
    let t = hex_text(data);
    assert forall|i: int| 0 <= i < t.len() implies hex_value(#[trigger] t[i]) is Some by {
        law_hex_round_trip(data);
    }
    assert forall|i: int| 0 <= i < t.len() implies #[trigger] t[i] != '\n' by {
        assert(hex_value(t[i]) is Some);
    }
    if t.len() > 0 {
        assert(hex_value(t[0]) is Some && hex_value(t[t.len() - 1]) is Some);
    }
}

/// Whether a text can be the name of a header.
spec fn is_name(s: Seq<char>) -> bool {
    &&& is_plain(s)
    &&& s.len() > 0
    &&& forall|i: int| 0 <= i < s.len() ==> #[trigger] s[i] != ':'
}

proof fn lemma_host_name()
    ensures
        is_name("Host"@),
        !reads_as("Host"@, "port"@),
        !reads_as("Host"@, "infohash"@),
        !reads_as("Host"@, "cookie"@),
{
    reveal_strlit("Host");
    reveal_strlit("infohash");
    reveal_strlit("port");
    reveal_strlit("cookie");
    assert(lower("Host"@[0]) != "port"@[0]);
}

proof fn lemma_port_name()
    ensures
        is_name("Port"@),
        reads_as("Port"@, "port"@),
        !reads_as("Port"@, "infohash"@),
{
    reveal_strlit("Port");
    reveal_strlit("infohash");
    reveal_strlit("port");
}

proof fn lemma_infohash_name()
    ensures
        is_name("Infohash"@),
        reads_as("Infohash"@, "infohash"@),
{
    reveal_strlit("Infohash");
    reveal_strlit("infohash");
}

proof fn lemma_cookie_name()
    ensures
        is_name("cookie"@),
        reads_as("cookie"@, "cookie"@),
        !reads_as("cookie"@, "port"@),
        !reads_as("cookie"@, "infohash"@),
{
    reveal_strlit("cookie");
    reveal_strlit("infohash");
    reveal_strlit("port");
}

proof fn lemma_first_line()
    ensures
        is_name("BT-SEARCH * HTTP/1.1"@),
        forall|i: int|
            0 <= i < "BT-SEARCH * HTTP/1.1"@.len() ==> #[trigger] "BT-SEARCH * HTTP/1.1"@[i]
                != '\r',
        "BT-SEARCH"@.len() == 9,
        "BT-SEARCH * HTTP/1.1"@.len() == 20,
        "BT-SEARCH * HTTP/1.1"@.subrange(0, 9) == "BT-SEARCH"@,
{
    reveal_strlit("BT-SEARCH * HTTP/1.1");
    reveal_strlit("BT-SEARCH");
    assert("BT-SEARCH * HTTP/1.1"@.subrange(0, 9) =~= "BT-SEARCH"@);
}

proof fn lemma_host_value()
    ensures
        is_plain(LPD_MULTICAST_ADDR@ + ":"@ + decimal_text(LPD_MULTICAST_PORT as nat)),
{
    reveal_strlit("239.192.152.143");
    reveal_strlit(":");
    let number = decimal_text(LPD_MULTICAST_PORT as nat);
    lemma_decimal_text(LPD_MULTICAST_PORT as nat);
    let host = LPD_MULTICAST_ADDR@ + ":"@ + number;
    assert(host.last() == number.last());
    assert(host[0] == '2');
    assert forall|i: int| 0 <= i < host.len() implies #[trigger] host[i] != '\n' by {
        if i >= 16 {
            assert(host[i] == number[i - 16]);
        }
    }
}

/// What the headers of a message say.
proof fn lemma_headers(
    infohash: Seq<u8>,
    port: u16,
    cookie: Seq<char>,
    our_cookie: Seq<char>,
    rest: Seq<char>,
)
    requires
        infohash.len() == 20,
        is_plain(cookie),
    ensures
        with_lines(
            no_fields(),
            header("Port"@, decimal_text(port as nat)) + (header("Infohash"@, hex_text(infohash))
                + (header("cookie"@, cookie) + rest)),
            our_cookie,
        ) == with_lines(
            (Fields {
                infohash: Some(infohash),
                port: Some(port as nat),
                own: cookie == our_cookie,
            }),
            rest,
            our_cookie,
        ),
{
    let number = decimal_text(port as nat);
    let hex = hex_text(infohash);
    let f0 = no_fields();
    let f1 = Fields { port: Some(port as nat), ..f0 };
    let f2 = Fields { infohash: Some(infohash), ..f1 };
    let f3 = Fields { own: cookie == our_cookie, ..f2 };
    let r3 = header("cookie"@, cookie) + rest;
    let r2 = header("Infohash"@, hex) + r3;
    lemma_decimal_text(port as nat);
    lemma_hex_plain(infohash);
    law_hex_round_trip(infohash);
    lemma_port_name();
    lemma_infohash_name();
    lemma_cookie_name();
    law_decimal_round_trip(port as nat);
    assert(number_in(encode_utf8(number), 0xFFFF) == Some(port as nat));
    lemma_header(f0, "Port"@, number, r2, our_cookie);
    lemma_header(f1, "Infohash"@, hex, r3, our_cookie);
    lemma_header(f2, "cookie"@, cookie, rest, our_cookie);
}

/// A node is told by the message of another one which infohash it is about and which port to use. It
/// does not listen to its own messages.
pub proof fn law_message_is_read(
    infohash: Seq<u8>,
    port: u16,
    cookie: Seq<char>,
    our_cookie: Seq<char>,
)
    requires
        infohash.len() == 20,
        is_plain(cookie),
    ensures
        message_in(encode_utf8(message_text(infohash, port, cookie)), our_cookie) == if cookie
            == our_cookie {
            None
        } else {
            Some((infohash, Some(port as nat)))
        },
{
    let text = message_text(infohash, port, cookie);
    vstd::utf8::encode_utf8_valid_utf8(text);
    vstd::utf8::encode_utf8_decode_utf8(text);
    let first = "BT-SEARCH * HTTP/1.1"@;
    let host = LPD_MULTICAST_ADDR@ + ":"@ + decimal_text(LPD_MULTICAST_PORT as nat);
    let f0 = no_fields();
    let f3 = Fields {
        infohash: Some(infohash),
        port: Some(port as nat),
        own: cookie == our_cookie,
    };
    let r4 = "\r\n"@;
    let r1 = header("Port"@, decimal_text(port as nat)) + (header("Infohash"@, hex_text(infohash))
        + (header("cookie"@, cookie) + r4));
    let r0 = header("Host"@, host) + r1;
    assert(text =~= first + r4 + r0);
    lemma_first_line();
    assert(text.subrange(0, 9) =~= first.subrange(0, 9));
    let e = Seq::<char>::empty();
    reveal_strlit("\r\n");
    assert(r4 =~= seq!['\r', '\n']);
    assert(first + r4 + r0 =~= (first + seq!['\r']) + seq!['\n'] + r0);
    lemma_next_line(f0, first + seq!['\r'], r0, our_cookie);
    lemma_other_line(f0, first, our_cookie);
    lemma_host_value();
    lemma_host_name();
    lemma_header(f0, "Host"@, host, r1, our_cookie);
    lemma_headers(infohash, port, cookie, our_cookie, r4);
    assert(r4 =~= (e + seq!['\r']) + seq!['\n'] + e);
    lemma_next_line(f3, e + seq!['\r'], e, our_cookie);
    lemma_other_line(f3, e, our_cookie);
    lemma_first_where_at(e, is_newline(), 0);
    lemma_trimmed(e, e, e);
    assert(e + e + e =~= e);
    lemma_first_where_at(e, is_colon(), 0);
}

/// A peer that is heard of is known, once, and stays known until its time is over.
pub proof fn law_heard_peer_is_known(list: Seq<LpdPeer>, addr: SocketAddr, ttl: u64, now: u64)
    requires
        ttl > 0,
        addrs_of(list).no_duplicates(),
    ensures
        addrs_of(heard(list, addr, now)).no_duplicates(),
        addrs_of(heard(list, addr, now).filter(recent(ttl, now))).contains(addr),
{
    let i = first_where(list, at_addr(addr));
    lemma_first_where(list, at_addr(addr));
    let r = heard(list, addr, now);
    let a = addrs_of(list);
    let b = addrs_of(r);
    let at = if i < list.len() {
        i
    } else {
        list.len() as int
    };
    assert(r[at].addr == addr && r[at].last_seen == now);
    assert forall|x: int, y: int| 0 <= x < b.len() && 0 <= y < b.len() && x != y implies b[x]
        != b[y] by {
        if x < a.len() && y < a.len() {
            assert(a[x] == b[x] && a[y] == b[y]);
        } else if x < a.len() {
            assert(!at_addr(addr)(list[x]));
        } else {
            assert(!at_addr(addr)(list[y]));
        }
    }
    assert(recent(ttl, now)(r[at]));
    r.lemma_filter_contains(recent(ttl, now), at);
    let k = r.filter(recent(ttl, now));
    let j = choose|j: int| 0 <= j < k.len() && k[j] == r[at];
    assert(addrs_of(k)[j] == addr);
}

/// The message of another node is taken to tell of a peer at the address that it came from, and at the
/// port that it names. That peer is among those of the infohash from then on; those that were heard of
/// less than the time to live ago stay as they were, older ones go, and nothing else changes.
pub proof fn law_heard_message_tells_of_its_sender(
    before: LpdDiscoverer,
    after: LpdDiscoverer,
    infohash: Infohash,
    port: u16,
    cookie: Seq<char>,
    from: SocketAddr,
    now: u64,
    r: Option<(Infohash, SocketAddr)>,
)
    requires
        is_plain(cookie),
        cookie != before.config.cookie@,
        before.config.peer_ttl_secs > 0,
        took_message(
            before,
            after,
            encode_utf8(message_text(infohash@, port, cookie)),
            from,
            now,
            r,
        ),
    ensures
        ({
            let addr = SocketAddr { ip: from.ip, port };
            let old_list = peers_for(before.discovered_peers@, infohash@);
            let list = peers_for(after.discovered_peers@, infohash@);
            &&& r matches Some((ih, a)) && ih@ == infohash@ && a == addr
            &&& exists|k: int|
                0 <= k < list.len() && (#[trigger] list[k]).addr == addr && list[k].last_seen == now
            &&& forall|i: int|
                0 <= i < old_list.len() && (#[trigger] old_list[i]).addr != addr && now
                    < old_list[i].last_seen + before.config.peer_ttl_secs * 1_000_000_000
                    ==> list.contains(old_list[i])
            &&& forall|k: int|
                0 <= k < list.len() ==> (#[trigger] list[k]).addr == addr || old_list.contains(
                    list[k],
                ) && now < list[k].last_seen + before.config.peer_ttl_secs * 1_000_000_000
            &&& forall|other: Seq<u8>|
                other != infohash@ ==> #[trigger] peers_for(after.discovered_peers@, other)
                    == peers_for(before.discovered_peers@, other)
            &&& after.last_broadcast == before.last_broadcast
        }),
{
    law_message_is_read(infohash@, port, cookie, before.config.cookie@);
    let addr = SocketAddr { ip: from.ip, port };
    let old_list = peers_for(before.discovered_peers@, infohash@);
    let mid = heard(old_list, addr, now);
    let p = recent(before.config.peer_ttl_secs, now);
    let list = peers_for(after.discovered_peers@, infohash@);
    assert(list == mid.filter(p));
    let at = first_where(old_list, at_addr(addr));
    lemma_first_where(old_list, at_addr(addr));
    assert(mid[if at < old_list.len() { at } else { old_list.len() as int }].addr == addr);
    let w = if at < old_list.len() {
        at
    } else {
        old_list.len() as int
    };
    mid.lemma_filter_contains(p, w);
    let k = choose|k: int| 0 <= k < list.len() && list[k] == mid[w];
    assert(list[k].addr == addr && list[k].last_seen == now);
    assert forall|i: int|
        0 <= i < old_list.len() && (#[trigger] old_list[i]).addr != addr && now
            < old_list[i].last_seen + before.config.peer_ttl_secs
            * 1_000_000_000 implies list.contains(old_list[i]) by {
        assert(mid[i] == old_list[i]);
        mid.lemma_filter_contains(p, i);
    }
    assert forall|k: int| 0 <= k < list.len() implies (#[trigger] list[k]).addr == addr
        || old_list.contains(list[k]) && now < list[k].last_seen + before.config.peer_ttl_secs
        * 1_000_000_000 by {
        mid.lemma_filter_pred(p, k);
        mid.lemma_filter_contains_rev(p, list[k]);
        let j = choose|j: int| 0 <= j < mid.len() && mid[j] == list[k];
        if list[k].addr != addr {
            assert(j != w);
            assert(old_list[j] == list[k]);
        }
    }
}

/// A message of this node itself, or one that is none of the protocol, changes nothing.
pub proof fn law_own_message_is_ignored(
    before: LpdDiscoverer,
    after: LpdDiscoverer,
    infohash: Infohash,
    port: u16,
    from: SocketAddr,
    now: u64,
    r: Option<(Infohash, SocketAddr)>,
)
    requires
        is_plain(before.config.cookie@),
        took_message(
            before,
            after,
            encode_utf8(message_text(infohash@, port, before.config.cookie@)),
            from,
            now,
            r,
        ),
    ensures
        r is None,
        after.discovered_peers == before.discovered_peers,
{
    law_message_is_read(infohash@, port, before.config.cookie@, before.config.cookie@);
}

/// A question about an infohash is sent at once the first time, and again when as many seconds have gone
/// by as the settings ask for; it is read by every other node as a message about that infohash from a node
/// that listens on the configured port.
pub proof fn law_questions_are_spaced_and_read(
    before: LpdDiscoverer,
    after: LpdDiscoverer,
    infohash: Infohash,
    now: u64,
    r: Option<Vec<u8>>,
    other_cookie: Seq<char>,
)
    requires
        asked_about(before, after, infohash@, now, r),
        is_plain(before.config.cookie@),
        other_cookie != before.config.cookie@,
    ensures
        !before.last_broadcast@.contains_key(infohash@) ==> r is Some,
        before.last_broadcast@.contains_key(infohash@) ==> (r is Some <==> now
            >= before.last_broadcast@[infohash@] + before.config.min_broadcast_interval_secs
            * 1_000_000_000),
        r matches Some(m) ==> message_in(m@, other_cookie) == Some(
            (infohash@, Some(before.config.listen_port as nat)),
        ),
        r is Some ==> after.last_broadcast@.contains_key(infohash@) && after.last_broadcast@[infohash@]
            == now,
        forall|k: Seq<u8>|
            k != infohash@ ==> (#[trigger] after.last_broadcast@.contains_key(k)
                <==> before.last_broadcast@.contains_key(k)) && (before.last_broadcast@.contains_key(k)
                ==> after.last_broadcast@[k] == before.last_broadcast@[k]),
        after.discovered_peers == before.discovered_peers,
{
    law_message_is_read(
        infohash@,
        before.config.listen_port,
        before.config.cookie@,
        other_cookie,
    );
}

/// A message is a request line, the address of the group, the port, the infohash in hexadecimal and the
/// cookie, each on its line, and an empty line.
pub proof fn law_layout_of_a_message(infohash: Seq<u8>, port: u16, cookie: Seq<char>)
    ensures
        message_text(infohash, port, cookie)
            == "BT-SEARCH * HTTP/1.1\r\nHost: 239.192.152.143:6771\r\nPort: "@ + decimal_text(
            port as nat,
        ) + "\r\nInfohash: "@ + hex_text(infohash) + "\r\ncookie: "@ + cookie + "\r\n\r\n"@,
{
    reveal_strlit("BT-SEARCH * HTTP/1.1\r\nHost: 239.192.152.143:6771\r\nPort: ");
    reveal_strlit("BT-SEARCH * HTTP/1.1");
    reveal_strlit("\r\n");
    reveal_strlit("\r\n\r\n");
    reveal_strlit("\r\nInfohash: ");
    reveal_strlit("\r\ncookie: ");
    reveal_strlit("Host");
    reveal_strlit("Port");
    reveal_strlit("Infohash");
    reveal_strlit("cookie");
    reveal_strlit(": ");
    reveal_strlit(":");
    reveal_strlit("239.192.152.143");
    reveal_with_fuel(decimal_text, 5);
    let number = decimal_text(port as nat);
    let hex = hex_text(infohash);
    let host = "239.192.152.143"@ + ":"@ + decimal_text(6771);
    assert(decimal_text(6771) =~= seq!['6', '7', '7', '1']);
    let start = "BT-SEARCH * HTTP/1.1"@ + "\r\n"@ + header("Host"@, host) + "Port"@ + ": "@;
    assert(start =~= "BT-SEARCH * HTTP/1.1\r\nHost: 239.192.152.143:6771\r\nPort: "@);
    assert("\r\n"@ + "Infohash"@ + ": "@ =~= "\r\nInfohash: "@);
    assert("\r\n"@ + "cookie"@ + ": "@ =~= "\r\ncookie: "@);
    assert("\r\n"@ + "\r\n"@ =~= "\r\n\r\n"@);
    let text = message_text(infohash, port, cookie);
    assert(text =~= start + number + ("\r\n"@ + "Infohash"@ + ": "@) + hex + ("\r\n"@ + "cookie"@
        + ": "@) + cookie + ("\r\n"@ + "\r\n"@));
}

/// Each of the three fields is read from the line with its name and leaves the other two alone; other
/// lines say nothing.
pub proof fn law_fields_of_a_message(
    f: Fields,
    infohash: Seq<u8>,
    port: u16,
    value: Seq<char>,
    cookie: Seq<char>,
)
    requires
        infohash.len() == 20,
    ensures
        with_field(f, "Infohash"@, hex_text(infohash), cookie) == (Fields {
            infohash: Some(infohash),
            ..f
        }),
        with_field(f, "Port"@, decimal_text(port as nat), cookie) == (Fields {
            port: Some(port as nat),
            ..f
        }),
        with_field(f, "cookie"@, value, cookie) == (Fields { own: value == cookie, ..f }),
        with_field(f, "Host"@, value, cookie) == f,
{
    lemma_hex_plain(infohash);
    law_hex_round_trip(infohash);
    lemma_decimal_text(port as nat);
    law_decimal_round_trip(port as nat);
    lemma_port_name();
    lemma_infohash_name();
    lemma_cookie_name();
    lemma_host_name();
    assert(number_in(encode_utf8(decimal_text(port as nat)), 0xFFFF) == Some(port as nat));
}

/// What does not begin as a message does, or is no text, tells of nobody.
pub proof fn law_other_data_tells_of_nobody(
    before: LpdDiscoverer,
    after: LpdDiscoverer,
    data: Seq<u8>,
    from: SocketAddr,
    now: u64,
    r: Option<(Infohash, SocketAddr)>,
)
    requires
        took_message(before, after, data, from, now, r),
        !valid_utf8(data) || decode_utf8(data).len() < 9 || decode_utf8(data).take(9)
            != "BT-SEARCH"@,
    ensures
        r is None,
        after.discovered_peers == before.discovered_peers,
{
    reveal_strlit("BT-SEARCH");
    let text = decode_utf8(data);
    if occurs_at(text, "BT-SEARCH"@, 0) {
        assert(text.take(9) =~= text.subrange(0, 9));
    }
}

/// A message without a port tells of a peer at the port that it came from.
pub proof fn law_port_of_the_sender(
    before: LpdDiscoverer,
    after: LpdDiscoverer,
    data: Seq<u8>,
    from: SocketAddr,
    now: u64,
    r: Option<(Infohash, SocketAddr)>,
    infohash: Seq<u8>,
)
    requires
        took_message(before, after, data, from, now, r),
        message_in(data, before.config.cookie@) == Some((infohash, None::<nat>)),
    ensures
        r matches Some((ih, addr)) && ih@ == infohash && addr == from,
{
}

/// A peer that is heard of again was first seen when it was first heard of, and the others are as they
/// were.
pub proof fn law_heard_again(list: Seq<LpdPeer>, addr: SocketAddr, now: u64, i: int)
    requires
        0 <= i < list.len(),
        addrs_of(list).no_duplicates(),
    ensures
        heard(list, addr, now)[i].addr == list[i].addr,
        heard(list, addr, now)[i].first_seen == list[i].first_seen,
        list[i].addr == addr ==> heard(list, addr, now)[i].last_seen == now && heard(
            list,
            addr,
            now,
        ).len() == list.len(),
        list[i].addr != addr ==> heard(list, addr, now)[i] == list[i],
        (forall|j: int| 0 <= j < list.len() ==> (#[trigger] list[j]).addr != addr) ==> heard(
            list,
            addr,
            now,
        ) == list.push(LpdPeer { addr, first_seen: now, last_seen: now }),
{
    let k = first_where(list, at_addr(addr));
    lemma_first_where(list, at_addr(addr));
    if k < list.len() {
        assert(at_addr(addr)(list[k]));
        assert(addrs_of(list)[k] == addr);
        if list[i].addr == addr {
            assert(addrs_of(list)[i] == addr);
            assert(i == k);
        }
    } else {
        assert(!at_addr(addr)(list[i]));
    }
}

} // verus!
