//! The Kademlia routing table (BEP 5) and the node identifier rule of BEP 42.
//!
//! A table is a list of buckets of at most [`K`] nodes. Bucket `i` holds the nodes that share just
//! `i` leading bits with the table's own identifier, the last one those that share at least as many
//! bits as there are buckets before it. Only the last bucket, the one that the own identifier would
//! be in, is split when it is full: the nodes that share one more bit move to a new bucket. The
//! others stay whole.
//!
//! BEP 42: the first 21 bits of the identifier of a node with an IPv4 address are the first 21
//! bits of the CRC-32 of the masked address.

use crate::bytes::{be_bytes, be_value, same_array};
use crate::clock::{
    elapsed_secs_u32, instant_after, instant_now, instant_plus_secs, secs_between, secs_since,
};
use crate::discoverers::dht::distance::{
    bit_at, closest, closest_of, common_prefix, common_prefix_len, lemma_common_prefix_of_self,
    law_closest, Identified,
};
use crate::net::{IpAddr, SocketAddr};
use crate::random::random_id;
use crate::seqs::{first_where, lemma_filter_step, lemma_first_where, lemma_first_where_at};
use crate::sort::{is_ranked, lemma_stable_sort_exists, stable_sort, stable_sorted, HasRank, Ranked};
use std::time::Instant;
use vstd::prelude::*;

verus! {

/// How many nodes a bucket holds.
pub const K: usize = 20;

/// How deep the buckets can be split: the bits of an identifier.
pub const MAX_BUCKETS: usize = 160;

/// Seconds without contact after which a node has expired.
pub const NODE_TTL_SECS: u32 = 3600;

/// Consecutive failures from which on a node is unhealthy.
pub const MAX_FAILURES: u8 = 3;

/// Seconds without contact after which a node is due for a refresh.
pub const REFRESH_SECS: u32 = 300;

/// The compact form of a socket address.
pub open spec fn compact_of(addr: SocketAddr) -> CompactAddr {
    let high = (addr.port / 256) as u8;
    let low = (addr.port % 256) as u8;
    match addr.ip {
        IpAddr::V4(ip) => CompactAddr::V4([ip[0], ip[1], ip[2], ip[3], high, low]),
        IpAddr::V6(ip) => CompactAddr::V6(
            [
                ip[0],
                ip[1],
                ip[2],
                ip[3],
                ip[4],
                ip[5],
                ip[6],
                ip[7],
                ip[8],
                ip[9],
                ip[10],
                ip[11],
                ip[12],
                ip[13],
                ip[14],
                ip[15],
                high,
                low,
            ],
        ),
    }
}

/// A socket address in its compact wire form: the IP address, then the port, big-endian.
#[derive(Debug, Clone, Copy, PartialEq, Eq, Hash)]
pub enum CompactAddr {
    V4([u8; 6]),
    V6([u8; 18]),
}

impl CompactAddr {
    /// The bytes of the compact form.
    pub open spec fn wire(&self) -> Seq<u8> {
        match self {
            CompactAddr::V4(buf) => buf@,
            CompactAddr::V6(buf) => buf@,
        }
    }

    /// The length of the IP part of the compact form.
    pub open spec fn ip_len(&self) -> nat {
        match self {
            CompactAddr::V4(_) => 4,
            CompactAddr::V6(_) => 16,
        }
    }

    /// The socket address that the compact form stands for.
    pub open spec fn socket(&self) -> SocketAddr {
        SocketAddr { ip: self.ip_part(), port: self.port_part() }
    }

    /// The IP address in the compact form.
    pub open spec fn ip_part(&self) -> IpAddr {
        match self {
            CompactAddr::V4(b) => IpAddr::V4([b[0], b[1], b[2], b[3]]),
            CompactAddr::V6(b) => IpAddr::V6(
                [
                    b[0],
                    b[1],
                    b[2],
                    b[3],
                    b[4],
                    b[5],
                    b[6],
                    b[7],
                    b[8],
                    b[9],
                    b[10],
                    b[11],
                    b[12],
                    b[13],
                    b[14],
                    b[15],
                ],
            ),
        }
    }

    /// The port in the compact form.
    pub open spec fn port_part(&self) -> u16 {
        be_value(self.wire().skip(self.ip_len() as int)) as u16
    }

    /// The compact form of a socket address.
    pub fn from_socket(addr: &SocketAddr) -> (r: CompactAddr)
        ensures
            r == compact_of(*addr),
            r.socket() == addr,
            r is V4 <==> addr.ip is V4,
    {
        proof {
            lemma_compact_of(*addr);
        }
        let high: u8 = (addr.port / 256) as u8;
        let low: u8 = (addr.port % 256) as u8;
        match addr.ip {
            IpAddr::V4(ip) => {
                let r: CompactAddr = CompactAddr::V4([ip[0], ip[1], ip[2], ip[3], high, low]);
                assert(r->V4_0 =~= compact_of(*addr)->V4_0);
                r
            },
            IpAddr::V6(ip) => {
                let r: CompactAddr = CompactAddr::V6(
                    [
                        ip[0],
                        ip[1],
                        ip[2],
                        ip[3],
                        ip[4],
                        ip[5],
                        ip[6],
                        ip[7],
                        ip[8],
                        ip[9],
                        ip[10],
                        ip[11],
                        ip[12],
                        ip[13],
                        ip[14],
                        ip[15],
                        high,
                        low,
                    ],
                );
                assert(r->V6_0 =~= compact_of(*addr)->V6_0);
                r
            },
        }
    }

    /// The socket address that the compact form stands for.
    pub fn to_socket(&self) -> (r: SocketAddr)
        ensures
            r == self.socket(),
    {
        SocketAddr { ip: self.ip(), port: self.port() }
    }

    /// The IP address.
    pub fn ip(&self) -> (r: IpAddr)
        ensures
            r == self.ip_part(),
    {
        match self {
            CompactAddr::V4(b) => {
                let ip: [u8; 4] = [b[0], b[1], b[2], b[3]];
                assert(ip =~= self.ip_part()->V4_0);
                IpAddr::V4(ip)
            },
            CompactAddr::V6(b) => {
                let ip: [u8; 16] = [
                    b[0],
                    b[1],
                    b[2],
                    b[3],
                    b[4],
                    b[5],
                    b[6],
                    b[7],
                    b[8],
                    b[9],
                    b[10],
                    b[11],
                    b[12],
                    b[13],
                    b[14],
                    b[15],
                ];
                assert(ip =~= self.ip_part()->V6_0);
                IpAddr::V6(ip)
            },
        }
    }

    /// The port.
    pub fn port(&self) -> (r: u16)
        ensures
            r == self.port_part(),
    {
        let (high, low): (u8, u8) = match self {
            CompactAddr::V4(b) => (b[4], b[5]),
            CompactAddr::V6(b) => (b[16], b[17]),
        };
        proof {
            lemma_port_value(self.wire().skip(self.ip_len() as int), high, low);
        }
        high as u16 * 256 + low as u16
    }

    /// Whether the address is of version 4.
    pub fn is_ipv4(&self) -> (r: bool)
        ensures
            r == (self is V4),
    {
        matches!(self, CompactAddr::V4(_))
    }

    /// Whether two addresses are the same.
    pub fn same(&self, other: &CompactAddr) -> (r: bool)
        ensures
            r == (self == other),
    {
        match (self, other) {
            (CompactAddr::V4(a), CompactAddr::V4(b)) => same_array(a, b),
            (CompactAddr::V6(a), CompactAddr::V6(b)) => same_array(a, b),
            _ => false,
        }
    }
}

proof fn lemma_port_value(s: Seq<u8>, high: u8, low: u8)
    requires
        s.len() == 2,
        s[0] == high,
        s[1] == low,
    ensures
        be_value(s) == high * 256 + low,
        be_value(s) <= 65535,
{
    reveal_with_fuel(be_value, 3);
    assert(s.drop_last().drop_last() =~= Seq::<u8>::empty());
}

/// The compact form of a socket address stands for it.
pub proof fn lemma_compact_of(addr: SocketAddr)
    ensures
        compact_of(addr).socket() == addr,
        compact_of(addr) is V4 <==> addr.ip is V4,
{
    let c = compact_of(addr);
    let high = (addr.port / 256) as u8;
    let low = (addr.port % 256) as u8;
    match addr.ip {
        IpAddr::V4(ip) => {
            assert(c.ip_part()->V4_0 =~= ip);
            lemma_port_value(c.wire().skip(4), high, low);
        },
        IpAddr::V6(ip) => {
            assert(c.ip_part()->V6_0 =~= ip);
            lemma_port_value(c.wire().skip(16), high, low);
        },
    }
}

/// Two compact forms that stand for one socket address are equal.
pub proof fn law_compact_addr_injective(a: CompactAddr, b: CompactAddr)
    requires
        a.socket() == b.socket(),
    ensures
        a == b,
{
    match (a, b) {
        (CompactAddr::V4(x), CompactAddr::V4(y)) => {
            lemma_port_value(a.wire().skip(4), x[4], x[5]);
            lemma_port_value(b.wire().skip(4), y[4], y[5]);
            assert(a.ip_part()->V4_0@ =~= b.ip_part()->V4_0@);
            assert forall|i: int| 0 <= i < 6 implies x[i] == y[i] by {
                if i < 4 {
                    assert(x[i] == a.ip_part()->V4_0[i]);
                    assert(y[i] == b.ip_part()->V4_0[i]);
                }
            }
            assert(x =~= y);
        },
        (CompactAddr::V6(x), CompactAddr::V6(y)) => {
            lemma_port_value(a.wire().skip(16), x[16], x[17]);
            lemma_port_value(b.wire().skip(16), y[16], y[17]);
            assert forall|i: int| 0 <= i < 18 implies x[i] == y[i] by {
                if i < 16 {
                    assert(x[i] == a.ip_part()->V6_0[i]);
                    assert(y[i] == b.ip_part()->V6_0[i]);
                }
            }
            assert(x =~= y);
        },
        _ => {},
    }
}

/// A node in the routing table.
#[derive(Debug, Clone, Copy)]
pub struct RoutingEntry {
    /// The node's identifier.
    pub id: [u8; 20],
    /// The node's address.
    pub addr: CompactAddr,
    /// When the node was last seen, in seconds since the table was made.
    pub last_seen: u32,
    /// Consecutive failures.
    pub failures: u8,
}

/// How much later `now` is than `then`, zero if it is not later.
pub open spec fn age(now: u32, then: u32) -> int {
    if now > then {
        now - then
    } else {
        0
    }
}

impl RoutingEntry {
    /// Whether the node has failed fewer than [`MAX_FAILURES`] times in a row.
    pub open spec fn healthy(&self) -> bool {
        self.failures < MAX_FAILURES
    }

    /// Whether the node has not been seen for more than [`NODE_TTL_SECS`].
    pub open spec fn expired(&self, now: u32) -> bool {
        age(now, self.last_seen) > NODE_TTL_SECS
    }

    /// Whether the node has failed fewer than [`MAX_FAILURES`] times in a row.
    pub fn is_healthy(&self) -> (r: bool)
        ensures
            r == self.healthy(),
    {
        self.failures < MAX_FAILURES
    }

    /// Whether the node has not been seen for more than [`NODE_TTL_SECS`].
    pub fn is_expired(&self, now: u32) -> (r: bool)
        ensures
            r == self.expired(now),
    {
        now.saturating_sub(self.last_seen) > NODE_TTL_SECS
    }
}

impl HasRank for RoutingEntry {
    open spec fn rank(&self) -> int {
        self.last_seen as int
    }
}

impl Ranked for RoutingEntry {
    fn rank_le(&self, other: &Self) -> (r: bool) {
        self.last_seen <= other.last_seen
    }
}

impl Identified for RoutingEntry {
    open spec fn ident(&self) -> [u8; 20] {
        self.id
    }

    fn get_ident(&self) -> (r: [u8; 20]) {
        self.id
    }
}

/// One step of the CRC-32 shift register.
pub open spec fn crc_bit(c: u32) -> u32 {
    if c & 1 != 0 {
        (c >> 1) ^ 0xedb8_8320
    } else {
        c >> 1
    }
}

/// `n` steps of the CRC-32 shift register.
pub open spec fn crc_steps(c: u32, n: nat) -> u32
    decreases n,
{
    if n == 0 {
        c
    } else {
        crc_bit(crc_steps(c, (n - 1) as nat))
    }
}

/// The shift register after the bytes of `data`.
pub open spec fn crc_register(data: Seq<u8>) -> u32
    decreases data.len(),
{
    if data.len() == 0 {
        0xffff_ffff
    } else {
        crc_steps(crc_register(data.drop_last()) ^ (data.last() as u32), 8)
    }
}

/// The CRC-32 checksum of IEEE 802.3.
pub open spec fn crc32_of(data: Seq<u8>) -> u32 {
    !crc_register(data)
}

/// The CRC-32 checksum of IEEE 802.3.
pub fn crc32(data: &[u8]) -> (r: u32)
    ensures
        r == crc32_of(data@),
{
    let mut crc: u32 = 0xffff_ffff;
    let mut i: usize = 0;
    while i < data.len()
        invariant
            i <= data.len(),
            crc == crc_register(data@.take(i as int)),
        decreases data.len() - i,
    {
        let ghost before = crc;
        crc = crc ^ data[i] as u32;
        let ghost mixed = crc;
        let mut n: u32 = 0;
        while n < 8
            invariant
                n <= 8,
                crc == crc_steps(mixed, n as nat),
            decreases 8 - n,
        {
            if crc & 1 != 0 {
                crc = (crc >> 1) ^ 0xedb8_8320;
            } else {
                crc = crc >> 1;
            }
            n += 1;
        }
        proof {
            let next = data@.take(i + 1);
            assert(next.drop_last() =~= data@.take(i as int));
            assert(crc == crc_register(next));
        }
        i += 1;
    }
    assert(data@.take(i as int) =~= data@);
    !crc
}

/// The bits of an IPv4 address that BEP 42 lets determine an identifier.
pub open spec fn masked_ip(ip: [u8; 4]) -> Seq<u8> {
    seq![ip[0] & 0x03, ip[1] & 0x0f, ip[2] & 0x3f, ip[3]]
}

/// The checksum whose first 21 bits an identifier has to start with.
pub open spec fn id_checksum(ip: [u8; 4]) -> Seq<u8> {
    be_bytes(crc32_of(masked_ip(ip)) as nat, 4)
}

/// Whether an identifier obeys BEP 42 for an IPv4 address: the first 21 bits are those of the
/// checksum of the masked address.
pub open spec fn id_matches_v4(id: [u8; 20], ip: [u8; 4]) -> bool {
    forall|j: int| 0 <= j < 21 ==> bit_at(id@, j) == #[trigger] bit_at(id_checksum(ip), j)
}

/// Whether an identifier obeys BEP 42 for an address. Version 6 addresses are not restricted.
pub open spec fn id_matches(id: [u8; 20], ip: IpAddr) -> bool {
    match ip {
        IpAddr::V4(v4) => id_matches_v4(id, v4),
        IpAddr::V6(_) => true,
    }
}

proof fn lemma_byte_bits(x: u8, y: u8)
    ensures
        x == y <==> forall|j: int|
            0 <= j < 8 ==> (x >> ((7 - j) as u8)) & 1u8 == #[trigger] (y >> ((7 - j) as u8)) & 1u8,
{
    if forall|j: int|
        0 <= j < 8 ==> (x >> ((7 - j) as u8)) & 1u8 == #[trigger] (y >> ((7 - j) as u8)) & 1u8 {
        assert((x >> ((7 - 0) as u8)) & 1u8 == (y >> ((7 - 0) as u8)) & 1u8);
        assert((x >> ((7 - 1) as u8)) & 1u8 == (y >> ((7 - 1) as u8)) & 1u8);
        assert((x >> ((7 - 2) as u8)) & 1u8 == (y >> ((7 - 2) as u8)) & 1u8);
        assert((x >> ((7 - 3) as u8)) & 1u8 == (y >> ((7 - 3) as u8)) & 1u8);
        assert((x >> ((7 - 4) as u8)) & 1u8 == (y >> ((7 - 4) as u8)) & 1u8);
        assert((x >> ((7 - 5) as u8)) & 1u8 == (y >> ((7 - 5) as u8)) & 1u8);
        assert((x >> ((7 - 6) as u8)) & 1u8 == (y >> ((7 - 6) as u8)) & 1u8);
        assert((x >> ((7 - 7) as u8)) & 1u8 == (y >> ((7 - 7) as u8)) & 1u8);
        assert(x == y) by (bit_vector)
            requires
                (x >> 7u8) & 1u8 == (y >> 7u8) & 1u8,
                (x >> 6u8) & 1u8 == (y >> 6u8) & 1u8,
                (x >> 5u8) & 1u8 == (y >> 5u8) & 1u8,
                (x >> 4u8) & 1u8 == (y >> 4u8) & 1u8,
                (x >> 3u8) & 1u8 == (y >> 3u8) & 1u8,
                (x >> 2u8) & 1u8 == (y >> 2u8) & 1u8,
                (x >> 1u8) & 1u8 == (y >> 1u8) & 1u8,
                (x >> 0u8) & 1u8 == (y >> 0u8) & 1u8,
        ;
    }
}

/// The 21 leading bits agree exactly if two bytes and the top five bits of the third do.
proof fn lemma_leading_21(a: Seq<u8>, b: Seq<u8>)
    requires
        a.len() >= 3,
        b.len() >= 3,
    ensures
        (forall|j: int| 0 <= j < 21 ==> bit_at(a, j) == #[trigger] bit_at(b, j)) <==> (a[0] == b[0]
            && a[1] == b[1] && a[2] & 0xf8 == b[2] & 0xf8),
{
    let x0 = a[0];
    let y0 = b[0];
    let x1 = a[1];
    let y1 = b[1];
    let x2 = a[2];
    let y2 = b[2];
    if forall|j: int| 0 <= j < 21 ==> bit_at(a, j) == #[trigger] bit_at(b, j) {
        assert forall|j: int| 0 <= j < 8 implies (x0 >> ((7 - j) as u8)) & 1u8 == #[trigger] (y0
            >> ((7 - j) as u8)) & 1u8 by {
            assert(bit_at(a, j) == bit_at(b, j));
            lemma_bit_is_0_or_1(x0, (7 - j) as u8);
            lemma_bit_is_0_or_1(y0, (7 - j) as u8);
        }
        lemma_byte_bits(x0, y0);
        assert forall|j: int| 0 <= j < 8 implies (x1 >> ((7 - j) as u8)) & 1u8 == #[trigger] (y1
            >> ((7 - j) as u8)) & 1u8 by {
            assert(bit_at(a, 8 + j) == bit_at(b, 8 + j));
            lemma_bit_is_0_or_1(x1, (7 - j) as u8);
            lemma_bit_is_0_or_1(y1, (7 - j) as u8);
        }
        lemma_byte_bits(x1, y1);
        assert(bit_at(a, 16) == bit_at(b, 16));
        assert(bit_at(a, 17) == bit_at(b, 17));
        assert(bit_at(a, 18) == bit_at(b, 18));
        assert(bit_at(a, 19) == bit_at(b, 19));
        assert(bit_at(a, 20) == bit_at(b, 20));
        assert(x2 & 0xf8 == y2 & 0xf8) by (bit_vector)
            requires
                (x2 >> 7u8) & 1u8 == 1u8 <==> (y2 >> 7u8) & 1u8 == 1u8,
                (x2 >> 6u8) & 1u8 == 1u8 <==> (y2 >> 6u8) & 1u8 == 1u8,
                (x2 >> 5u8) & 1u8 == 1u8 <==> (y2 >> 5u8) & 1u8 == 1u8,
                (x2 >> 4u8) & 1u8 == 1u8 <==> (y2 >> 4u8) & 1u8 == 1u8,
                (x2 >> 3u8) & 1u8 == 1u8 <==> (y2 >> 3u8) & 1u8 == 1u8,
        ;
    }
    if a[0] == b[0] && a[1] == b[1] && a[2] & 0xf8 == b[2] & 0xf8 {
        assert forall|j: int| 0 <= j < 21 implies bit_at(a, j) == #[trigger] bit_at(b, j) by {
            if j >= 16 {
                let s = (7 - j % 8) as u8;
                assert((x2 >> s) & 1u8 == (y2 >> s) & 1u8) by (bit_vector)
                    requires
                        x2 & 0xf8 == y2 & 0xf8,
                        3 <= s < 8,
                ;
            }
        }
    }
}

proof fn lemma_bit_is_0_or_1(x: u8, s: u8)
    ensures
        (x >> s) & 1u8 == 0u8 || (x >> s) & 1u8 == 1u8,
{
    assert((x >> s) & 1u8 == 0u8 || (x >> s) & 1u8 == 1u8) by (bit_vector);
}

fn checksum_bytes(ip: &[u8; 4]) -> (r: Vec<u8>)
    ensures
        r@ == id_checksum(*ip),
        r@.len() == 4,
{
    let masked: [u8; 4] = [ip[0] & 0x03, ip[1] & 0x0f, ip[2] & 0x3f, ip[3]];
    assert(masked@ =~= masked_ip(*ip));
    let mut out: Vec<u8> = Vec::new();
    crate::bytes::put_be(&mut out, crc32(&masked) as u64, 4);
    proof {
        crate::bytes::lemma_be_bytes_len(crc32_of(masked_ip(*ip)) as nat, 4);
        assert(out@ =~= id_checksum(*ip));
    }
    out
}

/// The identifier that BEP 42 makes of an IPv4 address and random bytes: the first 21 bits come
/// from the address, the others from `random`.
pub fn node_id_from_random(ip: &[u8; 4], random: [u8; 20]) -> (r: [u8; 20])
    ensures
        id_matches_v4(r, *ip),
        forall|j: int| 21 <= j < 160 ==> #[trigger] bit_at(r@, j) == bit_at(random@, j),
{
    let want: Vec<u8> = checksum_bytes(ip);
    let mut id: [u8; 20] = random;
    let third: u8 = (random[2] & 0x07) | (want[2] & 0xf8);
    id[0] = want[0];
    id[1] = want[1];
    id[2] = third;
    proof {
        let x = random[2];
        let y = want[2];
        assert(third & 0xf8 == y & 0xf8) by (bit_vector)
            requires
                third == (x & 0x07) | (y & 0xf8),
        ;
        lemma_leading_21(id@, id_checksum(*ip));
        assert forall|j: int| 21 <= j < 160 implies #[trigger] bit_at(id@, j) == bit_at(
            random@,
            j,
        ) by {
            if j < 24 {
                let s = (7 - j % 8) as u8;
                assert((third >> s) & 1u8 == (x >> s) & 1u8) by (bit_vector)
                    requires
                        third == (x & 0x07) | (y & 0xf8),
                        s < 3,
                ;
            }
        }
    }
    id
}

/// A random identifier that obeys BEP 42 for an IPv4 address.
pub fn generate_node_id_v4(ip: [u8; 4]) -> (r: [u8; 20])
    ensures
        id_matches_v4(r, ip),
{
    node_id_from_random(&ip, random_id())
}

/// Whether an identifier obeys BEP 42 for an IPv4 address.
pub fn verify_node_id_v4(id: &[u8; 20], ip: [u8; 4]) -> (r: bool)
    ensures
        r == id_matches_v4(*id, ip),
{
    let want: Vec<u8> = checksum_bytes(&ip);
    proof {
        lemma_leading_21(id@, id_checksum(ip));
    }
    id[0] == want[0] && id[1] == want[1] && (id[2] & 0xf8) == (want[2] & 0xf8)
}

/// A random identifier that obeys BEP 42 for an address.
pub fn generate_node_id(ip: IpAddr) -> (r: [u8; 20])
    ensures
        id_matches(r, ip),
{
    match ip {
        IpAddr::V4(v4) => generate_node_id_v4(v4),
        IpAddr::V6(_) => random_id(),
    }
}

/// Whether an identifier obeys BEP 42 for an address.
pub fn verify_node_id(id: &[u8; 20], addr: &CompactAddr) -> (r: bool)
    ensures
        r == id_matches(*id, addr.ip_part()),
{
    match addr.ip() {
        IpAddr::V4(v4) => verify_node_id_v4(id, v4),
        IpAddr::V6(_) => true,
    }
}

/// The first 21 bits decide: beside an identifier that obeys BEP 42 for an address, those that share
/// them obey it for the address, and no others.
pub proof fn law_leading_bits_decide(id: [u8; 20], other: [u8; 20], ip: [u8; 4])
    requires
        id_matches_v4(id, ip),
    ensures
        id_matches_v4(other, ip) <==> forall|j: int|
            0 <= j < 21 ==> bit_at(other@, j) == #[trigger] bit_at(id@, j),
{
    if id_matches_v4(other, ip) {
        assert forall|j: int| 0 <= j < 21 implies bit_at(other@, j) == #[trigger] bit_at(
            id@,
            j,
        ) by {
            assert(bit_at(id@, j) == bit_at(id_checksum(ip), j));
        }
    }
    if forall|j: int| 0 <= j < 21 ==> bit_at(other@, j) == #[trigger] bit_at(id@, j) {
        assert forall|j: int| 0 <= j < 21 implies bit_at(other@, j) == #[trigger] bit_at(
            id_checksum(ip),
            j,
        ) by {
            assert(bit_at(other@, j) == bit_at(id@, j));
        }
    }
}

/// An identifier that obeys BEP 42 for an address obeys it for another one exactly if the checksums
/// of the two share their first 21 bits.
pub proof fn law_identifier_is_bound_to_its_address(id: [u8; 20], ip: [u8; 4], other: [u8; 4])
    requires
        id_matches_v4(id, ip),
    ensures
        id_matches_v4(id, other) <==> forall|j: int|
            0 <= j < 21 ==> bit_at(id_checksum(ip), j) == #[trigger] bit_at(id_checksum(other), j),
{
    if id_matches_v4(id, other) {
        assert forall|j: int| 0 <= j < 21 implies bit_at(id_checksum(ip), j) == #[trigger] bit_at(
            id_checksum(other),
            j,
        ) by {
            assert(bit_at(id@, j) == bit_at(id_checksum(ip), j));
        }
    }
    if forall|j: int|
        0 <= j < 21 ==> bit_at(id_checksum(ip), j) == #[trigger] bit_at(id_checksum(other), j) {
        assert forall|j: int| 0 <= j < 21 implies bit_at(id@, j) == #[trigger] bit_at(
            id_checksum(other),
            j,
        ) by {
            assert(bit_at(id@, j) == bit_at(id_checksum(ip), j));
        }
    }
}

/// The checksum of the masked address 192.168.1.1.
proof fn lemma_checksum_of_one_private_address()
    ensures
        crc32_of(seq![0u8, 8u8, 1u8, 1u8]) == 0x414b_8f73,
{
    let data = seq![0u8, 8u8, 1u8, 1u8];
    reveal_with_fuel(crc_register, 5);
    reveal_with_fuel(crc_steps, 9);
    assert(data.take(3) =~= data.take(4).drop_last());
    assert(data.take(2) =~= data.take(3).drop_last());
    assert(data.take(1) =~= data.take(2).drop_last());
    assert(data.take(0) =~= data.take(1).drop_last());
    assert(data.take(4) =~= data);
    assert(0xffff_ffffu32 ^ 0u32 == 0xffff_ffff
        && crc_bit(0xffff_ffff) == 0x9247_7cdf
        && crc_bit(0x9247_7cdf) == 0xa49b_3d4f
        && crc_bit(0xa49b_3d4f) == 0xbff5_1d87
        && crc_bit(0xbff5_1d87) == 0xb242_0de3
        && crc_bit(0xb242_0de3) == 0xb499_85d1
        && crc_bit(0xb499_85d1) == 0xb7f4_41c8
        && crc_bit(0xb7f4_41c8) == 0x5bfa_20e4
        && crc_bit(0x5bfa_20e4) == 0x2dfd_1072) by (bit_vector);
    assert(0x2dfd_1072u32 ^ 8u32 == 0x2dfd_107a
        && crc_bit(0x2dfd_107a) == 0x16fe_883d
        && crc_bit(0x16fe_883d) == 0xe6c7_c73e
        && crc_bit(0xe6c7_c73e) == 0x7363_e39f
        && crc_bit(0x7363_e39f) == 0xd409_72ef
        && crc_bit(0xd409_72ef) == 0x87bc_3a57
        && crc_bit(0x87bc_3a57) == 0xae66_9e0b
        && crc_bit(0xae66_9e0b) == 0xba8b_cc25
        && crc_bit(0xba8b_cc25) == 0xb0fd_6532) by (bit_vector);
    assert(0xb0fd_6532u32 ^ 1u32 == 0xb0fd_6533
        && crc_bit(0xb0fd_6533) == 0xb5c6_31b9
        && crc_bit(0xb5c6_31b9) == 0xb75b_9bfc
        && crc_bit(0xb75b_9bfc) == 0x5bad_cdfe
        && crc_bit(0x5bad_cdfe) == 0x2dd6_e6ff
        && crc_bit(0x2dd6_e6ff) == 0xfb53_f05f
        && crc_bit(0xfb53_f05f) == 0x9011_7b0f
        && crc_bit(0x9011_7b0f) == 0xa5b0_3ea7
        && crc_bit(0xa5b0_3ea7) == 0xbf60_9c73) by (bit_vector);
    assert(0xbf60_9c73u32 ^ 1u32 == 0xbf60_9c72
        && crc_bit(0xbf60_9c72) == 0x5fb0_4e39
        && crc_bit(0x5fb0_4e39) == 0xc260_a43c
        && crc_bit(0xc260_a43c) == 0x6130_521e
        && crc_bit(0x6130_521e) == 0x3098_290f
        && crc_bit(0x3098_290f) == 0xf5f4_97a7
        && crc_bit(0xf5f4_97a7) == 0x9742_c8f3
        && crc_bit(0x9742_c8f3) == 0xa619_e759
        && crc_bit(0xa619_e759) == 0xbeb4_708c) by (bit_vector);
    assert(!0xbeb4_708cu32 == 0x414b_8f73) by (bit_vector);
}

/// The checksum of the masked address 10.0.0.1.
proof fn lemma_checksum_of_another_private_address()
    ensures
        crc32_of(seq![2u8, 0u8, 0u8, 1u8]) == 0xfc4a_2701,
{
    let data = seq![2u8, 0u8, 0u8, 1u8];
    reveal_with_fuel(crc_register, 5);
    reveal_with_fuel(crc_steps, 9);
    assert(data.take(3) =~= data.take(4).drop_last());
    assert(data.take(2) =~= data.take(3).drop_last());
    assert(data.take(1) =~= data.take(2).drop_last());
    assert(data.take(0) =~= data.take(1).drop_last());
    assert(data.take(4) =~= data);
    assert(0xffff_ffffu32 ^ 2u32 == 0xffff_fffd
        && crc_bit(0xffff_fffd) == 0x9247_7cde
        && crc_bit(0x9247_7cde) == 0x4923_be6f
        && crc_bit(0x4923_be6f) == 0xc929_5c17
        && crc_bit(0xc929_5c17) == 0x892c_2d2b
        && crc_bit(0x892c_2d2b) == 0xa92e_95b5
        && crc_bit(0xa92e_95b5) == 0xb92f_c9fa
        && crc_bit(0xb92f_c9fa) == 0x5c97_e4fd
        && crc_bit(0x5c97_e4fd) == 0xc3f3_715e) by (bit_vector);
    assert(0xc3f3_715eu32 ^ 0u32 == 0xc3f3_715e
        && crc_bit(0xc3f3_715e) == 0x61f9_b8af
        && crc_bit(0x61f9_b8af) == 0xdd44_5f77
        && crc_bit(0xdd44_5f77) == 0x831a_ac9b
        && crc_bit(0x831a_ac9b) == 0xac35_d56d
        && crc_bit(0xac35_d56d) == 0xbba2_6996
        && crc_bit(0xbba2_6996) == 0x5dd1_34cb
        && crc_bit(0x5dd1_34cb) == 0xc350_1945
        && crc_bit(0xc350_1945) == 0x8c10_8f82) by (bit_vector);
    assert(0x8c10_8f82u32 ^ 0u32 == 0x8c10_8f82
        && crc_bit(0x8c10_8f82) == 0x4608_47c1
        && crc_bit(0x4608_47c1) == 0xcebc_a0c0
        && crc_bit(0xcebc_a0c0) == 0x675e_5060
        && crc_bit(0x675e_5060) == 0x33af_2830
        && crc_bit(0x33af_2830) == 0x19d7_9418
        && crc_bit(0x19d7_9418) == 0x0ceb_ca0c
        && crc_bit(0x0ceb_ca0c) == 0x0675_e506
        && crc_bit(0x0675_e506) == 0x033a_f283) by (bit_vector);
    assert(0x033a_f283u32 ^ 1u32 == 0x033a_f282
        && crc_bit(0x033a_f282) == 0x019d_7941
        && crc_bit(0x019d_7941) == 0xed76_3f80
        && crc_bit(0xed76_3f80) == 0x76bb_1fc0
        && crc_bit(0x76bb_1fc0) == 0x3b5d_8fe0
        && crc_bit(0x3b5d_8fe0) == 0x1dae_c7f0
        && crc_bit(0x1dae_c7f0) == 0x0ed7_63f8
        && crc_bit(0x0ed7_63f8) == 0x076b_b1fc
        && crc_bit(0x076b_b1fc) == 0x03b5_d8fe) by (bit_vector);
    assert(!0x03b5_d8feu32 == 0xfc4a_2701) by (bit_vector);
}

/// An identifier for 192.168.1.1 is refused for 10.0.0.1: their checksums start with other bits.
pub proof fn law_private_addresses_are_told_apart(id: [u8; 20])
    requires
        id_matches_v4(id, [192, 168, 1, 1]),
    ensures
        !id_matches_v4(id, [10, 0, 0, 1]),
{
    let a = [192u8, 168, 1, 1];
    let b = [10u8, 0, 0, 1];
    assert(192u8 & 0x03 == 0 && 168u8 & 0x0f == 8 && 1u8 & 0x3f == 1 && 10u8 & 0x03 == 2 && 0u8 & 0x0f
        == 0 && 0u8 & 0x3f == 0) by (bit_vector);
    assert(masked_ip(a) =~= seq![0u8, 8u8, 1u8, 1u8]);
    assert(masked_ip(b) =~= seq![2u8, 0u8, 0u8, 1u8]);
    lemma_checksum_of_one_private_address();
    lemma_checksum_of_another_private_address();
    reveal_with_fuel(be_bytes, 5);
    assert(id_checksum(a)[0] == 0x41);
    assert(id_checksum(b)[0] == 0xfc);
    crate::bytes::lemma_be_bytes_len(crc32_of(masked_ip(a)) as nat, 4);
    crate::bytes::lemma_be_bytes_len(crc32_of(masked_ip(b)) as nat, 4);
    lemma_leading_21(id@, id_checksum(a));
    lemma_leading_21(id@, id_checksum(b));
}

/// The nodes with a given address.
pub open spec fn at_addr(addr: CompactAddr) -> spec_fn(RoutingEntry) -> bool {
    |e: RoutingEntry| e.addr == addr
}

/// The nodes that may be replaced at time `now`: unhealthy or expired ones.
pub open spec fn replaceable(now: u32) -> spec_fn(RoutingEntry) -> bool {
    |e: RoutingEntry| !e.healthy() || e.expired(now)
}

/// The nodes that stay at time `now`: healthy ones that have not expired.
pub open spec fn lasting(now: u32) -> spec_fn(RoutingEntry) -> bool {
    |e: RoutingEntry| e.healthy() && !e.expired(now)
}

/// The healthy nodes.
pub open spec fn is_well() -> spec_fn(RoutingEntry) -> bool {
    |e: RoutingEntry| e.healthy()
}

/// The healthy nodes that are due for a refresh at time `now`.
pub open spec fn refresh_due(now: u32) -> spec_fn(RoutingEntry) -> bool {
    |e: RoutingEntry| e.healthy() && age(now, e.last_seen) > REFRESH_SECS
}

/// The nodes that share at least `bits` leading bits with `own`.
pub open spec fn sharing(own: [u8; 20], bits: nat) -> spec_fn(RoutingEntry) -> bool {
    |e: RoutingEntry| common_prefix(own, e.id) >= bits
}

/// The nodes that share fewer than `bits` leading bits with `own`.
pub open spec fn not_sharing(own: [u8; 20], bits: nat) -> spec_fn(RoutingEntry) -> bool {
    |e: RoutingEntry| common_prefix(own, e.id) < bits
}

/// No two nodes have one address.
pub open spec fn distinct_addrs(entries: Seq<RoutingEntry>) -> bool {
    forall|i: int, j: int|
        #![trigger entries[i], entries[j]]
        0 <= i < j < entries.len() ==> entries[i].addr != entries[j].addr
}

/// The nodes of a bucket after `e` came in: in place of the node with its address, or beside the
/// others while there is room, or in place of the first node that is unhealthy or expired. `None`
/// if none of these applies. The nodes stay ordered by when they were last seen.
pub open spec fn bucket_with(entries: Seq<RoutingEntry>, e: RoutingEntry) -> Option<Seq<RoutingEntry>> {
    let known = first_where(entries, at_addr(e.addr));
    let stale = first_where(entries, replaceable(e.last_seen));
    if known < entries.len() {
        Some(stable_sorted(entries.update(known, e)))
    } else if entries.len() < K {
        Some(stable_sorted(entries.push(e)))
    } else if stale < entries.len() {
        Some(stable_sorted(entries.update(stale, e)))
    } else {
        None
    }
}

/// A bucket: the leading bits it stands for and its nodes, least recently seen first.
#[verifier::ext_equal]
pub struct BucketModel {
    pub prefix_len: nat,
    pub entries: Seq<RoutingEntry>,
}

impl BucketModel {
    /// What holds of every bucket.
    pub open spec fn valid(self) -> bool {
        &&& self.prefix_len < MAX_BUCKETS
        &&& self.entries.len() <= K
        &&& is_ranked(self.entries)
        &&& distinct_addrs(self.entries)
    }
}

/// The buckets that hold a node with address `addr`.
pub open spec fn holding(addr: CompactAddr) -> spec_fn(BucketModel) -> bool {
    |b: BucketModel| first_where(b.entries, at_addr(addr)) < b.entries.len()
}

/// The bucket for a node that shares `bits` leading bits with the table's identifier: the one with
/// the longest prefix that is no longer.
pub open spec fn bucket_for(buckets: Seq<BucketModel>, bits: nat) -> int {
    if bits < buckets.len() {
        bits as int
    } else {
        buckets.len() - 1
    }
}

/// The buckets after bucket `i` was split: the nodes that share one more bit move to a new bucket at
/// the end. Only the last bucket, on the path of the own identifier, can be split, and that only
/// while there are bits left.
pub open spec fn split_at(buckets: Seq<BucketModel>, own: [u8; 20], i: int) -> Seq<BucketModel> {
    let bits = (i + 1) as nat;
    let entries = buckets[i].entries;
    if i != buckets.len() - 1 || bits >= MAX_BUCKETS {
        buckets
    } else {
        with_entries(buckets, i, entries.filter(not_sharing(own, bits))).push(
            BucketModel { prefix_len: bits, entries: entries.filter(sharing(own, bits)) },
        )
    }
}

/// The buckets with the nodes of bucket `i` replaced.
pub open spec fn with_entries(
    buckets: Seq<BucketModel>,
    i: int,
    entries: Seq<RoutingEntry>,
) -> Seq<BucketModel> {
    buckets.update(i, BucketModel { prefix_len: buckets[i].prefix_len, entries })
}

/// Whether bucket `i` can be split: it is the last one, on the path of the own identifier, and there
/// are bits left.
pub open spec fn can_split(buckets: Seq<BucketModel>, i: int) -> bool {
    0 <= i == buckets.len() - 1 && buckets.len() < MAX_BUCKETS
}

/// The buckets after an attempt to insert `e`, and whether it came in. While its bucket is full and
/// is the one of the own identifier, that bucket is split and the insertion tried again. A full
/// bucket off that path stays as it is and refuses the node.
pub open spec fn table_with(
    buckets: Seq<BucketModel>,
    own: [u8; 20],
    e: RoutingEntry,
) -> (Seq<BucketModel>, bool)
    decreases MAX_BUCKETS - buckets.len(),
{
    let i = bucket_for(buckets, common_prefix(own, e.id));
    match bucket_with(buckets[i].entries, e) {
        Some(entries) => (with_entries(buckets, i, entries), true),
        None => if can_split(buckets, i) {
            table_with(split_at(buckets, own, i), own, e)
        } else {
            (buckets, false)
        },
    }
}

/// The number of nodes in all buckets.
pub open spec fn node_total(buckets: Seq<BucketModel>) -> nat
    decreases buckets.len(),
{
    if buckets.len() == 0 {
        0
    } else {
        node_total(buckets.drop_last()) + buckets.last().entries.len()
    }
}

/// The nodes of all buckets, bucket after bucket.
pub open spec fn all_entries(buckets: Seq<BucketModel>) -> Seq<RoutingEntry>
    decreases buckets.len(),
{
    if buckets.len() == 0 {
        Seq::empty()
    } else {
        all_entries(buckets.drop_last()) + buckets.last().entries
    }
}

/// Every bucket with only those nodes that stay at time `now`.
pub open spec fn evicted(buckets: Seq<BucketModel>, now: u32) -> Seq<BucketModel> {
    buckets.map_values(
        |b: BucketModel|
            BucketModel { prefix_len: b.prefix_len, entries: b.entries.filter(lasting(now)) },
    )
}

/// Of each bucket the address of the first node that is due for a refresh, if it has one.
pub open spec fn refresh_addrs(buckets: Seq<BucketModel>, now: u32) -> Seq<CompactAddr>
    decreases buckets.len(),
{
    if buckets.len() == 0 {
        Seq::empty()
    } else {
        let rest = refresh_addrs(buckets.drop_last(), now);
        let entries = buckets.last().entries;
        let due = first_where(entries, refresh_due(now));
        if due < entries.len() {
            rest.push(entries[due].addr)
        } else {
            rest
        }
    }
}

/// One bucket of the table.
pub struct KBucket {
    prefix_len: usize,
    entries: Vec<RoutingEntry>,
}

impl View for KBucket {
    type V = BucketModel;

    closed spec fn view(&self) -> BucketModel {
        BucketModel { prefix_len: self.prefix_len as nat, entries: self.entries@ }
    }
}

proof fn lemma_sorted_bucket(before: Seq<RoutingEntry>)
    requires
        distinct_addrs(before),
        before.len() <= K,
    ensures
        stable_sorted(before).len() == before.len(),
        is_ranked(stable_sorted(before)),
        distinct_addrs(stable_sorted(before)),
        stable_sorted(before).to_multiset() == before.to_multiset(),
{
    let after = stable_sorted(before);
    lemma_stable_sort_exists(before);
    vstd::seq_lib::to_multiset_len(before);
    vstd::seq_lib::to_multiset_len(after);
    assert(before.no_duplicates());
    before.lemma_multiset_has_no_duplicates();
    after.lemma_multiset_has_no_duplicates_conv();
    assert forall|i: int, j: int|
        #![trigger after[i], after[j]]
        0 <= i < j < after.len() implies after[i].addr != after[j].addr by {
        vstd::seq_lib::to_multiset_contains(after, after[i]);
        vstd::seq_lib::to_multiset_contains(before, after[i]);
        vstd::seq_lib::to_multiset_contains(after, after[j]);
        vstd::seq_lib::to_multiset_contains(before, after[j]);
        assert(after.contains(after[i]));
        assert(after.contains(after[j]));
        let p = choose|p: int| 0 <= p < before.len() && before[p] == after[i];
        let q = choose|q: int| 0 <= q < before.len() && before[q] == after[j];
        assert(after[i] != after[j]);
        assert(p != q);
    }
}

/// What `bucket_with` makes of a valid bucket is valid and holds the new node.
proof fn lemma_bucket_with(entries: Seq<RoutingEntry>, e: RoutingEntry)
    requires
        distinct_addrs(entries),
        entries.len() <= K,
    ensures
        bucket_with(entries, e) matches Some(after) ==> {
            &&& after.len() <= K
            &&& is_ranked(after)
            &&& distinct_addrs(after)
            &&& after.contains(e)
            &&& after.len() == if first_where(entries, at_addr(e.addr)) == entries.len()
                && entries.len() < K {
                entries.len() + 1
            } else {
                entries.len()
            }
        },
{
    let known = first_where(entries, at_addr(e.addr));
    let stale = first_where(entries, replaceable(e.last_seen));
    lemma_first_where(entries, at_addr(e.addr));
    lemma_first_where(entries, replaceable(e.last_seen));
    if bucket_with(entries, e) is Some {
        let before = if known < entries.len() {
            entries.update(known, e)
        } else if entries.len() < K {
            entries.push(e)
        } else {
            entries.update(stale, e)
        };
        assert(distinct_addrs(before)) by {
            assert forall|i: int, j: int|
                #![trigger before[i], before[j]]
                0 <= i < j < before.len() implies before[i].addr != before[j].addr by {
                if known < entries.len() {
                    assert(at_addr(e.addr)(entries[known]));
                    assert(entries[known].addr == e.addr);
                } else {
                    if i < entries.len() {
                        assert(!at_addr(e.addr)(entries[i]));
                    }
                    if j < entries.len() {
                        assert(!at_addr(e.addr)(entries[j]));
                    }
                }
            }
        }
        lemma_sorted_bucket(before);
        let at = if known < entries.len() {
            known
        } else if entries.len() < K {
            entries.len() as int
        } else {
            stale
        };
        assert(before[at] == e);
        vstd::seq_lib::to_multiset_contains(before, e);
        vstd::seq_lib::to_multiset_contains(stable_sorted(before), e);
    }
}

impl KBucket {
    fn new(prefix_len: usize) -> (r: KBucket)
        ensures
            r@ == (BucketModel { prefix_len: prefix_len as nat, entries: Seq::empty() }),
    {
        KBucket { prefix_len, entries: Vec::with_capacity(K) }
    }

    fn is_full(&self) -> (r: bool)
        ensures
            r == (self@.entries.len() >= K),
    {
        self.entries.len() >= K
    }

    /// The position of the node with address `addr`.
    fn find(&self, addr: &CompactAddr) -> (r: Option<usize>)
        ensures
            r matches Some(i) ==> i == first_where(self@.entries, at_addr(*addr)) && i
                < self@.entries.len(),
            r is None ==> first_where(self@.entries, at_addr(*addr)) == self@.entries.len(),
    {
        let mut i: usize = 0;
        while i < self.entries.len()
            invariant
                i <= self.entries.len(),
                forall|j: int| 0 <= j < i ==> !at_addr(*addr)(#[trigger] self.entries@[j]),
            decreases self.entries.len() - i,
        {
            if self.entries[i].addr.same(addr) {
                proof {
                    lemma_first_where_at(self.entries@, at_addr(*addr), i as int);
                }
                return Some(i);
            }
            i += 1;
        }
        proof {
            lemma_first_where_at(self.entries@, at_addr(*addr), i as int);
        }
        None
    }

    /// The position of the first node that may be replaced.
    fn find_stale(&self, now: u32) -> (r: Option<usize>)
        ensures
            r matches Some(i) ==> i == first_where(self@.entries, replaceable(now)) && i
                < self@.entries.len(),
            r is None ==> first_where(self@.entries, replaceable(now)) == self@.entries.len(),
    {
        let mut i: usize = 0;
        while i < self.entries.len()
            invariant
                i <= self.entries.len(),
                forall|j: int| 0 <= j < i ==> !replaceable(now)(#[trigger] self.entries@[j]),
            decreases self.entries.len() - i,
        {
            if !self.entries[i].is_healthy() || self.entries[i].is_expired(now) {
                proof {
                    lemma_first_where_at(self.entries@, replaceable(now), i as int);
                }
                return Some(i);
            }
            i += 1;
        }
        proof {
            lemma_first_where_at(self.entries@, replaceable(now), i as int);
        }
        None
    }

    fn sort_entries(&mut self)
        ensures
            final(self)@ == (BucketModel {
                prefix_len: old(self)@.prefix_len,
                entries: stable_sorted(old(self)@.entries),
            }),
    {
        let mut entries: Vec<RoutingEntry> = Vec::new();
        std::mem::swap(&mut entries, &mut self.entries);
        self.entries = stable_sort(entries);
    }

    /// Puts a node into the bucket. `Err` if there is no room for it.
    fn insert(&mut self, entry: RoutingEntry) -> (r: Result<(), ()>)
        ensures
            match bucket_with(old(self)@.entries, entry) {
                Some(entries) => r is Ok && final(self)@ == (BucketModel {
                    prefix_len: old(self)@.prefix_len,
                    entries,
                }),
                None => r is Err && final(self)@ == old(self)@,
            },
    {
        if let Some(idx) = self.find(&entry.addr) {
            self.entries.set(idx, entry);
            self.sort_entries();
            return Ok(());
        }
        if !self.is_full() {
            self.entries.push(entry);
            self.sort_entries();
            return Ok(());
        }
        if let Some(idx) = self.find_stale(entry.last_seen) {
            self.entries.set(idx, entry);
            self.sort_entries();
            return Ok(());
        }
        Err(())
    }
}

/// A node that has just been heard from.
pub open spec fn seen_at(e: RoutingEntry, now: u32) -> RoutingEntry {
    RoutingEntry { id: e.id, addr: e.addr, last_seen: now, failures: 0 }
}

/// A node that has failed once more. The count stops at 255.
pub open spec fn failed_once(e: RoutingEntry) -> RoutingEntry {
    RoutingEntry {
        id: e.id,
        addr: e.addr,
        last_seen: e.last_seen,
        failures: if e.failures < 255 {
            (e.failures + 1) as u8
        } else {
            255
        },
    }
}

impl KBucket {
    /// Takes the node with address `addr` out.
    fn remove(&mut self, addr: &CompactAddr) -> (r: Option<RoutingEntry>)
        ensures
            ({
                let before = old(self)@.entries;
                let at = first_where(before, at_addr(*addr));
                if at < before.len() {
                    &&& r == Some(before[at])
                    &&& final(self)@ == (BucketModel {
                        prefix_len: old(self)@.prefix_len,
                        entries: before.remove(at),
                    })
                } else {
                    r is None && final(self)@ == old(self)@
                }
            }),
    {
        match self.find(addr) {
            Some(idx) => Some(self.entries.remove(idx)),
            None => None,
        }
    }

    /// Notes that the node with address `addr` was heard from.
    fn touch(&mut self, addr: &CompactAddr, now: u32) -> (r: bool)
        ensures
            ({
                let before = old(self)@.entries;
                let at = first_where(before, at_addr(*addr));
                &&& r == (at < before.len())
                &&& final(self)@ == if at < before.len() {
                    BucketModel {
                        prefix_len: old(self)@.prefix_len,
                        entries: stable_sorted(before.update(at, seen_at(before[at], now))),
                    }
                } else {
                    old(self)@
                }
            }),
    {
        match self.find(addr) {
            Some(idx) => {
                let e: RoutingEntry = self.entries[idx];
                let seen: RoutingEntry = RoutingEntry {
                    id: e.id,
                    addr: e.addr,
                    last_seen: now,
                    failures: 0,
                };
                self.entries.set(idx, seen);
                self.sort_entries();
                true
            },
            None => false,
        }
    }

    /// Notes that the node with address `addr` failed.
    fn mark_failed(&mut self, addr: &CompactAddr) -> (r: bool)
        ensures
            ({
                let before = old(self)@.entries;
                let at = first_where(before, at_addr(*addr));
                &&& r == (at < before.len())
                &&& final(self)@ == if at < before.len() {
                    BucketModel {
                        prefix_len: old(self)@.prefix_len,
                        entries: before.update(at, failed_once(before[at])),
                    }
                } else {
                    old(self)@
                }
            }),
    {
        match self.find(addr) {
            Some(idx) => {
                let e: RoutingEntry = self.entries[idx];
                let failed: RoutingEntry = RoutingEntry {
                    id: e.id,
                    addr: e.addr,
                    last_seen: e.last_seen,
                    failures: e.failures.saturating_add(1),
                };
                self.entries.set(idx, failed);
                true
            },
            None => false,
        }
    }

    /// Drops the nodes that are unhealthy or expired and returns their number.
    fn evict(&mut self, now: u32) -> (r: usize)
        ensures
            final(self)@ == (BucketModel {
                prefix_len: old(self)@.prefix_len,
                entries: old(self)@.entries.filter(lasting(now)),
            }),
            r == old(self)@.entries.len() - final(self)@.entries.len(),
    {
        let before: usize = self.entries.len();
        let mut kept: Vec<RoutingEntry> = Vec::with_capacity(before);
        let mut i: usize = 0;
        assert(self.entries@.take(0).filter(lasting(now)) =~= Seq::empty()) by {
            reveal(Seq::filter);
        }
        while i < self.entries.len()
            invariant
                i <= self.entries.len(),
                kept@ == self.entries@.take(i as int).filter(lasting(now)),
            decreases self.entries.len() - i,
        {
            proof {
                lemma_filter_step(self.entries@, i as int, lasting(now));
            }
            if self.entries[i].is_healthy() && !self.entries[i].is_expired(now) {
                kept.push(self.entries[i]);
            }
            i += 1;
        }
        proof {
            assert(self.entries@.take(i as int) =~= self.entries@);
            self.entries@.lemma_filter_len(lasting(now));
        }
        self.entries = kept;
        before - self.entries.len()
    }
}

/// What holds of the buckets of every table.
pub open spec fn valid_buckets(buckets: Seq<BucketModel>) -> bool {
    &&& 0 < buckets.len() <= MAX_BUCKETS
    &&& forall|i: int|
        0 <= i < buckets.len() ==> (#[trigger] buckets[i]).valid() && buckets[i].prefix_len == i
}

proof fn lemma_total_concat(a: Seq<BucketModel>, b: Seq<BucketModel>)
    ensures
        node_total(a + b) == node_total(a) + node_total(b),
    decreases b.len(),
{
    if b.len() == 0 {
        assert(a + b =~= a);
    } else {
        lemma_total_concat(a, b.drop_last());
        assert((a + b).drop_last() =~= a + b.drop_last());
    }
}

proof fn lemma_total_one(b: BucketModel)
    ensures
        node_total(seq![b]) == b.entries.len(),
{
    assert(seq![b].drop_last() =~= Seq::<BucketModel>::empty());
    reveal_with_fuel(node_total, 2);
}

proof fn lemma_total_update(buckets: Seq<BucketModel>, i: int, b: BucketModel)
    requires
        0 <= i < buckets.len(),
    ensures
        node_total(buckets.update(i, b)) == node_total(buckets) - buckets[i].entries.len()
            + b.entries.len(),
{
    let low = buckets.take(i);
    let high = buckets.skip(i + 1);
    assert(buckets =~= low + (seq![buckets[i]] + high));
    assert(buckets.update(i, b) =~= low + (seq![b] + high));
    lemma_total_concat(low, seq![buckets[i]] + high);
    lemma_total_concat(low, seq![b] + high);
    lemma_total_concat(seq![buckets[i]], high);
    lemma_total_concat(seq![b], high);
    lemma_total_one(buckets[i]);
    lemma_total_one(b);
}

proof fn lemma_bucket_for(buckets: Seq<BucketModel>, bits: nat)
    requires
        buckets.len() > 0,
    ensures
        0 <= bucket_for(buckets, bits) < buckets.len(),
{
}

/// The two halves of a split hold the nodes of the whole.
proof fn lemma_halves(entries: Seq<RoutingEntry>, own: [u8; 20], bits: nat)
    ensures
        entries.filter(sharing(own, bits)).len() + entries.filter(not_sharing(own, bits)).len()
            == entries.len(),
        entries.filter(sharing(own, bits)).to_multiset().add(
            entries.filter(not_sharing(own, bits)).to_multiset(),
        ) =~= entries.to_multiset(),
    decreases entries.len(),
{
    broadcast use vstd::multiset::group_multiset_axioms;
    broadcast use vstd::seq_lib::group_to_multiset_ensures;

    reveal(Seq::filter);
    if entries.len() > 0 {
        let rest = entries.drop_last();
        let x = entries.last();
        lemma_halves(rest, own, bits);
        assert(entries =~= rest.push(x));
    } else {
        assert(entries =~= Seq::<RoutingEntry>::empty());
        vstd::seq_lib::to_multiset_len(entries);
        vstd::multiset::lemma_multiset_empty_len(entries.to_multiset());
    }
}

/// Filtering keeps order and distinctness.
proof fn lemma_filter_keeps(entries: Seq<RoutingEntry>, p: spec_fn(RoutingEntry) -> bool)
    requires
        is_ranked(entries),
        distinct_addrs(entries),
    ensures
        is_ranked(entries.filter(p)),
        distinct_addrs(entries.filter(p)),
        entries.filter(p).len() <= entries.len(),
        forall|e: RoutingEntry| #[trigger]
            entries.filter(p).contains(e) <==> entries.contains(e) && p(e),
    decreases entries.len(),
{
    reveal(Seq::filter);
    if entries.len() > 0 {
        let rest = entries.drop_last();
        let x = entries.last();
        assert(is_ranked(rest));
        assert(distinct_addrs(rest));
        lemma_filter_keeps(rest, p);
        let low = rest.filter(p);
        let out = entries.filter(p);
        assert(entries =~= rest.push(x));
        assert forall|e: RoutingEntry| #[trigger]
            out.contains(e) <==> entries.contains(e) && p(e) by {
            assert(entries.contains(e) <==> rest.contains(e) || e == x) by {
                if rest.contains(e) {
                    let i = choose|i: int| 0 <= i < rest.len() && rest[i] == e;
                    assert(entries[i] == e);
                }
                if e == x {
                    assert(entries[entries.len() - 1] == e);
                }
            }
            assert(low.contains(e) <==> rest.contains(e) && p(e));
            if p(x) {
                assert(out =~= low.push(x));
                if low.contains(e) {
                    let i = choose|i: int| 0 <= i < low.len() && low[i] == e;
                    assert(out[i] == e);
                }
                if e == x {
                    assert(out[out.len() - 1] == e);
                }
            }
        }
        if p(x) {
            assert forall|i: int| 0 <= i < low.len() implies (#[trigger] low[i]).rank() <= x.rank()
                && low[i].addr != x.addr by {
                assert(low.contains(low[i]));
                let k = choose|k: int| 0 <= k < rest.len() && rest[k] == low[i];
                assert(entries[k] == low[i]);
                assert(entries[entries.len() - 1] == x);
            }
            assert(out =~= low.push(x));
        }
    }
}

/// Splitting keeps the buckets valid and loses no node.
proof fn lemma_split(buckets: Seq<BucketModel>, own: [u8; 20], i: int)
    requires
        valid_buckets(buckets),
        0 <= i < buckets.len(),
    ensures
        valid_buckets(split_at(buckets, own, i)),
        node_total(split_at(buckets, own, i)) == node_total(buckets),
{
    let bits = (i + 1) as nat;
    let entries = buckets[i].entries;
    assert(buckets[i].valid());
    if i == buckets.len() - 1 && bits < MAX_BUCKETS {
        lemma_halves(entries, own, bits);
        lemma_filter_keeps(entries, sharing(own, bits));
        lemma_filter_keeps(entries, not_sharing(own, bits));
        let low = BucketModel { prefix_len: i as nat, entries: entries.filter(not_sharing(own, bits)) };
        let high = BucketModel { prefix_len: bits, entries: entries.filter(sharing(own, bits)) };
        let kept = buckets.update(i, low);
        lemma_total_update(buckets, i, low);
        let split = kept.push(high);
        assert(split.drop_last() =~= kept);
        assert(split == split_at(buckets, own, i));
        assert forall|j: int| 0 <= j < split.len() implies (#[trigger] split[j]).valid()
            && split[j].prefix_len == j by {
            if j < kept.len() && j != i {
                assert(split[j] == buckets[j]);
            }
        }
    }
}

/// Every insertion keeps the buckets valid; the number of nodes grows by one at most.
pub proof fn law_insert_keeps_valid(buckets: Seq<BucketModel>, own: [u8; 20], e: RoutingEntry)
    requires
        valid_buckets(buckets),
    ensures
        valid_buckets(table_with(buckets, own, e).0),
        node_total(buckets) <= node_total(table_with(buckets, own, e).0) <= node_total(buckets) + 1,
        !table_with(buckets, own, e).1 ==> node_total(table_with(buckets, own, e).0) == node_total(
            buckets,
        ),
    decreases MAX_BUCKETS - buckets.len(),
{
    let bits = common_prefix(own, e.id);
    let i = bucket_for(buckets, bits);
    lemma_bucket_for(buckets, bits);
    assert(buckets[i].valid());
    lemma_bucket_with(buckets[i].entries, e);
    lemma_first_where(buckets[i].entries, at_addr(e.addr));
    match bucket_with(buckets[i].entries, e) {
        Some(entries) => {
            lemma_total_update(
                buckets,
                i,
                BucketModel { prefix_len: buckets[i].prefix_len, entries },
            );
        },
        None => {
            if can_split(buckets, i) {
                lemma_split(buckets, own, i);
                law_insert_keeps_valid(split_at(buckets, own, i), own, e);
            }
        },
    }
}

/// The routing table of a node.
pub struct RoutingTable {
    own_id: [u8; 20],
    buckets: Vec<KBucket>,
    started_at: Instant,
    total_nodes: usize,
}

/// The models of the first `n` buckets.
spec fn models(buckets: Seq<KBucket>) -> Seq<BucketModel> {
    buckets.map_values(|b: KBucket| b@)
}

impl RoutingTable {
    /// The table's own identifier.
    pub closed spec fn own(&self) -> [u8; 20] {
        self.own_id
    }

    /// The buckets.
    pub closed spec fn buckets(&self) -> Seq<BucketModel> {
        models(self.buckets@)
    }

    /// When the table was made.
    pub closed spec fn start(&self) -> Instant {
        self.started_at
    }

    /// What holds of every table: the buckets are valid and the cached total is their sum.
    pub closed spec fn wf(&self) -> bool {
        &&& valid_buckets(self.buckets())
        &&& self.total_nodes == node_total(self.buckets())
    }

    /// The buckets of a table are valid.
    pub proof fn lemma_valid(&self)
        requires
            self.wf(),
        ensures
            valid_buckets(self.buckets()),
            node_total(self.buckets()) <= usize::MAX,
    {
    }

    /// An empty table with one bucket for all identifiers.
    pub fn new(own_id: [u8; 20]) -> (r: RoutingTable)
        ensures
            r.wf(),
            r.own() == own_id,
            r.buckets() == seq![BucketModel { prefix_len: 0, entries: Seq::empty() }],
    {
        let mut buckets: Vec<KBucket> = Vec::with_capacity(16);
        buckets.push(KBucket::new(0));
        let r: RoutingTable = RoutingTable {
            own_id,
            buckets,
            started_at: instant_now(),
            total_nodes: 0,
        };
        proof {
            assert(r.buckets() =~= seq![BucketModel { prefix_len: 0, entries: Seq::empty() }]);
            lemma_total_one(r.buckets()[0]);
        }
        r
    }

    /// The table's own identifier.
    pub fn own_id(&self) -> (r: &[u8; 20])
        ensures
            *r == self.own(),
    {
        &self.own_id
    }

    /// The point in time that a timestamp of this table stands for, `None` if the clock of the machine
    /// cannot represent it.
    pub fn timestamp_to_instant(&self, ts: u32) -> (r: Option<Instant>)
        ensures
            r matches Some(t) ==> t == instant_after(self.start(), ts as u64),
    {
        instant_plus_secs(&self.started_at, ts)
    }

    /// The number of nodes.
    pub fn len(&self) -> (r: usize)
        requires
            self.wf(),
        ensures
            r == node_total(self.buckets()),
    {
        self.total_nodes
    }

    /// Whether there is no node.
    pub fn is_empty(&self) -> (r: bool)
        requires
            self.wf(),
        ensures
            r == (node_total(self.buckets()) == 0),
    {
        self.total_nodes == 0
    }

    /// The number of buckets.
    pub fn bucket_count(&self) -> (r: usize)
        ensures
            r == self.buckets().len(),
    {
        self.buckets.len()
    }

    /// Whether a bucket is the one for an identifier.
    fn bucket_contains(&self, bucket_idx: usize, target: &[u8; 20]) -> (r: bool)
        requires
            bucket_idx < self.buckets().len(),
        ensures
            r == (bucket_idx == bucket_for(self.buckets(), common_prefix(self.own(), *target))),
    {
        self.find_bucket(target) == bucket_idx
    }

    /// The position of the bucket for an identifier.
    fn find_bucket(&self, target: &[u8; 20]) -> (r: usize)
        requires
            self.buckets().len() > 0,
        ensures
            r == bucket_for(self.buckets(), common_prefix(self.own(), *target)),
            r < self.buckets().len(),
    {
        let bits: usize = common_prefix_len(&self.own_id, target);
        if bits < self.buckets.len() {
            bits
        } else {
            self.buckets.len() - 1
        }
    }

    /// Splits a bucket, if it is the one of the own identifier.
    fn split_bucket(&mut self, bucket_idx: usize)
        requires
            valid_buckets(old(self).buckets()),
            bucket_idx < old(self).buckets().len(),
        ensures
            final(self).buckets() == split_at(
                old(self).buckets(),
                old(self).own(),
                bucket_idx as int,
            ),
            final(self).own() == old(self).own(),
            final(self).start() == old(self).start(),
            final(self).total_nodes == old(self).total_nodes,
    {
        let ghost before = self.buckets();
        let ghost own = self.own_id;
        let prefix_len: usize = self.buckets[bucket_idx].prefix_len;
        assert(before[bucket_idx as int].valid());
        let own_id: [u8; 20] = self.own_id;
        proof {
            lemma_common_prefix_of_self(own_id);
        }
        if !self.bucket_contains(bucket_idx, &own_id) {
            return;
        }
        if prefix_len >= MAX_BUCKETS - 1 {
            return;
        }
        let new_prefix: usize = prefix_len + 1;
        let mut old_bucket: KBucket = KBucket::new(prefix_len);
        let mut new_bucket: KBucket = KBucket::new(new_prefix);
        let ghost entries = before[bucket_idx as int].entries;
        let mut i: usize = 0;
        assert(entries.take(0).filter(sharing(own, new_prefix as nat)) =~= Seq::empty()) by {
            reveal(Seq::filter);
        }
        assert(entries.take(0).filter(not_sharing(own, new_prefix as nat)) =~= Seq::empty()) by {
            reveal(Seq::filter);
        }
        while i < self.buckets[bucket_idx].entries.len()
            invariant
                bucket_idx < self.buckets.len(),
                own == self.own_id,
                entries == self.buckets[bucket_idx as int].entries@,
                i <= entries.len(),
                new_bucket.prefix_len == new_prefix,
                old_bucket.prefix_len == prefix_len,
                new_bucket.entries@ == entries.take(i as int).filter(
                    sharing(own, new_prefix as nat),
                ),
                old_bucket.entries@ == entries.take(i as int).filter(
                    not_sharing(own, new_prefix as nat),
                ),
            decreases entries.len() - i,
        {
            proof {
                lemma_filter_step(entries, i as int, sharing(own, new_prefix as nat));
                lemma_filter_step(entries, i as int, not_sharing(own, new_prefix as nat));
            }
            let e: RoutingEntry = self.buckets[bucket_idx].entries[i];
            if common_prefix_len(&self.own_id, &e.id) >= new_prefix {
                new_bucket.entries.push(e);
            } else {
                old_bucket.entries.push(e);
            }
            i += 1;
        }
        assert(entries.take(i as int) =~= entries);
        self.buckets.set(bucket_idx, old_bucket);
        let ghost kept = before.update(bucket_idx as int, old_bucket@);
        assert(self.buckets() =~= kept);
        self.buckets.push(new_bucket);
        assert(self.buckets() =~= kept.push(new_bucket@));
    }

    /// Puts a node into its bucket, splitting the bucket of the own identifier while it is full.
    fn insert_entry(&mut self, entry: RoutingEntry) -> (r: bool)
        requires
            old(self).wf(),
            node_total(old(self).buckets()) < usize::MAX,
        ensures
            final(self).wf(),
            final(self).own() == old(self).own(),
            final(self).start() == old(self).start(),
            (final(self).buckets(), r) == table_with(old(self).buckets(), old(self).own(), entry),
    {
        let ghost before = self.buckets();
        let ghost own = self.own_id;
        loop
            invariant
                self.wf(),
                self.own() == own,
                own == old(self).own(),
                self.start() == old(self).start(),
                before == old(self).buckets(),
                node_total(self.buckets()) < usize::MAX,
                table_with(self.buckets(), own, entry) == table_with(before, own, entry),
            decreases MAX_BUCKETS - self.buckets().len(),
        {
            let idx: usize = self.find_bucket(&entry.id);
            if self.insert_into(idx, entry) {
                return true;
            }
            if idx != self.buckets.len() - 1 || self.buckets.len() >= MAX_BUCKETS {
                return false;
            }
            proof {
                lemma_common_prefix_of_self(self.own_id);
                assert(self.buckets()[idx as int].valid());
                lemma_split(self.buckets(), own, idx as int);
            }
            self.split_bucket(idx);
        }
    }

    /// Puts a node into the given bucket and keeps the total.
    fn insert_into(&mut self, idx: usize, entry: RoutingEntry) -> (r: bool)
        requires
            old(self).wf(),
            idx < old(self).buckets().len(),
            node_total(old(self).buckets()) < usize::MAX,
        ensures
            final(self).wf(),
            final(self).own() == old(self).own(),
            final(self).start() == old(self).start(),
            match bucket_with(old(self).buckets()[idx as int].entries, entry) {
                Some(entries) => r && final(self).buckets() == with_entries(
                    old(self).buckets(),
                    idx as int,
                    entries,
                ),
                None => !r && final(self).buckets() == old(self).buckets(),
            },
    {
        let ghost before = self.buckets();
        proof {
            assert(before[idx as int].valid());
            lemma_bucket_with(before[idx as int].entries, entry);
            lemma_first_where(before[idx as int].entries, at_addr(entry.addr));
        }
        let len_before: usize = self.buckets[idx].entries.len();
        let placed: bool = self.buckets[idx].insert(entry).is_ok();
        let len_after: usize = self.buckets[idx].entries.len();
        proof {
            let b = self.buckets[idx as int]@;
            assert(self.buckets() =~= before.update(idx as int, b));
            lemma_total_update(before, idx as int, b);
            assert(before.update(idx as int, before[idx as int]) =~= before);
        }
        if len_after > len_before {
            self.total_nodes = self.total_nodes + 1;
        }
        placed
    }

    /// Inserts a node as seen at time `now`. Returns whether it came in.
    pub fn insert_at(&mut self, id: [u8; 20], addr: CompactAddr, now: u32) -> (r: bool)
        requires
            old(self).wf(),
            node_total(old(self).buckets()) < usize::MAX,
        ensures
            final(self).wf(),
            final(self).own() == old(self).own(),
            final(self).start() == old(self).start(),
            (final(self).buckets(), r) == table_with(
                old(self).buckets(),
                old(self).own(),
                RoutingEntry { id, addr, last_seen: now, failures: 0 },
            ),
    {
        self.insert_entry(RoutingEntry { id, addr, last_seen: now, failures: 0 })
    }

    /// Inserts a node as seen now. Returns whether it came in.
    pub fn insert(&mut self, id: [u8; 20], addr: CompactAddr) -> (r: bool)
        requires
            old(self).wf(),
            node_total(old(self).buckets()) < usize::MAX,
        ensures
            final(self).wf(),
            final(self).own() == old(self).own(),
            final(self).start() == old(self).start(),
            exists|now: Instant|
                (final(self).buckets(), r) == #[trigger] table_with(
                    old(self).buckets(),
                    old(self).own(),
                    RoutingEntry { id, addr, last_seen: secs_since(old(self).start(), now), failures: 0 },
                ),
    {
        let now: u32 = self.now_secs();
        self.insert_at(id, addr, now)
    }

    /// An insertion adds one node at most.
    pub(crate) proof fn lemma_insert_total(&self, e: RoutingEntry)
        requires
            self.wf(),
        ensures
            node_total(table_with(self.buckets(), self.own(), e).0) <= node_total(self.buckets())
                + 1,
    {
        law_insert_keeps_valid(self.buckets(), self.own(), e);
    }

    /// Seconds since the table was made.
    pub(crate) fn now_secs(&self) -> (r: u32)
        ensures
            exists|now: Instant| r == #[trigger] secs_since(self.start(), now),
    {
        assert(self.start() == self.started_at);
        elapsed_secs_u32(&self.started_at)
    }

    /// Seconds since the table was made, at a point in time.
    pub(crate) fn secs_at(&self, now: &Instant) -> (r: u32)
        ensures
            r == secs_since(self.start(), *now),
    {
        secs_between(&self.started_at, now)
    }
}

/// The buckets without the first node that has address `addr`.
pub open spec fn table_without(buckets: Seq<BucketModel>, addr: CompactAddr) -> Seq<BucketModel> {
    let i = first_where(buckets, holding(addr));
    if i < buckets.len() {
        let entries = buckets[i].entries;
        with_entries(buckets, i, entries.remove(first_where(entries, at_addr(addr))))
    } else {
        buckets
    }
}

/// The buckets after the first node with address `addr` was heard from.
pub open spec fn table_touched(
    buckets: Seq<BucketModel>,
    addr: CompactAddr,
    now: u32,
) -> Seq<BucketModel> {
    let i = first_where(buckets, holding(addr));
    if i < buckets.len() {
        let entries = buckets[i].entries;
        let at = first_where(entries, at_addr(addr));
        with_entries(buckets, i, stable_sorted(entries.update(at, seen_at(entries[at], now))))
    } else {
        buckets
    }
}

/// The buckets after the first node with address `addr` failed.
pub open spec fn table_failed(buckets: Seq<BucketModel>, addr: CompactAddr) -> Seq<BucketModel> {
    let i = first_where(buckets, holding(addr));
    if i < buckets.len() {
        let entries = buckets[i].entries;
        let at = first_where(entries, at_addr(addr));
        with_entries(buckets, i, entries.update(at, failed_once(entries[at])))
    } else {
        buckets
    }
}

/// The number of nodes stays when one is heard from.
pub proof fn law_touching_keeps_the_number(buckets: Seq<BucketModel>, addr: CompactAddr, now: u32)
    ensures
        node_total(table_touched(buckets, addr, now)) == node_total(buckets),
{
    let i = first_where(buckets, holding(addr));
    lemma_first_where(buckets, holding(addr));
    if i < buckets.len() {
        let entries = buckets[i].entries;
        let at = first_where(entries, at_addr(addr));
        lemma_first_where(entries, at_addr(addr));
        let changed = entries.update(at, seen_at(entries[at], now));
        lemma_stable_sort_exists(changed);
        vstd::seq_lib::to_multiset_len(changed);
        vstd::seq_lib::to_multiset_len(stable_sorted(changed));
        lemma_total_update(
            buckets,
            i,
            BucketModel { prefix_len: buckets[i].prefix_len, entries: stable_sorted(changed) },
        );
    }
}

/// Whether some bucket holds a node with address `addr`.
pub open spec fn knows(buckets: Seq<BucketModel>, addr: CompactAddr) -> bool {
    exists|i: int, k: int|
        #![trigger buckets[i].entries[k]]
        0 <= i < buckets.len() && 0 <= k < buckets[i].entries.len() && buckets[i].entries[k].addr
            == addr
}

proof fn lemma_knows(buckets: Seq<BucketModel>, addr: CompactAddr)
    ensures
        knows(buckets, addr) <==> first_where(buckets, holding(addr)) < buckets.len(),
{
    let f = first_where(buckets, holding(addr));
    lemma_first_where(buckets, holding(addr));
    if f < buckets.len() {
        let k = first_where(buckets[f].entries, at_addr(addr));
        lemma_first_where(buckets[f].entries, at_addr(addr));
        assert(buckets[f].entries[k].addr == addr);
    }
    if knows(buckets, addr) {
        let (i, k) = choose|i: int, k: int|
            #![trigger buckets[i].entries[k]]
            0 <= i < buckets.len() && 0 <= k < buckets[i].entries.len()
                && buckets[i].entries[k].addr == addr;
        lemma_first_where(buckets[i].entries, at_addr(addr));
        let g = first_where(buckets[i].entries, at_addr(addr));
        assert(g < buckets[i].entries.len()) by {
            if g >= buckets[i].entries.len() {
                assert(!at_addr(addr)(buckets[i].entries[k]));
            }
        }
        assert(holding(addr)(buckets[i]));
        if f >= buckets.len() {
            assert(!holding(addr)(buckets[i]));
        }
    }
}

proof fn lemma_all_entries_len(buckets: Seq<BucketModel>)
    ensures
        all_entries(buckets).len() == node_total(buckets),
    decreases buckets.len(),
{
    if buckets.len() > 0 {
        lemma_all_entries_len(buckets.drop_last());
    }
}

proof fn lemma_all_entries_contains(buckets: Seq<BucketModel>, e: RoutingEntry)
    ensures
        all_entries(buckets).contains(e) <==> exists|i: int|
            0 <= i < buckets.len() && (#[trigger] buckets[i]).entries.contains(e),
    decreases buckets.len(),
{
    if buckets.len() > 0 {
        let rest = buckets.drop_last();
        let last = buckets.last().entries;
        lemma_all_entries_contains(rest, e);
        vstd::seq_lib::lemma_seq_concat_contains_all_elements(all_entries(rest), last, e);
        if all_entries(rest).contains(e) {
            let i = choose|i: int| 0 <= i < rest.len() && (#[trigger] rest[i]).entries.contains(e);
            assert(buckets[i].entries.contains(e));
        }
        if last.contains(e) {
            assert(buckets[buckets.len() - 1].entries.contains(e));
        }
        if exists|i: int| 0 <= i < buckets.len() && (#[trigger] buckets[i]).entries.contains(e) {
            let i = choose|i: int|
                0 <= i < buckets.len() && (#[trigger] buckets[i]).entries.contains(e);
            if i < rest.len() {
                assert(rest[i].entries.contains(e));
            }
        }
    }
}

/// Filtering every bucket is filtering all nodes.
proof fn lemma_all_entries_evicted(buckets: Seq<BucketModel>, now: u32)
    ensures
        all_entries(evicted(buckets, now)) == all_entries(buckets).filter(lasting(now)),
    decreases buckets.len(),
{
    if buckets.len() == 0 {
        reveal(Seq::filter);
        assert(all_entries(evicted(buckets, now)) =~= all_entries(buckets).filter(lasting(now)));
    } else {
        let rest = buckets.drop_last();
        lemma_all_entries_evicted(rest, now);
        assert(evicted(buckets, now).drop_last() =~= evicted(rest, now));
        Seq::filter_distributes_over_add(
            all_entries(rest),
            buckets.last().entries,
            lasting(now),
        );
    }
}

impl RoutingTable {
    /// The position of the first bucket that holds a node with address `addr`.
    fn find_holding(&self, addr: &CompactAddr) -> (r: Option<usize>)
        ensures
            r matches Some(i) ==> i == first_where(self.buckets(), holding(*addr)) && i
                < self.buckets().len(),
            r is None ==> first_where(self.buckets(), holding(*addr)) == self.buckets().len(),
    {
        let mut i: usize = 0;
        while i < self.buckets.len()
            invariant
                i <= self.buckets.len(),
                forall|j: int| 0 <= j < i ==> !holding(*addr)(#[trigger] self.buckets()[j]),
            decreases self.buckets.len() - i,
        {
            if self.buckets[i].find(addr).is_some() {
                proof {
                    lemma_first_where_at(self.buckets(), holding(*addr), i as int);
                }
                return Some(i);
            }
            i += 1;
        }
        proof {
            lemma_first_where_at(self.buckets(), holding(*addr), i as int);
        }
        None
    }

    /// Takes out a node with address `addr`. Returns whether there was one.
    pub fn remove(&mut self, addr: &CompactAddr) -> (r: bool)
        requires
            old(self).wf(),
        ensures
            final(self).wf(),
            final(self).own() == old(self).own(),
            final(self).start() == old(self).start(),
            r == knows(old(self).buckets(), *addr),
            final(self).buckets() == table_without(old(self).buckets(), *addr),
            r ==> node_total(final(self).buckets()) == node_total(old(self).buckets()) - 1,
    {
        let ghost before = self.buckets();
        proof {
            lemma_knows(before, *addr);
        }
        match self.find_holding(addr) {
            Some(i) => {
                proof {
                    assert(before[i as int].valid());
                    lemma_first_where(before, holding(*addr));
                    lemma_first_where(before[i as int].entries, at_addr(*addr));
                }
                let gone: Option<RoutingEntry> = self.buckets[i].remove(addr);
                proof {
                    let b = self.buckets[i as int]@;
                    assert(self.buckets() =~= before.update(i as int, b));
                    lemma_total_update(before, i as int, b);
                    let at = first_where(before[i as int].entries, at_addr(*addr));
                    before[i as int].entries.remove_ensures(at);
                    assert(b.valid());
                }
                self.total_nodes = self.total_nodes - 1;
                gone.is_some()
            },
            None => false,
        }
    }

    /// Notes at time `now` that the node with address `addr` answered. Returns whether it is known.
    pub fn touch_at(&mut self, addr: &CompactAddr, now: u32) -> (r: bool)
        requires
            old(self).wf(),
        ensures
            final(self).wf(),
            final(self).own() == old(self).own(),
            final(self).start() == old(self).start(),
            r == knows(old(self).buckets(), *addr),
            final(self).buckets() == table_touched(old(self).buckets(), *addr, now),
            node_total(final(self).buckets()) == node_total(old(self).buckets()),
    {
        let ghost before = self.buckets();
        proof {
            lemma_knows(before, *addr);
        }
        match self.find_holding(addr) {
            Some(i) => {
                proof {
                    assert(before[i as int].valid());
                    lemma_first_where(before, holding(*addr));
                    let entries = before[i as int].entries;
                    let at = first_where(entries, at_addr(*addr));
                    lemma_first_where(entries, at_addr(*addr));
                    let changed = entries.update(at, seen_at(entries[at], now));
                    assert(distinct_addrs(changed)) by {
                        assert forall|p: int, q: int|
                            #![trigger changed[p], changed[q]]
                            0 <= p < q < changed.len() implies changed[p].addr
                            != changed[q].addr by {
                            assert(entries[p].addr != entries[q].addr);
                        }
                    }
                    lemma_sorted_bucket(changed);
                }
                let known: bool = self.buckets[i].touch(addr, now);
                proof {
                    let b = self.buckets[i as int]@;
                    assert(self.buckets() =~= before.update(i as int, b));
                    lemma_total_update(before, i as int, b);
                    assert(b.valid());
                }
                known
            },
            None => false,
        }
    }

    /// Notes that the node with address `addr` answered just now. Returns whether it is known.
    pub fn touch(&mut self, addr: &CompactAddr) -> (r: bool)
        requires
            old(self).wf(),
        ensures
            final(self).wf(),
            final(self).own() == old(self).own(),
            final(self).start() == old(self).start(),
            r == knows(old(self).buckets(), *addr),
            exists|now: Instant|
                final(self).buckets() == #[trigger] table_touched(
                    old(self).buckets(),
                    *addr,
                    secs_since(old(self).start(), now),
                ),
            node_total(final(self).buckets()) == node_total(old(self).buckets()),
    {
        let now: u32 = self.now_secs();
        self.touch_at(addr, now)
    }

    /// Notes that the node with address `addr` failed. Returns whether it is known.
    pub fn mark_failed(&mut self, addr: &CompactAddr) -> (r: bool)
        requires
            old(self).wf(),
        ensures
            final(self).wf(),
            final(self).own() == old(self).own(),
            final(self).start() == old(self).start(),
            r == knows(old(self).buckets(), *addr),
            final(self).buckets() == table_failed(old(self).buckets(), *addr),
            node_total(final(self).buckets()) == node_total(old(self).buckets()),
    {
        let ghost before = self.buckets();
        proof {
            lemma_knows(before, *addr);
        }
        match self.find_holding(addr) {
            Some(i) => {
                proof {
                    assert(before[i as int].valid());
                    lemma_first_where(before, holding(*addr));
                    lemma_first_where(before[i as int].entries, at_addr(*addr));
                }
                let known: bool = self.buckets[i].mark_failed(addr);
                proof {
                    let entries = before[i as int].entries;
                    let b = self.buckets[i as int]@;
                    assert(self.buckets() =~= before.update(i as int, b));
                    lemma_total_update(before, i as int, b);
                    assert(b.valid()) by {
                        assert forall|p: int, q: int|
                            #![trigger b.entries[p], b.entries[q]]
                            0 <= p < q < b.entries.len() implies b.entries[p].addr
                            != b.entries[q].addr by {
                            assert(entries[p].addr != entries[q].addr);
                        }
                        assert forall|p: int, q: int|
                            #![trigger b.entries[p], b.entries[q]]
                            0 <= p <= q < b.entries.len() implies b.entries[p].rank()
                            <= b.entries[q].rank() by {
                            assert(entries[p].rank() <= entries[q].rank());
                        }
                    }
                }
                known
            },
            None => false,
        }
    }

    /// All nodes.
    pub fn all_nodes(&self) -> (r: Vec<RoutingEntry>)
        ensures
            r@ == all_entries(self.buckets()),
    {
        let mut out: Vec<RoutingEntry> = Vec::new();
        let mut i: usize = 0;
        while i < self.buckets.len()
            invariant
                i <= self.buckets.len(),
                out@ == all_entries(self.buckets().take(i as int)),
            decreases self.buckets.len() - i,
        {
            let ghost so_far = out@;
            let mut k: usize = 0;
            while k < self.buckets[i].entries.len()
                invariant
                    i < self.buckets.len(),
                    k <= self.buckets[i as int].entries@.len(),
                    out@ == so_far + self.buckets[i as int].entries@.take(k as int),
                decreases self.buckets[i as int].entries@.len() - k,
            {
                out.push(self.buckets[i].entries[k]);
                k += 1;
                assert(out@ =~= so_far + self.buckets[i as int].entries@.take(k as int));
            }
            proof {
                let e = self.buckets[i as int].entries@;
                assert(e.take(k as int) =~= e);
                assert(self.buckets().take(i + 1).drop_last() =~= self.buckets().take(i as int));
                assert(self.buckets().take(i + 1).last().entries == e);
            }
            i += 1;
        }
        assert(self.buckets().take(i as int) =~= self.buckets());
        out
    }

    /// The healthy nodes.
    pub fn healthy_nodes(&self) -> (r: Vec<RoutingEntry>)
        ensures
            r@ == all_entries(self.buckets()).filter(is_well()),
    {
        let all: Vec<RoutingEntry> = self.all_nodes();
        let mut out: Vec<RoutingEntry> = Vec::new();
        let mut i: usize = 0;
        assert(all@.take(0).filter(is_well()) =~= Seq::empty()) by {
            reveal(Seq::filter);
        }
        while i < all.len()
            invariant
                i <= all.len(),
                out@ == all@.take(i as int).filter(is_well()),
            decreases all.len() - i,
        {
            proof {
                lemma_filter_step(all@, i as int, is_well());
            }
            if all[i].is_healthy() {
                out.push(all[i]);
            }
            i += 1;
        }
        assert(all@.take(i as int) =~= all@);
        out
    }

    /// The `count` healthy nodes closest to `target`, nearest first.
    pub fn find_closest(&self, target: &[u8; 20], count: usize) -> (r: Vec<RoutingEntry>)
        ensures
            r@ == closest_of(
                all_entries(self.buckets()).filter(is_well()),
                *target,
                count as int,
            ),
    {
        let healthy: Vec<RoutingEntry> = self.healthy_nodes();
        closest(&healthy, target, count)
    }

    /// Drops the nodes that are unhealthy or expired at time `now` and returns their number.
    pub fn evict_expired_at(&mut self, now: u32) -> (r: usize)
        requires
            old(self).wf(),
        ensures
            final(self).wf(),
            final(self).own() == old(self).own(),
            final(self).start() == old(self).start(),
            final(self).buckets() == evicted(old(self).buckets(), now),
            all_entries(final(self).buckets()) == all_entries(old(self).buckets()).filter(
                lasting(now),
            ),
            r == node_total(old(self).buckets()) - node_total(final(self).buckets()),
    {
        let ghost before = self.buckets();
        let ghost own = self.own();
        let ghost start = self.start();
        let mut gone: usize = 0;
        let mut i: usize = 0;
        while i < self.buckets.len()
            invariant
                i <= self.buckets.len() == before.len(),
                self.own() == own,
                self.start() == start,
                self.total_nodes == node_total(before),
                valid_buckets(before),
                forall|j: int|
                    0 <= j < i ==> (#[trigger] self.buckets()[j]) == evicted(before, now)[j],
                forall|j: int| i <= j < before.len() ==> (#[trigger] self.buckets()[j]) == before[j],
                gone + node_total(self.buckets()) == node_total(before),
                valid_buckets(self.buckets()),
            decreases self.buckets.len() - i,
        {
            let ghost mid = self.buckets();
            proof {
                assert(before[i as int].valid());
                lemma_filter_keeps(before[i as int].entries, lasting(now));
                assert(mid[i as int] == before[i as int]);
            }
            let n: usize = self.buckets[i].evict(now);
            proof {
                let b = self.buckets[i as int]@;
                assert(self.buckets() =~= mid.update(i as int, b));
                lemma_total_update(mid, i as int, b);
                assert(b.valid());
            }
            gone = gone + n;
            i += 1;
        }
        proof {
            assert(self.buckets() =~= evicted(before, now));
            lemma_all_entries_evicted(before, now);
        }
        self.total_nodes = self.total_nodes - gone;
        gone
    }

    /// Drops the nodes that are unhealthy or expired now and returns their number.
    pub fn evict_expired(&mut self) -> (r: usize)
        requires
            old(self).wf(),
        ensures
            final(self).wf(),
            final(self).own() == old(self).own(),
            final(self).start() == old(self).start(),
            exists|now: Instant|
                final(self).buckets() == #[trigger] evicted(
                    old(self).buckets(),
                    secs_since(old(self).start(), now),
                ),
            r == node_total(old(self).buckets()) - node_total(final(self).buckets()),
    {
        let now: u32 = self.now_secs();
        self.evict_expired_at(now)
    }

    /// Of each bucket the address of the least recently seen healthy node that has not been seen
    /// for more than [`REFRESH_SECS`] at time `now`.
    pub fn refresh_candidates_at(&self, now: u32) -> (r: Vec<CompactAddr>)
        ensures
            r@ == refresh_addrs(self.buckets(), now),
    {
        let mut out: Vec<CompactAddr> = Vec::new();
        let mut i: usize = 0;
        while i < self.buckets.len()
            invariant
                i <= self.buckets.len(),
                out@ == refresh_addrs(self.buckets().take(i as int), now),
            decreases self.buckets.len() - i,
        {
            let ghost entries = self.buckets[i as int].entries@;
            let ghost p = refresh_due(now);
            let len: usize = self.buckets[i].entries.len();
            let mut k: usize = 0;
            while k < len && !(self.buckets[i].entries[k].is_healthy() && now.saturating_sub(
                self.buckets[i].entries[k].last_seen,
            ) > REFRESH_SECS)
                invariant
                    i < self.buckets.len(),
                    entries == self.buckets[i as int].entries@,
                    k <= len == entries.len(),
                    p == refresh_due(now),
                    forall|j: int| 0 <= j < k ==> !p(#[trigger] entries[j]),
                decreases len - k,
            {
                k += 1;
            }
            proof {
                lemma_first_where_at(entries, p, k as int);
                assert(self.buckets().take(i + 1).drop_last() =~= self.buckets().take(i as int));
                assert(self.buckets().take(i + 1).last().entries == entries);
            }
            if k < len {
                out.push(self.buckets[i].entries[k].addr);
            }
            i += 1;
        }
        assert(self.buckets().take(i as int) =~= self.buckets());
        out
    }

    /// Of each bucket the address of the least recently seen healthy node that has not been seen
    /// for more than [`REFRESH_SECS`].
    pub fn refresh_candidates(&self) -> (r: Vec<CompactAddr>)
        ensures
            exists|now: Instant| r@ == #[trigger] refresh_addrs(
                self.buckets(),
                secs_since(self.start(), now),
            ),
    {
        let now: u32 = self.now_secs();
        self.refresh_candidates_at(now)
    }
}

/// A node whose insertion succeeded is in the table.
pub proof fn law_inserted_node_is_found(
    buckets: Seq<BucketModel>,
    own: [u8; 20],
    e: RoutingEntry,
)
    requires
        valid_buckets(buckets),
        table_with(buckets, own, e).1,
    ensures
        all_entries(table_with(buckets, own, e).0).contains(e),
    decreases MAX_BUCKETS - buckets.len(),
{
    let bits = common_prefix(own, e.id);
    let after = table_with(buckets, own, e).0;
    let i = bucket_for(buckets, bits);
    lemma_bucket_for(buckets, bits);
    assert(buckets[i].valid());
    lemma_bucket_with(buckets[i].entries, e);
    lemma_all_entries_contains(after, e);
    match bucket_with(buckets[i].entries, e) {
        Some(entries) => {
            assert(after[i].entries.contains(e));
        },
        None => {
            lemma_split(buckets, own, i);
            law_inserted_node_is_found(split_at(buckets, own, i), own, e);
        },
    }
}

/// A bucket after an insertion holds what it held and the new node, without the node that made room
/// for it.
proof fn lemma_bucket_contains(entries: Seq<RoutingEntry>, e: RoutingEntry, x: RoutingEntry)
    requires
        distinct_addrs(entries),
        entries.len() <= K,
    ensures
        bucket_with(entries, e) matches Some(after) ==> {
            &&& after.contains(x) ==> x == e || entries.contains(x)
            &&& entries.contains(x) && x.addr != e.addr && !replaceable(e.last_seen)(x)
                ==> after.contains(x)
        },
{
    let known = first_where(entries, at_addr(e.addr));
    let stale = first_where(entries, replaceable(e.last_seen));
    lemma_first_where(entries, at_addr(e.addr));
    lemma_first_where(entries, replaceable(e.last_seen));
    if bucket_with(entries, e) is Some {
        let before = if known < entries.len() {
            entries.update(known, e)
        } else if entries.len() < K {
            entries.push(e)
        } else {
            entries.update(stale, e)
        };
        lemma_stable_sort_exists(before);
        vstd::seq_lib::to_multiset_contains(before, x);
        vstd::seq_lib::to_multiset_contains(stable_sorted(before), x);
        if before.contains(x) && x != e {
            let i = choose|i: int| 0 <= i < before.len() && before[i] == x;
            assert(entries[i] == x);
        }
        if entries.contains(x) && x.addr != e.addr && !replaceable(e.last_seen)(x) {
            let i = choose|i: int| 0 <= i < entries.len() && entries[i] == x;
            if known < entries.len() {
                assert(at_addr(e.addr)(entries[known]));
            }
            assert(before[i] == x);
        }
    }
}

/// An insertion brings in no node but the new one, and takes none out but those with its address and
/// those that may be replaced.
pub proof fn law_insertion_leaves_the_others(
    buckets: Seq<BucketModel>,
    own: [u8; 20],
    e: RoutingEntry,
    x: RoutingEntry,
)
    requires
        valid_buckets(buckets),
    ensures
        all_entries(table_with(buckets, own, e).0).contains(x) ==> x == e || all_entries(
            buckets,
        ).contains(x),
        all_entries(buckets).contains(x) && x.addr != e.addr && !replaceable(e.last_seen)(x)
            ==> all_entries(table_with(buckets, own, e).0).contains(x),
    decreases MAX_BUCKETS - buckets.len(),
{
    let bits = common_prefix(own, e.id);
    let i = bucket_for(buckets, bits);
    lemma_bucket_for(buckets, bits);
    assert(buckets[i].valid());
    match bucket_with(buckets[i].entries, e) {
        Some(entries) => {
            lemma_one_bucket_changed(buckets, i, e, entries, x);
        },
        None => {
            if can_split(buckets, i) {
                lemma_split(buckets, own, i);
                lemma_split_contains(buckets, own, i, x);
                law_insertion_leaves_the_others(split_at(buckets, own, i), own, e, x);
            }
        },
    }
}

proof fn lemma_one_bucket_changed(
    buckets: Seq<BucketModel>,
    i: int,
    e: RoutingEntry,
    entries: Seq<RoutingEntry>,
    x: RoutingEntry,
)
    requires
        valid_buckets(buckets),
        0 <= i < buckets.len(),
        bucket_with(buckets[i].entries, e) == Some(entries),
    ensures
        all_entries(with_entries(buckets, i, entries)).contains(x) ==> x == e || all_entries(
            buckets,
        ).contains(x),
        all_entries(buckets).contains(x) && x.addr != e.addr && !replaceable(e.last_seen)(x)
            ==> all_entries(with_entries(buckets, i, entries)).contains(x),
{
    let after = with_entries(buckets, i, entries);
    assert(buckets[i].valid());
    lemma_bucket_contains(buckets[i].entries, e, x);
    lemma_all_entries_contains(buckets, x);
    lemma_all_entries_contains(after, x);
    if all_entries(after).contains(x) {
        let j = choose|j: int| 0 <= j < after.len() && (#[trigger] after[j]).entries.contains(x);
        if j != i {
            assert(buckets[j].entries.contains(x));
        } else if x != e {
            assert(buckets[i].entries.contains(x));
        }
    }
    if all_entries(buckets).contains(x) && x.addr != e.addr && !replaceable(e.last_seen)(x) {
        let j = choose|j: int| 0 <= j < buckets.len() && (#[trigger] buckets[j]).entries.contains(x);
        assert(after[j].entries.contains(x));
    }
}

/// A refused insertion leaves the table with just the nodes that it had.
pub proof fn law_refused_insertion_keeps_nodes(
    buckets: Seq<BucketModel>,
    own: [u8; 20],
    e: RoutingEntry,
)
    requires
        valid_buckets(buckets),
        !table_with(buckets, own, e).1,
    ensures
        all_entries(table_with(buckets, own, e).0).to_multiset() == all_entries(
            buckets,
        ).to_multiset(),
    decreases MAX_BUCKETS - buckets.len(),
{
    let bits = common_prefix(own, e.id);
    let i = bucket_for(buckets, bits);
    lemma_bucket_for(buckets, bits);
    if can_split(buckets, i) {
        lemma_split(buckets, own, i);
        lemma_split_multiset(buckets, own, i);
        law_refused_insertion_keeps_nodes(split_at(buckets, own, i), own, e);
    }
}

/// Splitting a bucket loses no node and adds none.
proof fn lemma_split_multiset(buckets: Seq<BucketModel>, own: [u8; 20], i: int)
    requires
        0 <= i < buckets.len(),
    ensures
        all_entries(split_at(buckets, own, i)).to_multiset() == all_entries(buckets).to_multiset(),
{
    let bits = (i + 1) as nat;
    let after = split_at(buckets, own, i);
    if i == buckets.len() - 1 && bits < MAX_BUCKETS {
        let entries = buckets[i].entries;
        let low = entries.filter(not_sharing(own, bits));
        let high = entries.filter(sharing(own, bits));
        let rest = all_entries(buckets.drop_last());
        let kept = with_entries(buckets, i, low);
        assert(after.drop_last() =~= kept);
        assert(kept.drop_last() =~= buckets.drop_last());
        assert(all_entries(kept) =~= rest + low);
        assert(all_entries(after) =~= (rest + low) + high);
        lemma_halves(entries, own, bits);
        vstd::seq_lib::lemma_multiset_commutative(rest, low);
        vstd::seq_lib::lemma_multiset_commutative(rest + low, high);
        vstd::seq_lib::lemma_multiset_commutative(rest, entries);
        assert(all_entries(after).to_multiset() =~= all_entries(buckets).to_multiset());
    }
}

/// Splitting a bucket changes which bucket a node is in, not which nodes there are.
pub proof fn lemma_split_contains(
    buckets: Seq<BucketModel>,
    own: [u8; 20],
    i: int,
    x: RoutingEntry,
)
    requires
        valid_buckets(buckets),
        0 <= i < buckets.len(),
    ensures
        all_entries(split_at(buckets, own, i)).contains(x) <==> all_entries(buckets).contains(x),
{
    let bits = (i + 1) as nat;
    let entries = buckets[i].entries;
    assert(buckets[i].valid());
    let after = split_at(buckets, own, i);
    lemma_all_entries_contains(buckets, x);
    lemma_all_entries_contains(after, x);
    if i == buckets.len() - 1 && bits < MAX_BUCKETS {
        lemma_filter_keeps(entries, sharing(own, bits));
        lemma_filter_keeps(entries, not_sharing(own, bits));
        let last = buckets.len() as int;
        if all_entries(after).contains(x) {
            let j = choose|j: int| 0 <= j < after.len() && (#[trigger] after[j]).entries.contains(x);
            if j == i || j == last {
                assert(buckets[i].entries.contains(x));
            } else {
                assert(buckets[j].entries.contains(x));
            }
        }
        if all_entries(buckets).contains(x) {
            let j = choose|j: int|
                0 <= j < buckets.len() && (#[trigger] buckets[j]).entries.contains(x);
            if j == i && sharing(own, bits)(x) {
                assert(after[last].entries.contains(x));
            } else {
                if j == i {
                    assert(not_sharing(own, bits)(x));
                }
                assert(after[j].entries.contains(x));
            }
        }
    }
}

/// A full bucket off the path of the own identifier refuses a node that none of its nodes makes room
/// for, and the whole table stays as it is.
pub proof fn law_far_bucket_is_never_split(
    buckets: Seq<BucketModel>,
    own: [u8; 20],
    e: RoutingEntry,
)
    requires
        valid_buckets(buckets),
        common_prefix(own, e.id) < buckets.len() - 1,
        bucket_with(buckets[common_prefix(own, e.id) as int].entries, e) is None,
    ensures
        table_with(buckets, own, e) == (buckets, false),
{
}

/// After an eviction at time `now` exactly the healthy nodes that have not expired are left.
pub proof fn law_eviction(buckets: Seq<BucketModel>, now: u32, e: RoutingEntry)
    ensures
        all_entries(evicted(buckets, now)).contains(e) <==> all_entries(buckets).contains(e)
            && e.healthy() && !e.expired(now),
{
    lemma_all_entries_evicted(buckets, now);
    let all = all_entries(buckets);
    if all.filter(lasting(now)).contains(e) {
        all.lemma_filter_contains_rev(lasting(now), e);
        let i = choose|i: int|
            0 <= i < all.filter(lasting(now)).len() && all.filter(lasting(now))[i] == e;
        all.lemma_filter_pred(lasting(now), i);
    }
    if all.contains(e) && e.healthy() && !e.expired(now) {
        let i = choose|i: int| 0 <= i < all.len() && all[i] == e;
        all.lemma_filter_contains(lasting(now), i);
    }
}

/// Every node that the table offers as close to a target is a healthy node of the table.
pub proof fn law_closest_nodes_are_healthy(
    buckets: Seq<BucketModel>,
    target: [u8; 20],
    count: nat,
    i: int,
)
    requires
        0 <= i < closest_of(all_entries(buckets).filter(is_well()), target, count as int).len(),
    ensures
        closest_of(all_entries(buckets).filter(is_well()), target, count as int)[i].healthy(),
        all_entries(buckets).contains(
            closest_of(all_entries(buckets).filter(is_well()), target, count as int)[i],
        ),
{
    let all = all_entries(buckets);
    let well = all.filter(is_well());
    law_closest(well, target, count);
    let e = closest_of(well, target, count as int)[i];
    assert(well.contains(e));
    all.lemma_filter_contains_rev(is_well(), e);
    let k = choose|k: int| 0 <= k < well.len() && well[k] == e;
    all.lemma_filter_pred(is_well(), k);
}

/// The number that the table reports is the number of nodes that it lists.
pub proof fn law_total_counts_all_nodes(buckets: Seq<BucketModel>)
    ensures
        node_total(buckets) == all_entries(buckets).len(),
{
    lemma_all_entries_len(buckets);
}

/// A node is healthy until it has failed three times in a row. It expires when it was not seen for
/// more than an hour, and a healthy one is to be asked again when it was not seen for more than five
/// minutes. An answer clears its failures, a failure adds one.
pub proof fn law_health_of_a_node(e: RoutingEntry, now: u32)
    ensures
        e.healthy() <==> e.failures <= 2,
        e.expired(now) <==> now - e.last_seen > 3600,
        refresh_due(now)(e) <==> e.failures <= 2 && now - e.last_seen > 300,
        replaceable(now)(e) <==> e.failures >= 3 || now - e.last_seen > 3600,
        lasting(now)(e) <==> !replaceable(now)(e),
        seen_at(e, now).id == e.id && seen_at(e, now).addr == e.addr,
        seen_at(e, now).last_seen == now && seen_at(e, now).failures == 0,
        failed_once(e).id == e.id && failed_once(e).addr == e.addr,
        failed_once(e).last_seen == e.last_seen,
        e.failures < 255 ==> failed_once(e).failures == e.failures + 1,
        e.failures == 255 ==> failed_once(e).failures == 255,
{
}

/// A node comes into the bucket for the bits that it shares with the own identifier, or into the last
/// bucket if there is none for so many: always if that bucket has fewer than 20 nodes, has the
/// address already, or has a node that failed three times or was not seen for an hour. The other
/// buckets stay as they are, and only a new address in a bucket with room makes the bucket longer.
pub proof fn law_who_comes_in(buckets: Seq<BucketModel>, own: [u8; 20], e: RoutingEntry, i: int)
    requires
        valid_buckets(buckets),
        0 <= i < buckets.len(),
        i == common_prefix(own, e.id) || (i == buckets.len() - 1 && i < common_prefix(own, e.id)),
        buckets[i].entries.len() < 20 || exists|k: int|
            0 <= k < buckets[i].entries.len() && ((#[trigger] buckets[i].entries[k]).addr == e.addr
                || buckets[i].entries[k].failures >= 3 || e.last_seen
                - buckets[i].entries[k].last_seen > 3600),
    ensures
        ({
            let before = buckets[i].entries;
            let r = table_with(buckets, own, e);
            let after = r.0[i].entries;
            &&& r.1
            &&& r.0.len() == buckets.len()
            &&& after.contains(e)
            &&& forall|j: int|
                0 <= j < buckets.len() && j != i ==> #[trigger] r.0[j] == buckets[j]
            &&& (exists|k: int| 0 <= k < before.len() && (#[trigger] before[k]).addr == e.addr)
                ==> after.len() == before.len()
            &&& !(exists|k: int| 0 <= k < before.len() && (#[trigger] before[k]).addr == e.addr)
                && before.len() < 20 ==> after.len() == before.len() + 1
            &&& forall|j: int, k: int|
                #![trigger after[j], after[k]]
                0 <= j <= k < after.len() ==> after[j].last_seen <= after[k].last_seen
        }),
{
    let before = buckets[i].entries;
    assert(buckets[i].valid());
    assert(i == bucket_for(buckets, common_prefix(own, e.id)));
    lemma_bucket_with(before, e);
    lemma_first_where(before, at_addr(e.addr));
    lemma_first_where(before, replaceable(e.last_seen));
    if before.len() >= 20 {
        let k = choose|k: int|
            0 <= k < before.len() && ((#[trigger] before[k]).addr == e.addr || before[k].failures >= 3
                || e.last_seen - before[k].last_seen > 3600);
        assert(at_addr(e.addr)(before[k]) || replaceable(e.last_seen)(before[k]));
    }
    assert(bucket_with(before, e) is Some);
    let after = table_with(buckets, own, e).0[i].entries;
    assert(after == bucket_with(before, e)->0);
    if exists|k: int| 0 <= k < before.len() && (#[trigger] before[k]).addr == e.addr {
        let k = choose|k: int| 0 <= k < before.len() && (#[trigger] before[k]).addr == e.addr;
        assert(at_addr(e.addr)(before[k]));
    }
    if first_where(before, at_addr(e.addr)) < before.len() {
        assert(before[first_where(before, at_addr(e.addr))].addr == e.addr);
    }
    assert forall|j: int, k: int|
        #![trigger after[j], after[k]]
        0 <= j <= k < after.len() implies after[j].last_seen <= after[k].last_seen by {
        assert(after[j].rank() <= after[k].rank());
    }
}

/// A full bucket without a node that can go makes room by a split if it is the last one and there
/// are fewer than 160: its nodes that share one more bit with the own identifier move to a new
/// bucket, the others stay, and the node comes in where it then belongs.
pub proof fn law_near_bucket_is_split(
    buckets: Seq<BucketModel>,
    own: [u8; 20],
    e: RoutingEntry,
    x: RoutingEntry,
)
    requires
        valid_buckets(buckets),
        buckets.len() < 160,
        common_prefix(own, e.id) >= buckets.len() - 1,
        bucket_with(buckets.last().entries, e) is None,
    ensures
        ({
            let n = buckets.len() as int;
            let split = split_at(buckets, own, n - 1);
            &&& table_with(buckets, own, e) == table_with(split, own, e)
            &&& split.len() == n + 1
            &&& split.take(n - 1) == buckets.take(n - 1)
            &&& split[n - 1].entries.contains(x) <==> buckets[n - 1].entries.contains(x)
                && common_prefix(own, x.id) < n
            &&& split[n].entries.contains(x) <==> buckets[n - 1].entries.contains(x)
                && common_prefix(own, x.id) >= n
        }),
{
    let n = buckets.len() as int;
    let split = split_at(buckets, own, n - 1);
    assert(buckets[n - 1].valid());
    lemma_filter_keeps(buckets[n - 1].entries, sharing(own, n as nat));
    lemma_filter_keeps(buckets[n - 1].entries, not_sharing(own, n as nat));
    assert(split.take(n - 1) =~= buckets.take(n - 1));
    assert(bucket_for(buckets, common_prefix(own, e.id)) == n - 1);
    assert(split[n - 1].entries == buckets[n - 1].entries.filter(not_sharing(own, n as nat)));
    assert(split[n].entries == buckets[n - 1].entries.filter(sharing(own, n as nat)));
}

/// A full bucket refuses a node only if it does not have its address and all of its nodes are healthy
/// and were seen within the hour.
pub proof fn law_who_is_refused(entries: Seq<RoutingEntry>, e: RoutingEntry)
    requires
        bucket_with(entries, e) is None,
    ensures
        entries.len() >= 20,
        forall|k: int|
            0 <= k < entries.len() ==> (#[trigger] entries[k]).addr != e.addr && entries[k].failures
                <= 2 && e.last_seen - entries[k].last_seen <= 3600,
{
    lemma_first_where(entries, at_addr(e.addr));
    lemma_first_where(entries, replaceable(e.last_seen));
    assert forall|k: int| 0 <= k < entries.len() implies (#[trigger] entries[k]).addr != e.addr
        && entries[k].failures <= 2 && e.last_seen - entries[k].last_seen <= 3600 by {
        assert(!at_addr(e.addr)(entries[k]));
        assert(!replaceable(e.last_seen)(entries[k]));
    }
}

/// One bucket with one node replaced, its nodes perhaps in another order: all other nodes stay.
proof fn lemma_one_node_changed(
    buckets: Seq<BucketModel>,
    i: int,
    k: int,
    e: RoutingEntry,
    entries: Seq<RoutingEntry>,
    x: RoutingEntry,
)
    requires
        0 <= i < buckets.len(),
        0 <= k < buckets[i].entries.len(),
        e.addr == buckets[i].entries[k].addr,
        entries.to_multiset() == buckets[i].entries.update(k, e).to_multiset(),
    ensures
        all_entries(with_entries(buckets, i, entries)).contains(e),
        x.addr != e.addr ==> (all_entries(with_entries(buckets, i, entries)).contains(x)
            <==> all_entries(buckets).contains(x)),
        all_entries(with_entries(buckets, i, entries)).contains(x) ==> x == e || all_entries(
            buckets,
        ).contains(x),
{
    let before = buckets[i].entries;
    let changed = before.update(k, e);
    let after = with_entries(buckets, i, entries);
    lemma_all_entries_contains(buckets, x);
    lemma_all_entries_contains(after, x);
    lemma_all_entries_contains(after, e);
    vstd::seq_lib::to_multiset_contains(changed, x);
    vstd::seq_lib::to_multiset_contains(entries, x);
    vstd::seq_lib::to_multiset_contains(changed, e);
    vstd::seq_lib::to_multiset_contains(entries, e);
    assert(changed[k] == e);
    assert(after[i].entries.contains(e));
    if all_entries(after).contains(x) && x != e {
        let j = choose|j: int| 0 <= j < after.len() && (#[trigger] after[j]).entries.contains(x);
        if j == i {
            let m = choose|m: int| 0 <= m < changed.len() && changed[m] == x;
            assert(before[m] == x);
            assert(buckets[i].entries.contains(x));
        } else {
            assert(buckets[j].entries.contains(x));
        }
    }
    if all_entries(buckets).contains(x) && x.addr != e.addr {
        let j = choose|j: int| 0 <= j < buckets.len() && (#[trigger] buckets[j]).entries.contains(x);
        if j == i {
            let m = choose|m: int| 0 <= m < before.len() && before[m] == x;
            assert(changed[m] == x);
            assert(after[i].entries.contains(x));
        } else {
            assert(after[j].entries.contains(x));
        }
    }
}

/// A node that is known and heard from is in the table as seen now and without failures; all others
/// stay. An address that is not known changes nothing.
pub proof fn law_heard_node_is_fresh(
    buckets: Seq<BucketModel>,
    addr: CompactAddr,
    now: u32,
    x: RoutingEntry,
)
    ensures
        ({
            let after = table_touched(buckets, addr, now);
            &&& !knows(buckets, addr) ==> after == buckets
            &&& knows(buckets, addr) ==> exists|e: RoutingEntry| #[trigger]
                all_entries(after).contains(e) && e.addr == addr && e.last_seen == now && e.failures
                    == 0
            &&& x.addr != addr ==> (all_entries(after).contains(x) <==> all_entries(
                buckets,
            ).contains(x))
        }),
{
    let i = first_where(buckets, holding(addr));
    lemma_knows(buckets, addr);
    lemma_first_where(buckets, holding(addr));
    if i < buckets.len() {
        let entries = buckets[i].entries;
        let k = first_where(entries, at_addr(addr));
        lemma_first_where(entries, at_addr(addr));
        assert(at_addr(addr)(entries[k]));
        let e = seen_at(entries[k], now);
        let sorted = stable_sorted(entries.update(k, e));
        lemma_stable_sort_exists(entries.update(k, e));
        lemma_one_node_changed(buckets, i, k, e, sorted, x);
        assert(all_entries(table_touched(buckets, addr, now)).contains(e));
    }
}

/// A node that is known and fails has one failure more; all others stay. An address that is not
/// known changes nothing.
pub proof fn law_failing_node_is_marked(buckets: Seq<BucketModel>, addr: CompactAddr, x: RoutingEntry)
    ensures
        ({
            let after = table_failed(buckets, addr);
            &&& !knows(buckets, addr) ==> after == buckets
            &&& knows(buckets, addr) ==> exists|e: RoutingEntry, f: RoutingEntry|
                {
                    &&& #[trigger] all_entries(buckets).contains(e)
                    &&& #[trigger] all_entries(after).contains(f)
                    &&& e.addr == addr && f.addr == addr
                    &&& f.id == e.id && f.last_seen == e.last_seen
                    &&& f.failures == if e.failures < 255 {
                        e.failures + 1
                    } else {
                        255
                    }
                }
            &&& x.addr != addr ==> (all_entries(after).contains(x) <==> all_entries(
                buckets,
            ).contains(x))
        }),
{
    let i = first_where(buckets, holding(addr));
    lemma_knows(buckets, addr);
    lemma_first_where(buckets, holding(addr));
    if i < buckets.len() {
        let entries = buckets[i].entries;
        let k = first_where(entries, at_addr(addr));
        lemma_first_where(entries, at_addr(addr));
        assert(at_addr(addr)(entries[k]));
        let e = failed_once(entries[k]);
        lemma_one_node_changed(buckets, i, k, e, entries.update(k, e), x);
        lemma_all_entries_contains(buckets, entries[k]);
        assert(buckets[i].entries.contains(entries[k]));
        assert(all_entries(buckets).contains(entries[k]));
        assert(all_entries(table_failed(buckets, addr)).contains(e));
    }
}

/// To take out a known address takes out one node with it and no other; an address that is not known
/// changes nothing.
pub proof fn law_removed_node_is_gone(buckets: Seq<BucketModel>, addr: CompactAddr, x: RoutingEntry)
    requires
        valid_buckets(buckets),
    ensures
        ({
            let after = table_without(buckets, addr);
            &&& !knows(buckets, addr) ==> after == buckets
            &&& knows(buckets, addr) ==> node_total(after) == node_total(buckets) - 1
            &&& x.addr != addr ==> (all_entries(after).contains(x) <==> all_entries(
                buckets,
            ).contains(x))
            &&& all_entries(after).contains(x) ==> all_entries(buckets).contains(x)
        }),
{
    let i = first_where(buckets, holding(addr));
    lemma_knows(buckets, addr);
    lemma_first_where(buckets, holding(addr));
    if i < buckets.len() {
        let before = buckets[i].entries;
        let k = first_where(before, at_addr(addr));
        lemma_first_where(before, at_addr(addr));
        assert(at_addr(addr)(before[k]));
        let rest = before.remove(k);
        let after = table_without(buckets, addr);
        lemma_total_update(
            buckets,
            i,
            BucketModel { prefix_len: buckets[i].prefix_len, entries: rest },
        );
        lemma_all_entries_contains(buckets, x);
        lemma_all_entries_contains(after, x);
        if all_entries(after).contains(x) {
            let j = choose|j: int| 0 <= j < after.len() && (#[trigger] after[j]).entries.contains(x);
            if j == i {
                let m = choose|m: int| 0 <= m < rest.len() && rest[m] == x;
                assert(before[if m < k { m } else { m + 1 }] == x);
                assert(buckets[i].entries.contains(x));
            } else {
                assert(buckets[j].entries.contains(x));
            }
        }
        if all_entries(buckets).contains(x) && x.addr != addr {
            let j = choose|j: int|
                0 <= j < buckets.len() && (#[trigger] buckets[j]).entries.contains(x);
            if j == i {
                let m = choose|m: int| 0 <= m < before.len() && before[m] == x;
                assert(rest[if m < k { m } else { m - 1 }] == x);
                assert(after[i].entries.contains(x));
            } else {
                assert(after[j].entries.contains(x));
            }
        }
    }
}

/// Whether a bucket has a healthy node with address `addr` that was not seen for five minutes.
pub open spec fn wants_refresh(b: BucketModel, addr: CompactAddr, now: u32) -> bool {
    exists|k: int|
        0 <= k < b.entries.len() && (#[trigger] b.entries[k]).addr == addr && b.entries[k].failures <= 2
            && now - b.entries[k].last_seen > 300
}

/// To refresh the table, nobody is asked but a healthy node of some bucket that was not seen for five
/// minutes.
pub proof fn law_who_is_asked_to_refresh(buckets: Seq<BucketModel>, now: u32, j: int)
    requires
        0 <= j < refresh_addrs(buckets, now).len(),
    ensures
        refresh_addrs(buckets, now).len() <= buckets.len(),
        exists|i: int|
            0 <= i < buckets.len() && wants_refresh(
                #[trigger] buckets[i],
                refresh_addrs(buckets, now)[j],
                now,
            ),
    decreases buckets.len(),
{
    let rest = buckets.drop_last();
    let last = buckets.last();
    let before = refresh_addrs(rest, now);
    let due = first_where(last.entries, refresh_due(now));
    lemma_first_where(last.entries, refresh_due(now));
    lemma_refresh_len(buckets, now);
    if j < before.len() {
        law_who_is_asked_to_refresh(rest, now, j);
        let i = choose|i: int|
            0 <= i < rest.len() && wants_refresh(#[trigger] rest[i], before[j], now);
        assert(wants_refresh(buckets[i], before[j], now));
    } else {
        assert(refresh_due(now)(last.entries[due]));
        assert(wants_refresh(last, last.entries[due].addr, now));
        assert(buckets[buckets.len() - 1] == last);
    }
}

proof fn lemma_refresh_len(buckets: Seq<BucketModel>, now: u32)
    ensures
        refresh_addrs(buckets, now).len() <= buckets.len(),
    decreases buckets.len(),
{
    if buckets.len() > 0 {
        lemma_refresh_len(buckets.drop_last(), now);
    }
}

/// Every bucket with a healthy node that was not seen for five minutes has one of them asked.
pub proof fn law_every_bucket_is_refreshed(
    buckets: Seq<BucketModel>,
    now: u32,
    i: int,
    addr: CompactAddr,
)
    requires
        0 <= i < buckets.len(),
        wants_refresh(buckets[i], addr, now),
    ensures
        exists|j: int|
            0 <= j < refresh_addrs(buckets, now).len() && wants_refresh(
                buckets[i],
                #[trigger] refresh_addrs(buckets, now)[j],
                now,
            ),
    decreases buckets.len(),
{
    let rest = buckets.drop_last();
    let last = buckets.last();
    let before = refresh_addrs(rest, now);
    let all = refresh_addrs(buckets, now);
    let due = first_where(last.entries, refresh_due(now));
    lemma_first_where(last.entries, refresh_due(now));
    if i < rest.len() {
        law_every_bucket_is_refreshed(rest, now, i, addr);
        let j = choose|j: int|
            0 <= j < before.len() && wants_refresh(rest[i], #[trigger] before[j], now);
        assert(all[j] == before[j]);
    } else {
        let k = choose|k: int|
            0 <= k < last.entries.len() && (#[trigger] last.entries[k]).addr == addr
                && last.entries[k].failures <= 2 && now - last.entries[k].last_seen > 300;
        assert(refresh_due(now)(last.entries[k]));
        assert(refresh_due(now)(last.entries[due]));
        assert(last.entries[due].addr == all[all.len() - 1]);
        assert(wants_refresh(buckets[i], all[all.len() - 1], now));
    }
}

/// Identifiers of nodes with IPv6 addresses are not restricted; those of nodes with IPv4 addresses have
/// to begin as the checksum of the masked address does.
pub proof fn law_which_identifiers_are_good(id: [u8; 20], ip: IpAddr)
    ensures
        ip is V6 ==> id_matches(id, ip),
        ip matches IpAddr::V4(v4) ==> (id_matches(id, ip) <==> forall|j: int|
            0 <= j < 21 ==> #[trigger] bit_at(id@, j) == bit_at(
                be_bytes(
                    crc32_of(seq![v4[0] & 0x03, v4[1] & 0x0f, v4[2] & 0x3f, v4[3]]) as nat,
                    4,
                ),
                j,
            )),
{
    if let IpAddr::V4(v4) = ip {
        assert(id_checksum(v4) == be_bytes(crc32_of(masked_ip(v4)) as nat, 4));
        if id_matches_v4(id, v4) {
            assert forall|j: int| 0 <= j < 21 implies #[trigger] bit_at(id@, j) == bit_at(
                id_checksum(v4),
                j,
            ) by {}
        }
        if forall|j: int|
            0 <= j < 21 ==> #[trigger] bit_at(id@, j) == bit_at(id_checksum(v4), j) {
            assert forall|j: int| 0 <= j < 21 implies bit_at(id@, j) == #[trigger] bit_at(
                id_checksum(v4),
                j,
            ) by {
                assert(bit_at(id@, j) == bit_at(id_checksum(v4), j));
            }
        }
    }
}

} // verus!
