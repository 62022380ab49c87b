//! UDP trackers (BEP 15), as a client sees them.
//!
//! A request is sent and its answer awaited by the caller; [`Retry`] says how long to wait and when
//! to send again.

use crate::bytes::{
    be_bytes, be_value, lemma_be_bytes_len, lemma_be_round_trip, lemma_byte_capacity_values, put_be, put_bytes, read_be,
    sub_vec,
};
use crate::clock::NANOS_PER_SEC;
use crate::compact::{peers_of, read_compact_peers};
use crate::net::SocketAddr;
use crate::random::random_bytes;
use crate::text::{chars_of, lossy_text, occurs_at, part_at, sub_text, text_lossy};
use crate::types::Infohash;
use vstd::prelude::*;
use vstd::string::*;
use vstd::utf8::{encode_utf8, valid_utf8};

verus! {

/// The number by which a connection request is known.
pub const PROTOCOL_ID: u64 = 0x41727101980;

pub const ACTION_CONNECT: u32 = 0;

pub const ACTION_ANNOUNCE: u32 = 1;

pub const ACTION_ERROR: u32 = 3;

/// How often a request is sent.
pub const MAX_RETRIES: u32 = 8;

/// Seconds to wait for the first answer.
pub const INITIAL_TIMEOUT_SECS: u64 = 15;

/// The bytes of a connection request.
pub open spec fn connect_request(transaction_id: u32) -> Seq<u8> {
    be_bytes(PROTOCOL_ID as nat, 8) + be_bytes(ACTION_CONNECT as nat, 4) + be_bytes(
        transaction_id as nat,
        4,
    )
}

/// The bytes of an announcement: nothing was transferred, no event, the sender's own address, and
/// as many peers as the tracker likes.
pub open spec fn announce_request(
    connection_id: u64,
    transaction_id: u32,
    infohash: Seq<u8>,
    peer_id: Seq<u8>,
    listen_port: u16,
    key: u32,
) -> Seq<u8> {
    be_bytes(connection_id as nat, 8) + be_bytes(ACTION_ANNOUNCE as nat, 4) + be_bytes(
        transaction_id as nat,
        4,
    ) + infohash + peer_id + be_bytes(0, 8) + be_bytes(0, 8) + be_bytes(0, 8) + be_bytes(0, 4)
        + be_bytes(0, 4) + be_bytes(key as nat, 4) + be_bytes(0xFFFF_FFFF, 4) + be_bytes(
        listen_port as nat,
        2,
    )
}

/// The action of an answer.
pub open spec fn action_of(data: Seq<u8>) -> nat {
    be_value(data.subrange(0, 4))
}

/// The transaction of an answer.
pub open spec fn transaction_of(data: Seq<u8>) -> nat {
    be_value(data.subrange(4, 8))
}

/// Why an answer is no use.
#[derive(Debug)]
pub enum UdpTrackerError {
    /// The answer has only so many bytes.
    TooShort(usize),
    /// The answer is about another action.
    WrongAction(u32),
    /// The answer is to another request.
    WrongTransaction,
    /// The tracker says what went wrong.
    Tracker(String),
}

/// What to do about a request that has not been answered.
#[derive(Debug, Clone, Copy, PartialEq, Eq, Structural)]
pub enum RetryStep {
    /// Send the request and wait for as many nanoseconds.
    Send(u64),
    /// The time is up.
    TimedOut,
    /// The request was sent often enough.
    GaveUp,
}

/// What came back after a request was sent.
#[derive(Debug, Clone, Copy, PartialEq, Eq, Structural)]
pub enum Received {
    /// The answer.
    Answer,
    /// The answer to another request.
    Foreign,
    /// Nothing, or nothing of use.
    Nothing,
}

/// A request that is sent again until it is answered. Each wait is twice as long as the one before.
#[derive(Debug, Clone, Copy)]
pub struct Retry {
    /// How often the request was sent.
    pub attempts: u32,
    /// Seconds to wait for an answer.
    pub timeout_secs: u64,
}

/// What a packet is to a request.
pub open spec fn received(data: Seq<u8>, transaction_id: u32) -> Received {
    if data.len() < 8 {
        Received::Nothing
    } else if transaction_of(data) == transaction_id {
        Received::Answer
    } else {
        Received::Foreign
    }
}

impl Retry {
    /// What holds of every request under way.
    pub open spec fn wf(&self) -> bool {
        &&& self.attempts <= MAX_RETRIES
        &&& self.timeout_secs <= 15 * vstd::arithmetic::power2::pow2(self.attempts as nat)
    }

    /// A request that was not sent yet.
    pub fn new() -> (r: Retry)
        ensures
            r.wf(),
            r.attempts == 0,
            r.timeout_secs == 15,
    {
        proof {
            vstd::arithmetic::power2::lemma2_to64();
        }
        Retry { attempts: 0, timeout_secs: INITIAL_TIMEOUT_SECS }
    }

    /// What to do `elapsed` nanoseconds after the first attempt, with `overall` nanoseconds to
    /// spend.
    pub fn next(&mut self, elapsed: u64, overall: u64) -> (r: RetryStep)
        requires
            old(self).wf(),
        ensures
            final(self).wf(),
            r == if old(self).attempts >= 8 {
                RetryStep::GaveUp
            } else if elapsed > overall {
                RetryStep::TimedOut
            } else if old(self).timeout_secs * 1_000_000_000 < overall - elapsed {
                RetryStep::Send((old(self).timeout_secs * 1_000_000_000) as u64)
            } else {
                RetryStep::Send((overall - elapsed) as u64)
            },
            final(self).timeout_secs == old(self).timeout_secs,
            final(self).attempts == if r is Send {
                old(self).attempts + 1
            } else {
                old(self).attempts as int
            },
    {
        if self.attempts >= MAX_RETRIES {
            return RetryStep::GaveUp;
        }
        if elapsed > overall {
            return RetryStep::TimedOut;
        }
        proof {
            vstd::arithmetic::power2::lemma2_to64();
            lemma_pow2_step(self.attempts as nat);
            lemma_pow2_small(self.attempts as nat);
        }
        let wait: u64 = self.timeout_secs * NANOS_PER_SEC;
        let remaining: u64 = overall - elapsed;
        self.attempts = self.attempts + 1;
        RetryStep::Send(
            if wait < remaining {
                wait
            } else {
                remaining
            },
        )
    }

    /// Notes what came back. The next wait is twice as long, unless what came back answers another
    /// request.
    pub fn note(&mut self, what: Received)
        requires
            old(self).wf(),
            old(self).attempts > 0,
            old(self).timeout_secs <= 15 * vstd::arithmetic::power2::pow2(
                (old(self).attempts - 1) as nat,
            ),
        ensures
            final(self).wf(),
            final(self).attempts == old(self).attempts,
            final(self).timeout_secs == if what == Received::Nothing {
                2 * old(self).timeout_secs
            } else {
                old(self).timeout_secs as int
            },
    {
        proof {
            lemma_pow2_step((self.attempts - 1) as nat);
            lemma_pow2_small((self.attempts - 1) as nat);
        }
        if what == Received::Nothing {
            self.timeout_secs = self.timeout_secs * 2;
        }
    }
}

proof fn lemma_pow2_step(n: nat)
    ensures
        vstd::arithmetic::power2::pow2(n + 1) == 2 * vstd::arithmetic::power2::pow2(n),
        vstd::arithmetic::power2::pow2(n) >= 1,
{
    vstd::arithmetic::power2::lemma_pow2_unfold(n + 1);
    vstd::arithmetic::power2::lemma_pow2_pos(n);
}

proof fn lemma_pow2_small(n: nat)
    requires
        n <= 8,
    ensures
        vstd::arithmetic::power2::pow2(n) <= 256,
{
    vstd::arithmetic::power2::lemma2_to64();
    if n < 8 {
        vstd::arithmetic::power2::lemma_pow2_strictly_increases(n, 8);
    }
}

/// The text between `udp://` and the next slash.
pub open spec fn host_part(url: Seq<char>) -> Seq<char> {
    until_slash(url.skip(6))
}

/// The text before the first slash, all of it if there is none.
pub open spec fn until_slash(s: Seq<char>) -> Seq<char>
    decreases s.len(),
{
    if s.len() == 0 || s[0] == '/' {
        Seq::empty()
    } else {
        seq![s[0]] + until_slash(s.drop_first())
    }
}

/// UDP trackers.
pub struct UdpTrackerClient;

impl UdpTrackerClient {
    /// The host and port in the address of a UDP tracker, without what follows. `None` if the
    /// address is not one of a UDP tracker.
    pub fn tracker_host(url: &str) -> (r: Option<String>)
        ensures
            r is Some <==> occurs_at(url@, "udp://"@, 0),
            r matches Some(h) ==> h@ == host_part(url@),
    {
        let chars: Vec<char> = chars_of(url);
        let prefix: Vec<char> = chars_of("udp://");
        proof {
            reveal_strlit("udp://");
        }
        if !part_at(&chars, &prefix, 0) {
            return None;
        }
        let mut end: usize = 6;
        proof {
            assert(chars@.subrange(6, 6) + until_slash(chars@.skip(6)) =~= until_slash(
                chars@.skip(6),
            ));
        }
        while end < chars.len() && chars[end] != '/'
            invariant
                6 <= end <= chars@.len(),
                until_slash(chars@.skip(6)) == chars@.subrange(6, end as int) + until_slash(
                    chars@.skip(end as int),
                ),
            decreases chars@.len() - end,
        {
            proof {
                let rest = chars@.skip(end as int);
                assert(rest[0] == chars@[end as int]);
                assert(rest.drop_first() =~= chars@.skip(end + 1));
                assert(chars@.subrange(6, end + 1) =~= chars@.subrange(6, end as int)
                    + seq![chars@[end as int]]);
                assert(chars@.subrange(6, end as int) + (seq![chars@[end as int]] + until_slash(
                    chars@.skip(end + 1),
                )) =~= chars@.subrange(6, end + 1) + until_slash(chars@.skip(end + 1)));
            }
            end += 1;
        }
        proof {
            let rest = chars@.skip(end as int);
            if end < chars@.len() {
                assert(rest[0] == chars@[end as int]);
            }
            assert(until_slash(rest) =~= Seq::empty());
            assert(chars@.subrange(6, end as int) + Seq::empty() =~= chars@.subrange(
                6,
                end as int,
            ));
        }
        Some(sub_text(url, 6, end))
    }

    /// A random transaction.
    pub fn new_transaction() -> u32 {
        let drawn: Vec<u8> = random_bytes(4);
        Self::transaction_from(&drawn)
    }

    /// The transaction made of the bytes that were drawn for it, the first one the highest.
    pub fn transaction_from(drawn: &Vec<u8>) -> (r: u32)
        requires
            drawn@.len() == 4,
        ensures
            r == be_value(drawn@),
    {
        proof {
            lemma_byte_capacity_values();
            assert(drawn@.subrange(0, 4) =~= drawn@);
        }
        read_be(drawn.as_slice(), 0, 4) as u32
    }

    /// The connection request.
    pub fn build_connect_request(transaction_id: u32) -> (r: Vec<u8>)
        ensures
            r@ == connect_request(transaction_id),
            r@.len() == 16,
    {
        let mut buf: Vec<u8> = Vec::with_capacity(16);
        put_be(&mut buf, PROTOCOL_ID, 8);
        put_be(&mut buf, ACTION_CONNECT as u64, 4);
        put_be(&mut buf, transaction_id as u64, 4);
        proof {
            lemma_be_bytes_len(PROTOCOL_ID as nat, 8);
            lemma_be_bytes_len(ACTION_CONNECT as nat, 4);
            lemma_be_bytes_len(transaction_id as nat, 4);
            assert(buf@ =~= connect_request(transaction_id));
        }
        buf
    }

    /// The announcement with the given key.
    pub fn build_announce_request_with(
        connection_id: u64,
        transaction_id: u32,
        infohash: &Infohash,
        peer_id: &[u8; 20],
        listen_port: u16,
        key: u32,
    ) -> (r: Vec<u8>)
        ensures
            r@ == announce_request(
                connection_id,
                transaction_id,
                infohash@,
                peer_id@,
                listen_port,
                key,
            ),
            r@.len() == 98,
    {
        let mut buf: Vec<u8> = Vec::with_capacity(98);
        put_be(&mut buf, connection_id, 8);
        put_be(&mut buf, ACTION_ANNOUNCE as u64, 4);
        put_be(&mut buf, transaction_id as u64, 4);
        put_bytes(&mut buf, infohash);
        put_bytes(&mut buf, peer_id);
        put_be(&mut buf, 0, 8);
        put_be(&mut buf, 0, 8);
        put_be(&mut buf, 0, 8);
        put_be(&mut buf, 0, 4);
        put_be(&mut buf, 0, 4);
        put_be(&mut buf, key as u64, 4);
        put_be(&mut buf, 0xFFFF_FFFF, 4);
        put_be(&mut buf, listen_port as u64, 2);
        proof {
            lemma_be_bytes_len(connection_id as nat, 8);
            lemma_be_bytes_len(ACTION_ANNOUNCE as nat, 4);
            lemma_be_bytes_len(transaction_id as nat, 4);
            lemma_be_bytes_len(0, 8);
            lemma_be_bytes_len(0, 4);
            lemma_be_bytes_len(key as nat, 4);
            lemma_be_bytes_len(0xFFFF_FFFF, 4);
            lemma_be_bytes_len(listen_port as nat, 2);
            assert(buf@ =~= announce_request(
                connection_id,
                transaction_id,
                infohash@,
                peer_id@,
                listen_port,
                key,
            ));
        }
        buf
    }

    /// The announcement, with a random key.
    pub fn build_announce_request(
        connection_id: u64,
        transaction_id: u32,
        infohash: &Infohash,
        peer_id: &[u8; 20],
        listen_port: u16,
    ) -> (r: Vec<u8>)
        ensures
            exists|key: u32|
                r@ == #[trigger] announce_request(
                    connection_id,
                    transaction_id,
                    infohash@,
                    peer_id@,
                    listen_port,
                    key,
                ),
            r@.len() == 98,
    {
        let key: u32 = Self::new_transaction();
        Self::build_announce_request_with(
            connection_id,
            transaction_id,
            infohash,
            peer_id,
            listen_port,
            key,
        )
    }

    /// What a packet is to the request with a transaction.
    pub fn classify(data: &[u8], transaction_id: u32) -> (r: Received)
        ensures
            r == received(data@, transaction_id),
    {
        if data.len() < 8 {
            Received::Nothing
        } else if read_be(data, 4, 8) == transaction_id as u64 {
            Received::Answer
        } else {
            Received::Foreign
        }
    }

    /// The connection in the answer to a connection request.
    pub fn parse_connect_response(data: &[u8], transaction_id: u32) -> (r: Result<
        u64,
        UdpTrackerError,
    >)
        ensures
            if data@.len() < 16 {
                r matches Err(UdpTrackerError::TooShort(n)) && n == data@.len()
            } else if action_of(data@) != ACTION_CONNECT {
                r matches Err(UdpTrackerError::WrongAction(a)) && a == action_of(data@)
            } else if transaction_of(data@) != transaction_id {
                r matches Err(UdpTrackerError::WrongTransaction)
            } else {
                r matches Ok(id) && id == be_value(data@.subrange(8, 16))
            },
    {
        proof {
            lemma_byte_capacity_values();
        }
        if data.len() < 16 {
            return Err(UdpTrackerError::TooShort(data.len()));
        }
        let action: u32 = read_be(data, 0, 4) as u32;
        if action != ACTION_CONNECT {
            return Err(UdpTrackerError::WrongAction(action));
        }
        if read_be(data, 4, 8) != transaction_id as u64 {
            return Err(UdpTrackerError::WrongTransaction);
        }
        Ok(read_be(data, 8, 16))
    }

    /// The peers in the answer to an announcement, without those with port zero.
    pub fn parse_announce_response(data: &[u8], transaction_id: u32) -> (r: Result<
        Vec<SocketAddr>,
        UdpTrackerError,
    >)
        ensures
            if data@.len() < 20 {
                r matches Err(UdpTrackerError::TooShort(n)) && n == data@.len()
            } else if action_of(data@) == ACTION_ERROR {
                r matches Err(UdpTrackerError::Tracker(text)) && text@ == lossy_text(data@.skip(8))
                    && (valid_utf8(data@.skip(8)) ==> encode_utf8(text@) == data@.skip(8))
            } else if action_of(data@) != ACTION_ANNOUNCE {
                r matches Err(UdpTrackerError::WrongAction(a)) && a == action_of(data@)
            } else if transaction_of(data@) != transaction_id {
                r matches Err(UdpTrackerError::WrongTransaction)
            } else {
                r matches Ok(peers) && peers@ == peers_of(data@.skip(20), false)
            },
    {
        proof {
            lemma_byte_capacity_values();
        }
        if data.len() < 20 {
            return Err(UdpTrackerError::TooShort(data.len()));
        }
        let action: u32 = read_be(data, 0, 4) as u32;
        if action == ACTION_ERROR {
            let rest: Vec<u8> = sub_vec(data, 8, data.len());
            assert(rest@ =~= data@.skip(8));
            return Err(UdpTrackerError::Tracker(text_lossy(rest.as_slice())));
        }
        if action != ACTION_ANNOUNCE {
            return Err(UdpTrackerError::WrongAction(action));
        }
        if read_be(data, 4, 8) != transaction_id as u64 {
            return Err(UdpTrackerError::WrongTransaction);
        }
        let rest: Vec<u8> = sub_vec(data, 20, data.len());
        assert(rest@ =~= data@.skip(20));
        Ok(read_compact_peers(rest.as_slice(), false))
    }
}

/// The requests have their fields where BEP 15 has them: the protocol's number, the action and the
/// transaction of a connection request in bytes 0, 8 and 12; and in an announcement the connection, the
/// action, the transaction, the infohash, the peer, three numbers of bytes, the event, the address, the
/// key, the number of peers that are wanted (here as many as the tracker likes) and the port.
pub proof fn law_request_fields(
    connection_id: u64,
    transaction_id: u32,
    infohash: Seq<u8>,
    peer_id: Seq<u8>,
    listen_port: u16,
    key: u32,
)
    requires
        infohash.len() == 20,
        peer_id.len() == 20,
    ensures
        ({
            let c = connect_request(transaction_id);
            &&& c.len() == 16
            &&& be_value(c.subrange(0, 8)) == 0x41727101980
            &&& be_value(c.subrange(8, 12)) == 0
            &&& be_value(c.subrange(12, 16)) == transaction_id
        }),
        ({
            let a = announce_request(
                connection_id,
                transaction_id,
                infohash,
                peer_id,
                listen_port,
                key,
            );
            &&& a.len() == 98
            &&& be_value(a.subrange(0, 8)) == connection_id
            &&& be_value(a.subrange(8, 12)) == 1
            &&& be_value(a.subrange(12, 16)) == transaction_id
            &&& a.subrange(16, 36) == infohash
            &&& a.subrange(36, 56) == peer_id
            &&& be_value(a.subrange(56, 64)) == 0
            &&& be_value(a.subrange(64, 72)) == 0
            &&& be_value(a.subrange(72, 80)) == 0
            &&& be_value(a.subrange(80, 84)) == 0
            &&& be_value(a.subrange(84, 88)) == 0
            &&& be_value(a.subrange(88, 92)) == key
            &&& be_value(a.subrange(92, 96)) == 0xFFFF_FFFF
            &&& be_value(a.subrange(96, 98)) == listen_port
        }),
{
    lemma_byte_capacity_values();
    lemma_be_bytes_len(PROTOCOL_ID as nat, 8);
    lemma_be_bytes_len(ACTION_CONNECT as nat, 4);
    lemma_be_bytes_len(connection_id as nat, 8);
    lemma_be_bytes_len(ACTION_ANNOUNCE as nat, 4);
    lemma_be_bytes_len(transaction_id as nat, 4);
    lemma_be_bytes_len(0, 8);
    lemma_be_bytes_len(0, 4);
    lemma_be_bytes_len(key as nat, 4);
    lemma_be_bytes_len(0xFFFF_FFFF, 4);
    lemma_be_bytes_len(listen_port as nat, 2);
    lemma_be_round_trip(PROTOCOL_ID as nat, 8);
    lemma_be_round_trip(ACTION_CONNECT as nat, 4);
    lemma_be_round_trip(connection_id as nat, 8);
    lemma_be_round_trip(ACTION_ANNOUNCE as nat, 4);
    lemma_be_round_trip(transaction_id as nat, 4);
    lemma_be_round_trip(0, 8);
    lemma_be_round_trip(0, 4);
    lemma_be_round_trip(key as nat, 4);
    lemma_be_round_trip(0xFFFF_FFFF, 4);
    lemma_be_round_trip(listen_port as nat, 2);
    let c = connect_request(transaction_id);
    assert(c.subrange(0, 8) =~= be_bytes(PROTOCOL_ID as nat, 8));
    assert(c.subrange(8, 12) =~= be_bytes(ACTION_CONNECT as nat, 4));
    assert(c.subrange(12, 16) =~= be_bytes(transaction_id as nat, 4));
    let a = announce_request(connection_id, transaction_id, infohash, peer_id, listen_port, key);
    assert(a.subrange(0, 8) =~= be_bytes(connection_id as nat, 8));
    assert(a.subrange(8, 12) =~= be_bytes(ACTION_ANNOUNCE as nat, 4));
    assert(a.subrange(12, 16) =~= be_bytes(transaction_id as nat, 4));
    assert(a.subrange(16, 36) =~= infohash);
    assert(a.subrange(36, 56) =~= peer_id);
    assert(a.subrange(56, 64) =~= be_bytes(0, 8));
    assert(a.subrange(64, 72) =~= be_bytes(0, 8));
    assert(a.subrange(72, 80) =~= be_bytes(0, 8));
    assert(a.subrange(80, 84) =~= be_bytes(0, 4));
    assert(a.subrange(84, 88) =~= be_bytes(0, 4));
    assert(a.subrange(88, 92) =~= be_bytes(key as nat, 4));
    assert(a.subrange(92, 96) =~= be_bytes(0xFFFF_FFFF, 4));
    assert(a.subrange(96, 98) =~= be_bytes(listen_port as nat, 2));
}

/// A packet answers a request if bytes 4 to 8 hold its transaction; one with another transaction there is
/// for somebody else, and one that is too short to have any is of no use.
pub proof fn law_answers_are_told_by_the_transaction(data: Seq<u8>, transaction_id: u32)
    ensures
        data.len() < 8 <==> received(data, transaction_id) == Received::Nothing,
        data.len() >= 8 && be_value(data.subrange(4, 8)) == transaction_id <==> received(
            data,
            transaction_id,
        ) == Received::Answer,
        data.len() >= 4 ==> action_of(data) == be_value(data.subrange(0, 4)),
        data.len() >= 8 ==> transaction_of(data) == be_value(data.subrange(4, 8)),
{
}

/// The host of a tracker's address is what stands between `udp://` and the next slash, all that follows if
/// there is none.
pub proof fn law_host_ends_at_the_slash(url: Seq<char>)
    requires
        url.len() >= 6,
    ensures
        ({
            let host = host_part(url);
            &&& 6 + host.len() <= url.len()
            &&& host == url.subrange(6, 6 + host.len() as int)
            &&& forall|i: int| 0 <= i < host.len() ==> #[trigger] host[i] != '/'
            &&& 6 + host.len() < url.len() ==> url[6 + host.len() as int] == '/'
        }),
{
    lemma_until_slash(url.skip(6));
    let host = host_part(url);
    let rest = url.skip(6);
    assert(url.subrange(6, 6 + host.len() as int) =~= rest.take(host.len() as int));
    if 6 + host.len() < url.len() {
        assert(rest[host.len() as int] == url[6 + host.len() as int]);
    }
}

proof fn lemma_until_slash(s: Seq<char>)
    ensures
        until_slash(s).len() <= s.len(),
        until_slash(s) == s.take(until_slash(s).len() as int),
        forall|i: int| 0 <= i < until_slash(s).len() ==> #[trigger] until_slash(s)[i] != '/',
        until_slash(s).len() < s.len() ==> s[until_slash(s).len() as int] == '/',
    decreases s.len(),
{
    if s.len() == 0 || s[0] == '/' {
        assert(s.take(0) =~= Seq::<char>::empty());
    } else {
        let rest = s.drop_first();
        lemma_until_slash(rest);
        let u = until_slash(s);
        let v = until_slash(rest);
        assert(u =~= s.take(u.len() as int)) by {
            assert forall|i: int| 0 <= i < u.len() implies u[i] == s[i] by {
                if i > 0 {
                    assert(u[i] == v[i - 1]);
                    assert(v[i - 1] == rest.take(v.len() as int)[i - 1]);
                }
            }
        }
        assert forall|i: int| 0 <= i < u.len() implies #[trigger] u[i] != '/' by {
            if i > 0 {
                assert(u[i] == v[i - 1]);
            }
        }
        if u.len() < s.len() {
            assert(rest[v.len() as int] == s[u.len() as int]);
        }
    }
}

} // verus!
