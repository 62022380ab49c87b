//! Lists of IPv4 peers in compact form: six bytes each, the address and then the port.

use crate::bytes::{
    be_bytes, be_value, lemma_be_bytes_len, lemma_be_round_trip, lemma_byte_capacity_values, put_be,
    put_bytes,
};
use crate::net::{IpAddr, SocketAddr};
use vstd::prelude::*;

verus! {

/// The compact form of one peer, empty for a peer that is not IPv4.
pub open spec fn compact_peer(peer: SocketAddr) -> Seq<u8> {
    match peer.ip {
        IpAddr::V4(ip) => ip@ + be_bytes(peer.port as nat, 2),
        IpAddr::V6(_) => Seq::empty(),
    }
}

/// The compact form of a list of peers. Peers that are not IPv4 are left out.
pub open spec fn compact_peers(peers: Seq<SocketAddr>) -> Seq<u8>
    decreases peers.len(),
{
    if peers.len() == 0 {
        Seq::empty()
    } else {
        compact_peer(peers[0]) + compact_peers(peers.drop_first())
    }
}

/// The peer that the first six bytes stand for.
pub open spec fn peer_at_front(data: Seq<u8>) -> SocketAddr {
    SocketAddr {
        ip: IpAddr::V4([data[0], data[1], data[2], data[3]]),
        port: be_value(data.subrange(4, 6)) as u16,
    }
}

/// The peers that a compact list stands for. Bytes that do not make up a whole peer at the end
/// are ignored, and so are peers with port zero unless `keep_port_zero`.
pub open spec fn peers_of(data: Seq<u8>, keep_port_zero: bool) -> Seq<SocketAddr>
    decreases data.len(),
{
    if data.len() < 6 {
        Seq::empty()
    } else {
        let first = peer_at_front(data);
        let rest = peers_of(data.skip(6), keep_port_zero);
        if first.port != 0 || keep_port_zero {
            seq![first] + rest
        } else {
            rest
        }
    }
}

/// The peers that a compact list can carry: IPv4, with a port unless `keep_port_zero`.
pub open spec fn carried(keep_port_zero: bool) -> spec_fn(SocketAddr) -> bool {
    |p: SocketAddr| p.ip is V4 && (p.port != 0 || keep_port_zero)
}

/// Appends the compact form of a list of peers.
pub fn put_compact_peers(out: &mut Vec<u8>, peers: &[SocketAddr])
    ensures
        final(out)@ == old(out)@ + compact_peers(peers@),
{
    let ghost start = out@;
    let mut i: usize = 0;
    assert(peers@.skip(0) =~= peers@);
    while i < peers.len()
        invariant
            i <= peers.len(),
            out@ + compact_peers(peers@.skip(i as int)) == start + compact_peers(peers@),
        decreases peers.len() - i,
    {
        let ghost before = out@;
        let ghost rest = peers@.skip(i as int);
        proof {
            assert(rest.drop_first() =~= peers@.skip(i + 1));
        }
        if let IpAddr::V4(ip) = peers[i].ip {
            put_bytes(out, ip.as_slice());
            put_be(out, peers[i].port as u64, 2);
        }
        assert(out@ =~= before + compact_peer(peers@[i as int]));
        assert(out@ + compact_peers(peers@.skip(i + 1)) =~= before + compact_peers(rest));
        i += 1;
    }
    assert(out@ =~= start + compact_peers(peers@));
}

/// The peers that a compact list stands for.
pub fn read_compact_peers(data: &[u8], keep_port_zero: bool) -> (r: Vec<SocketAddr>)
    ensures
        r@ == peers_of(data@, keep_port_zero),
{
    let mut out: Vec<SocketAddr> = Vec::new();
    let mut at: usize = 0;
    assert(data@.skip(0) =~= data@);
    while data.len() - at >= 6
        invariant
            at <= data.len(),
            out@ + peers_of(data@.skip(at as int), keep_port_zero) == peers_of(
                data@,
                keep_port_zero,
            ),
        decreases data.len() - at,
    {
        let ghost before = out@;
        let ghost rest = data@.skip(at as int);
        let ip: [u8; 4] = [data[at], data[at + 1], data[at + 2], data[at + 3]];
        let port: u16 = data[at + 4] as u16 * 256 + data[at + 5] as u16;
        proof {
            assert(ip =~= [rest[0], rest[1], rest[2], rest[3]]);
            let tail = rest.subrange(4, 6);
            reveal_with_fuel(be_value, 3);
            assert(tail.drop_last().drop_last() =~= Seq::<u8>::empty());
            assert(port == be_value(tail));
            assert(rest.skip(6) =~= data@.skip(at + 6));
        }
        if port != 0 || keep_port_zero {
            out.push(SocketAddr { ip: IpAddr::V4(ip), port });
        }
        assert(out@ + peers_of(data@.skip(at + 6), keep_port_zero) =~= before + peers_of(
            rest,
            keep_port_zero,
        ));
        at += 6;
    }
    assert(out@ =~= peers_of(data@, keep_port_zero));
    out
}

/// A peer at the front of a list is read back.
pub proof fn lemma_front(ip: [u8; 4], port: u16, rest: Seq<u8>)
    ensures
        (ip@ + be_bytes(port as nat, 2) + rest).len() == 6 + rest.len(),
        peer_at_front(ip@ + be_bytes(port as nat, 2) + rest) == (SocketAddr {
            ip: IpAddr::V4(ip),
            port,
        }),
        (ip@ + be_bytes(port as nat, 2) + rest).skip(6) == rest,
{
    let b = be_bytes(port as nat, 2);
    let data = ip@ + b + rest;
    lemma_be_bytes_len(port as nat, 2);
    lemma_byte_capacity_values();
    lemma_be_round_trip(port as nat, 2);
    assert(data.subrange(4, 6) =~= b);
    assert(data.skip(6) =~= rest);
    assert([data[0], data[1], data[2], data[3]] =~= ip);
}

/// A list that is written in compact form is read back, but for the peers that the form does not
/// carry.
pub proof fn law_compact_round_trip(peers: Seq<SocketAddr>, keep_port_zero: bool)
    ensures
        peers_of(compact_peers(peers), keep_port_zero) == peers.filter(carried(keep_port_zero)),
    decreases peers.len(),
{
    if peers.len() == 0 {
        reveal(Seq::filter);
        assert(peers_of(compact_peers(peers), keep_port_zero) =~= peers.filter(
            carried(keep_port_zero),
        ));
    } else {
        let rest = peers.drop_first();
        let tail = compact_peers(rest);
        law_compact_round_trip(rest, keep_port_zero);
        assert(peers =~= seq![peers[0]] + rest);
        Seq::filter_distributes_over_add(seq![peers[0]], rest, carried(keep_port_zero));
        reveal_with_fuel(Seq::filter, 2);
        assert(seq![peers[0]].drop_last() =~= Seq::<SocketAddr>::empty());
        match peers[0].ip {
            IpAddr::V4(ip) => {
                lemma_front(ip, peers[0].port, tail);
                assert(compact_peers(peers) == ip@ + be_bytes(peers[0].port as nat, 2) + tail);
            },
            IpAddr::V6(_) => {
                assert(compact_peers(peers) =~= tail);
            },
        }
        assert(peers_of(compact_peers(peers), keep_port_zero) =~= peers.filter(
            carried(keep_port_zero),
        ));
    }
}

/// The compact form takes six bytes for each IPv4 peer.
pub proof fn law_compact_length(peers: Seq<SocketAddr>)
    ensures
        compact_peers(peers).len() == 6 * peers.filter(carried(true)).len(),
    decreases peers.len(),
{
    if peers.len() == 0 {
        reveal(Seq::filter);
    } else {
        let rest = peers.drop_first();
        law_compact_length(rest);
        assert(peers =~= seq![peers[0]] + rest);
        Seq::filter_distributes_over_add(seq![peers[0]], rest, carried(true));
        reveal_with_fuel(Seq::filter, 2);
        assert(seq![peers[0]].drop_last() =~= Seq::<SocketAddr>::empty());
        lemma_be_bytes_len(peers[0].port as nat, 2);
    }
}

/// The compact form of an IPv4 peer is its four address bytes, then the high and the low byte of its
/// port.
pub proof fn law_compact_layout(ip: [u8; 4], port: u16)
    ensures
        ({
            let c = compact_peer(SocketAddr { ip: IpAddr::V4(ip), port });
            &&& c.len() == 6
            &&& c[0] == ip[0] && c[1] == ip[1] && c[2] == ip[2] && c[3] == ip[3]
            &&& c[4] == port / 256
            &&& c[5] == port % 256
        }),
{
    reveal_with_fuel(be_bytes, 3);
    lemma_be_bytes_len(port as nat, 2);
    let b = be_bytes(port as nat, 2);
    assert(b[1] == port % 256);
    assert(b[0] == (port as nat / 256) % 256);
    let c = compact_peer(SocketAddr { ip: IpAddr::V4(ip), port });
    assert(c =~= ip@ + b);
}

/// Six bytes each are read as a peer, in order: four address bytes, then the high and the low byte of the
/// port.
pub proof fn law_compact_bytes_are_read(data: Seq<u8>, i: int)
    requires
        0 <= i < data.len() / 6,
    ensures
        peers_of(data, true).len() == data.len() / 6,
        peers_of(data, true)[i].port == data[6 * i + 4] * 256 + data[6 * i + 5],
        peers_of(data, true)[i].ip matches IpAddr::V4(ip) && ip[0] == data[6 * i] && ip[1] == data[6 * i
            + 1] && ip[2] == data[6 * i + 2] && ip[3] == data[6 * i + 3],
    decreases data.len(),
{
    let rest = data.skip(6);
    let tail = data.subrange(4, 6);
    crate::bytes::law_short_numbers(tail);
    lemma_peer_count(rest);
    assert(peers_of(data, true) == seq![peer_at_front(data)] + peers_of(rest, true));
    if i > 0 {
        law_compact_bytes_are_read(rest, i - 1);
        assert(peers_of(data, true)[i] == peers_of(rest, true)[i - 1]);
    }
}

proof fn lemma_peer_count(data: Seq<u8>)
    ensures
        peers_of(data, true).len() == data.len() / 6,
    decreases data.len(),
{
    if data.len() >= 6 {
        lemma_peer_count(data.skip(6));
    }
}

/// Without the peers that have no port, just those with one are read, in order.
pub proof fn law_peers_without_port_are_dropped(data: Seq<u8>)
    ensures
        peers_of(data, false) == peers_of(data, true).filter(|p: SocketAddr| p.port != 0),
    decreases data.len(),
{
    let q = |p: SocketAddr| p.port != 0;
    if data.len() >= 6 {
        let first = peer_at_front(data);
        let rest = data.skip(6);
        law_peers_without_port_are_dropped(rest);
        Seq::filter_distributes_over_add(seq![first], peers_of(rest, true), q);
        reveal_with_fuel(Seq::filter, 2);
        assert(seq![first].drop_last() =~= Seq::<SocketAddr>::empty());
        if q(first) {
            assert(seq![first].filter(q) =~= seq![first]);
        } else {
            assert(seq![first].filter(q) =~= Seq::<SocketAddr>::empty());
        }
        assert(peers_of(data, false) =~= peers_of(data, true).filter(q));
    } else {
        reveal(Seq::filter);
        assert(peers_of(data, false) =~= peers_of(data, true).filter(q));
    }
}

} // verus!
