//! Discovery through the BitTorrent DHT (BEP 5).

pub mod client;
pub mod distance;
pub mod global_store;
pub mod message;
pub mod routing_table;
pub mod store;
pub mod token;

pub use client::{DhtConfig, DhtDiscoverer};

use vstd::prelude::*;

verus! {

/// The nodes that a DHT node starts from.
pub const DHT_BOOTSTRAP_NODES: [(&'static str, u16); 8] = [
    ("router.bittorrent.com", 6881),
    ("dht.transmissionbt.com", 6881),
    ("router.utorrent.com", 6881),
    ("dht.aelitis.com", 6881),
    ("router.bitcomet.com", 6881),
    ("dht.libtorrent.org", 25401),
    ("dht.cfcdn.club", 6881),
    ("tracker1.itzmx.com", 6881),
];

} // verus!
