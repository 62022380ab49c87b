//! Peer discovery for BitTorrent.

pub mod addrset;
pub mod agent;
pub mod aggregator;
pub mod auth;
pub mod bencode;
pub mod bloom;
pub mod bootstrap;
pub mod bytes;
pub mod cache;
pub mod cli;
pub mod clock;
pub mod compact;
pub mod config;
pub mod control_plane;
pub mod crawler;
pub mod data_plane;
pub mod digest;
pub mod discoverers;
pub mod health_check;
pub mod history;
pub mod net;
pub mod peer_filter;
pub mod percent;
pub mod persistence;
pub mod port_mapping;
pub mod protocol;
pub mod random;
pub mod seqs;
pub mod server;
pub mod service_resolver;
pub mod sort;
pub mod text;
pub mod traits;
pub mod turns;
pub mod types;
pub mod vecmap;

use vstd::prelude::*;

verus! {

/// The version of the library.
pub const VERSION: &'static str = "0.1.0";

/// The name of the library.
pub const NAME: &'static str = "PeerDiscoveryCenter";

} // verus!
