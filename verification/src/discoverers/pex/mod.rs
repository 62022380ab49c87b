//! Peer exchange (BEP 11).

pub mod client;
pub mod message;

pub use client::{PexConfig, PexDiscoverer};
