//! HTTP sources (BEP 19).

pub mod client;

pub use client::{WebSeedConfig, WebSeedDiscoverer};
