//! Local peer discovery (BEP 14).

pub mod client;

pub use client::{LpdConfig, LpdDiscoverer};

use vstd::prelude::*;

verus! {

/// The address to which messages are sent.
pub const LPD_MULTICAST_ADDR: &'static str = "239.192.152.143";

/// The port to which messages are sent.
pub const LPD_MULTICAST_PORT: u16 = 6771;

} // verus!
