//! What the service answers to the outside.

pub mod rest_api;
pub mod udp_tracker;

use crate::bytes::{append_decimal, decimal_text};
use crate::config::PdcConfig;
use vstd::prelude::*;

verus! {

/// Where the service listens.
pub struct DataPlane;

/// An address and a port as text.
pub open spec fn endpoint(listen: Seq<char>, port: u16) -> Seq<char> {
    listen + ":"@ + decimal_text(port as nat)
}

fn endpoint_text(listen: &str, port: u16) -> (r: String)
    ensures
        r@ == endpoint(listen@, port),
{
    let mut text: String = listen.to_string();
    text.append(":");
    append_decimal(&mut text, port as u64);
    text
}

impl DataPlane {
    /// Where HTTP requests are taken.
    pub fn http_endpoint(config: &PdcConfig) -> (r: String)
        ensures
            r@ == endpoint(config.server.listen@, config.server.port),
    {
        endpoint_text(config.server.listen.as_str(), config.server.port)
    }

    /// Where UDP packets are taken: at a port of their own, or at the same one.
    pub fn udp_endpoint(config: &PdcConfig) -> (r: String)
        ensures
            r@ == endpoint(config.server.listen@, config.udp_port_spec()),
    {
        endpoint_text(config.server.listen.as_str(), config.udp_port())
    }
}

} // verus!
