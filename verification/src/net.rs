//! Network addresses as plain bytes.

use crate::bytes::same_array;
use vstd::prelude::*;

verus! {

/// An IP address, in network byte order.
#[derive(Debug, Clone, Copy, PartialEq, Eq, Hash)]
pub enum IpAddr {
    V4([u8; 4]),
    V6([u8; 16]),
}

/// An IP address and a port.
#[derive(Debug, Clone, Copy, PartialEq, Eq, Hash)]
pub struct SocketAddr {
    pub ip: IpAddr,
    pub port: u16,
}

impl IpAddr {
    /// Whether two addresses are the same.
    pub fn same(&self, other: &IpAddr) -> (r: bool)
        ensures
            r == (self == other),
    {
        match (self, other) {
            (IpAddr::V4(a), IpAddr::V4(b)) => same_array(a, b),
            (IpAddr::V6(a), IpAddr::V6(b)) => same_array(a, b),
            _ => false,
        }
    }

    /// Whether the address is of version 6.
    pub fn is_ipv6(&self) -> (r: bool)
        ensures
            r == (self is V6),
    {
        matches!(self, IpAddr::V6(_))
    }
}

impl SocketAddr {
    /// An address made of its two parts.
    pub fn new(ip: IpAddr, port: u16) -> (r: SocketAddr)
        ensures
            r == (SocketAddr { ip, port }),
    {
        SocketAddr { ip, port }
    }

    /// Whether two addresses are the same.
    pub fn same(&self, other: &SocketAddr) -> (r: bool)
        ensures
            r == (self == other),
    {
        self.port == other.port && self.ip.same(&other.ip)
    }
}

} // verus!
