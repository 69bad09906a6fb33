//! Addresses of peers, as plain numbers.
use vstd::prelude::*;

verus! {

/// An IPv4 address and a port.
#[derive(Clone, Copy, PartialEq, Eq, Debug, Structural)]
pub struct PeerAddrV4 {
    pub ip: u32,
    pub port: u16,
}

/// An IPv6 address and a port.
#[derive(Clone, Copy, PartialEq, Eq, Debug, Structural)]
pub struct PeerAddrV6 {
    pub ip: u128,
    pub port: u16,
    pub flowinfo: u32,
    pub scope_id: u32,
}

/// Where a peer can be reached.
#[derive(Clone, Copy, PartialEq, Eq, Debug, Structural)]
pub enum PeerAddr {
    V4(PeerAddrV4),
    V6(PeerAddrV6),
}

} // verus!
