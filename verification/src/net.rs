//! Network addresses.

use vstd::prelude::*;

verus! {

/// An IP address, as the number that its bytes spell in network byte order.
#[derive(Clone, Copy, Debug, PartialEq, Eq, Structural)]
pub enum IpAddr {
    /// An IPv4 address.
    V4(u32),
    /// An IPv6 address.
    V6(u128),
}

/// A socket address.
#[derive(Clone, Copy, Debug, PartialEq, Eq, Structural)]
pub struct SocketAddr {
    /// The IP address.
    pub ip: IpAddr,
    /// The port.
    pub port: u16,
}

/// Ancillary information about incoming packets.
#[derive(Clone, Copy, Debug, PartialEq, Eq, Structural)]
pub struct RecvInfo {
    /// The remote address the packet was received from.
    pub from: SocketAddr,
    /// The local address the packet was received on.
    pub to: SocketAddr,
}

} // verus!
