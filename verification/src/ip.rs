//! IP addresses as plain integers.

use vstd::prelude::*;

verus! {

/// An IPv4 or IPv6 address, held as the integer whose big-endian bytes are the address.
#[derive(Clone, Copy, Debug, PartialEq, Eq, Structural)]
pub enum IpAddr {
    V4(u32),
    V6(u128),
}

/// The IPv4 address 0.0.0.0, which stands for a hop that did not answer.
pub open spec fn unspecified() -> IpAddr {
    IpAddr::V4(0)
}

/// The order of addresses: IPv4 before IPv6, by number within each.
pub open spec fn address_less(a: IpAddr, b: IpAddr) -> bool {
    match (a, b) {
        (IpAddr::V4(x), IpAddr::V4(y)) => x < y,
        (IpAddr::V6(x), IpAddr::V6(y)) => x < y,
        (IpAddr::V4(_), IpAddr::V6(_)) => true,
        (IpAddr::V6(_), IpAddr::V4(_)) => false,
    }
}

impl IpAddr {
    /// The address 0.0.0.0.
    pub fn unspecified_v4() -> (r: IpAddr)
        ensures
            r == unspecified(),
            r == IpAddr::V4(0),
    {
        IpAddr::V4(0)
    }

    /// Whether this is an IPv6 address.
    pub fn is_ipv6(&self) -> (r: bool)
        ensures
            r == (*self is V6),
    {
        match self {
            IpAddr::V4(_) => false,
            IpAddr::V6(_) => true,
        }
    }
}

/// The ICMP protocol that reaches an address.
#[derive(Clone, Copy, Debug, PartialEq, Eq, Structural)]
pub enum PingProtocol {
    V4,
    V6,
}

/// The protocol for `ip`: ICMPv4 for an IPv4 address, ICMPv6 for an IPv6 address.
pub open spec fn protocol_of(ip: IpAddr) -> PingProtocol {
    match ip {
        IpAddr::V4(_) => PingProtocol::V4,
        IpAddr::V6(_) => PingProtocol::V6,
    }
}

/// Picks the protocol for one address.
pub fn ping_protocol(ip: IpAddr) -> (r: PingProtocol)
    ensures
        r == protocol_of(ip),
        r == PingProtocol::V4 <==> ip is V4,
        r == PingProtocol::V6 <==> ip is V6,
{
    if ip.is_ipv6() {
        PingProtocol::V6
    } else {
        PingProtocol::V4
    }
}

} // verus!
