//! Network origins: the identity under which an account is kept.
use vstd::prelude::*;

verus! {

/// Where a datagram came from: an address of one of the two families, and a
/// port. An IPv4 address is held in the low 32 bits of `ip`.
#[derive(Clone, Copy, Debug, PartialEq, Eq, Structural)]
pub struct Origin {
    pub v6: bool,
    pub ip: u128,
    pub port: u16,
}

impl Origin {
    /// The loopback addresses: `127.0.0.0/8` for IPv4, `::1` for IPv6.
    pub open spec fn local(self) -> bool {
        if self.v6 {
            self.ip == 1
        } else {
            0x7f00_0000 <= self.ip <= 0x7fff_ffff
        }
    }

    /// The order in which origins are kept: IPv4 before IPv6, then by
    /// address, then by port.
    pub open spec fn before(self, other: Origin) -> bool {
        if self.v6 != other.v6 {
            !self.v6
        } else if self.ip != other.ip {
            self.ip < other.ip
        } else {
            self.port < other.port
        }
    }

    pub fn precedes(&self, other: &Origin) -> (r: bool)
        ensures
            r == self.before(*other),
    {
        if self.v6 != other.v6 {
            !self.v6
        } else if self.ip != other.ip {
            self.ip < other.ip
        } else {
            self.port < other.port
        }
    }

    pub fn is_loopback(&self) -> (r: bool)
        ensures
            r == self.local(),
    {
        if self.v6 {
            self.ip == 1
        } else {
            0x7f00_0000 <= self.ip && self.ip <= 0x7fff_ffff
        }
    }
}

} // verus!
