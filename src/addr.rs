use vstd::prelude::*;

verus! {

/// An IP address as the big-endian number that its octets spell.
#[derive(Debug, Clone, Copy, PartialEq, Eq, Structural, Hash)]
pub enum IpAddr {
    V4(u32),
    V6(u128),
}

/// A datagram endpoint: address and port.
#[derive(Debug, Clone, Copy, PartialEq, Eq, Structural, Hash)]
pub struct SockAddr {
    pub ip: IpAddr,
    pub port: u16,
}

impl SockAddr {
    pub fn same(&self, o: &SockAddr) -> (r: bool)
        ensures
            r == (*self == *o),
    {
        *self == *o
    }
}

} // verus!
