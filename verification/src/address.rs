//! IPv4 addresses and multicast group addresses as plain values.

use vstd::prelude::*;

verus! {

/// An IPv4 address, most significant octet first (`a.b.c.d`).
#[derive(Clone, Copy, Debug, PartialEq, Eq, Hash, Structural)]
pub struct Ipv4 {
    pub a: u8,
    pub b: u8,
    pub c: u8,
    pub d: u8,
}

/// An IPv4 address together with a port. It names both a multicast group and,
/// through the channel name derived from it, the relay process serving that group.
#[derive(Clone, Copy, Debug, PartialEq, Eq, Hash, Structural)]
pub struct GroupAddress {
    pub ip: Ipv4,
    pub port: u16,
}

impl Ipv4 {
    /// The multicast range is `224.0.0.0/4`: the first octet lies in `224..=239`.
    pub open spec fn spec_is_multicast(self) -> bool {
        224 <= self.a <= 239
    }

    /// The wildcard address `0.0.0.0`.
    pub open spec fn spec_unspecified() -> Ipv4 {
        Ipv4 { a: 0, b: 0, c: 0, d: 0 }
    }

    pub fn new(a: u8, b: u8, c: u8, d: u8) -> (ip: Ipv4)
        ensures
            ip == (Ipv4 { a, b, c, d }),
    {
        Ipv4 { a, b, c, d }
    }

    pub fn unspecified() -> (ip: Ipv4)
        ensures
            ip == Ipv4::spec_unspecified(),
    {
        Ipv4 { a: 0, b: 0, c: 0, d: 0 }
    }

    #[verifier::when_used_as_spec(spec_is_multicast)]
    pub fn is_multicast(self) -> (r: bool)
        ensures
            r == self.spec_is_multicast(),
    {
        self.a >= 224 && self.a <= 239
    }

    pub fn octets(self) -> (o: [u8; 4])
        ensures
            o@ == seq![self.a, self.b, self.c, self.d],
    {
        [self.a, self.b, self.c, self.d]
    }
}

impl GroupAddress {
    pub open spec fn spec_is_multicast(self) -> bool {
        self.ip.spec_is_multicast()
    }

    pub fn new(ip: Ipv4, port: u16) -> (addr: GroupAddress)
        ensures
            addr == (GroupAddress { ip, port }),
    {
        GroupAddress { ip, port }
    }

    pub fn ip(self) -> (ip: Ipv4)
        ensures
            ip == self.ip,
    {
        self.ip
    }

    pub fn port(self) -> (port: u16)
        ensures
            port == self.port,
    {
        self.port
    }

    #[verifier::when_used_as_spec(spec_is_multicast)]
    pub fn is_multicast(self) -> (r: bool)
        ensures
            r == self.spec_is_multicast(),
    {
        self.ip.is_multicast()
    }
}

} // verus!
