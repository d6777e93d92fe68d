//! Addresses, connection keys and the readiness vocabulary of the proxy.
use vstd::prelude::*;

verus! {

/// An IPv4 address, most significant octet first.
#[derive(Clone, Copy, Debug, PartialEq, Eq, Structural)]
pub struct Ipv4Addr(pub u8, pub u8, pub u8, pub u8);

impl Ipv4Addr {
    pub fn new(a: u8, b: u8, c: u8, d: u8) -> (r: Self)
        ensures
            r == Ipv4Addr(a, b, c, d),
    {
        Ipv4Addr(a, b, c, d)
    }

    /// The four octets as they stand in a packet.
    pub open spec fn bytes(self) -> Seq<u8> {
        seq![self.0, self.1, self.2, self.3]
    }
}

/// An IPv6 address as its eight 16-bit segments.
#[derive(Clone, Copy, Debug, PartialEq, Eq, Structural)]
pub struct Ipv6Addr(
    pub u16,
    pub u16,
    pub u16,
    pub u16,
    pub u16,
    pub u16,
    pub u16,
    pub u16,
);

impl Ipv6Addr {
    pub fn new(a: u16, b: u16, c: u16, d: u16, e: u16, f: u16, g: u16, h: u16) -> (r: Self)
        ensures
            r == Ipv6Addr(a, b, c, d, e, f, g, h),
    {
        Ipv6Addr(a, b, c, d, e, f, g, h)
    }

    /// The eight segments, most significant first.
    pub open spec fn segments(self) -> Seq<u16> {
        seq![self.0, self.1, self.2, self.3, self.4, self.5, self.6, self.7]
    }

    /// The sixteen octets as they stand in a packet.
    pub open spec fn bytes(self) -> Seq<u8> {
        Seq::new(
            16,
            |i: int|
                if i % 2 == 0 {
                    (self.segments()[i / 2] / 256) as u8
                } else {
                    (self.segments()[i / 2] % 256) as u8
                },
        )
    }
}

#[derive(Clone, Copy, Debug, PartialEq, Eq, Structural)]
pub enum IpAddr {
    V4(Ipv4Addr),
    V6(Ipv6Addr),
}

/// An Ethernet hardware address.
#[derive(Clone, Copy, Debug, PartialEq, Eq, Structural)]
pub struct MacAddr(pub u8, pub u8, pub u8, pub u8, pub u8, pub u8);

impl MacAddr {
    pub fn new(a: u8, b: u8, c: u8, d: u8, e: u8, f: u8) -> (r: Self)
        ensures
            r == MacAddr(a, b, c, d, e, f),
    {
        MacAddr(a, b, c, d, e, f)
    }

    /// The six octets as they stand in a frame.
    pub open spec fn bytes(self) -> Seq<u8> {
        seq![self.0, self.1, self.2, self.3, self.4, self.5]
    }
}

/// One flow: source address and port, destination address and port.
pub type NatKey = (IpAddr, u16, IpAddr, u16);

/// The same flow seen from the other end.
pub open spec fn flipped(key: NatKey) -> NatKey {
    (key.2, key.3, key.0, key.1)
}

/// Whether two keys name the same flow in the same direction.
pub fn same_key(a: &NatKey, b: &NatKey) -> (r: bool)
    ensures
        r == (*a == *b),
{
    a.0 == b.0 && a.1 == b.1 && a.2 == b.2 && a.3 == b.3
}

/// Swaps the two ends of a flow.
pub fn flip_key(key: NatKey) -> (r: NatKey)
    ensures
        r == flipped(key),
{
    (key.2, key.3, key.0, key.1)
}

/// Flipping a flow twice gives it back.
pub proof fn flip_is_an_involution(key: NatKey)
    ensures
        flipped(flipped(key)) == key,
{
}

/// The handle under which a host socket is registered for readiness events.
#[derive(Clone, Copy, Debug, PartialEq, Eq, Structural, Hash)]
pub struct Token(pub usize);

/// The readiness events that a host socket is registered for; never empty.
#[derive(Clone, Copy, Debug, PartialEq, Eq, Structural)]
pub enum Interest {
    Readable,
    Writable,
    Both,
}

impl Interest {
    pub open spec fn reads(self) -> bool {
        self is Readable || self is Both
    }

    pub open spec fn writes(self) -> bool {
        self is Writable || self is Both
    }

    pub fn is_readable(&self) -> (r: bool)
        ensures
            r == self.reads(),
    {
        matches!(self, Interest::Readable | Interest::Both)
    }

    pub fn is_writable(&self) -> (r: bool)
        ensures
            r == self.writes(),
    {
        matches!(self, Interest::Writable | Interest::Both)
    }
}

/// A reading of a monotonic clock, in nanoseconds.
pub type Instant = u64;

} // verus!
