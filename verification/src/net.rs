//! Address and prefix types for the routing tables.
//!
//! Addresses are held as plain integers: an IPv4 address is its 32 bits, an
//! IPv6 address its 128 bits. A prefix is an address together with a prefix
//! length; containment is defined on the leading `prefix_len` bits.

use vstd::prelude::*;

verus! {

/// An IPv4 address, as its 32 bits in network order.
#[derive(Clone, Copy, Debug, PartialEq, Eq, Structural, Hash)]
pub struct Ipv4Address {
    pub bits: u32,
}

impl Ipv4Address {
    /// The address `a.b.c.d`.
    pub fn from_octets(a: u8, b: u8, c: u8, d: u8) -> (r: Ipv4Address)
        ensures
            r.bits == ((a as u32) << 24u32) | ((b as u32) << 16u32) | ((c as u32) << 8u32) | (
            d as u32),
    {
        Ipv4Address {
            bits: ((a as u32) << 24u32) | ((b as u32) << 16u32) | ((c as u32) << 8u32) | (d as u32),
        }
    }

    /// The `i`-th octet, counted from the most significant.
    pub open spec fn spec_octet(self, i: int) -> u8 {
        if i == 0 {
            (self.bits >> 24u32) as u8
        } else if i == 1 {
            ((self.bits >> 16u32) & 0xff) as u8
        } else if i == 2 {
            ((self.bits >> 8u32) & 0xff) as u8
        } else {
            (self.bits & 0xff) as u8
        }
    }

    pub fn octets(&self) -> (r: [u8; 4])
        ensures
            r[0] == self.spec_octet(0),
            r[1] == self.spec_octet(1),
            r[2] == self.spec_octet(2),
            r[3] == self.spec_octet(3),
    {
        let b = self.bits;
        proof {
            assert((b >> 24u32) < 256 && ((b >> 16u32) & 0xff) < 256 && ((b >> 8u32) & 0xff) < 256
                && (b & 0xff) < 256) by (bit_vector);
        }
        [(b >> 24u32) as u8, ((b >> 16u32) & 0xff) as u8, ((b >> 8u32) & 0xff) as u8, (b
            & 0xff) as u8]
    }
}

/// An IP address of either family.
#[derive(Clone, Copy, Debug, PartialEq, Eq, Structural, Hash)]
pub enum IpAddress {
    V4(Ipv4Address),
    V6(u128),
}

/// An identifier a router uses for its own local RIB.
pub type RouterId = Ipv4Address;

/// A per-prefix path identifier (add-path / ECMP).
pub type PathId = u32;

/// An IPv4 prefix: the leading `prefix_len` bits of `addr`.
#[derive(Clone, Copy, Debug, PartialEq, Eq, Structural, Hash)]
pub struct Ipv4Net {
    pub addr: u32,
    pub prefix_len: u8,
}

/// An IPv6 prefix: the leading `prefix_len` bits of `addr`.
#[derive(Clone, Copy, Debug, PartialEq, Eq, Structural, Hash)]
pub struct Ipv6Net {
    pub addr: u128,
    pub prefix_len: u8,
}

/// A prefix of either address family.
#[derive(Clone, Copy, Debug, PartialEq, Eq, Structural, Hash)]
pub enum IpNet {
    V4(Ipv4Net),
    V6(Ipv6Net),
}

impl Ipv4Net {
    pub open spec fn wf(self) -> bool {
        self.prefix_len <= 32
    }

    /// `Some` exactly when the prefix length fits the address family.
    pub fn new(addr: u32, prefix_len: u8) -> (r: Option<Ipv4Net>)
        ensures
            r == if prefix_len <= 32 {
                Some(Ipv4Net { addr, prefix_len })
            } else {
                None::<Ipv4Net>
            },
    {
        if prefix_len <= 32 {
            Some(Ipv4Net { addr, prefix_len })
        } else {
            None
        }
    }
}

impl Ipv6Net {
    pub open spec fn wf(self) -> bool {
        self.prefix_len <= 128
    }

    /// `Some` exactly when the prefix length fits the address family.
    pub fn new(addr: u128, prefix_len: u8) -> (r: Option<Ipv6Net>)
        ensures
            r == if prefix_len <= 128 {
                Some(Ipv6Net { addr, prefix_len })
            } else {
                None::<Ipv6Net>
            },
    {
        if prefix_len <= 128 {
            Some(Ipv6Net { addr, prefix_len })
        } else {
            None
        }
    }
}

/// The supernet relation on IPv4 prefixes: `sup` covers `sub` when `sup` is no
/// longer than `sub` and the two agree on the leading `sup.prefix_len` bits.
pub open spec fn v4_contains(sup: Ipv4Net, sub: Ipv4Net) -> bool {
    &&& sup.prefix_len <= sub.prefix_len
    &&& (sup.prefix_len == 0 || (sup.addr >> ((32 - sup.prefix_len) as u32)) == (sub.addr >> ((32
        - sup.prefix_len) as u32)))
}

/// The supernet relation on IPv6 prefixes.
pub open spec fn v6_contains(sup: Ipv6Net, sub: Ipv6Net) -> bool {
    &&& sup.prefix_len <= sub.prefix_len
    &&& (sup.prefix_len == 0 || (sup.addr >> ((128 - sup.prefix_len) as u128)) == (sub.addr >> ((
    128 - sup.prefix_len) as u128)))
}

impl IpNet {
    pub open spec fn wf(self) -> bool {
        match self {
            IpNet::V4(n) => n.wf(),
            IpNet::V6(n) => n.wf(),
        }
    }

    pub open spec fn spec_prefix_len(self) -> u8 {
        match self {
            IpNet::V4(n) => n.prefix_len,
            IpNet::V6(n) => n.prefix_len,
        }
    }

    /// The supernet relation; never true across address families.
    pub open spec fn spec_contains(self, sub: IpNet) -> bool {
        match (self, sub) {
            (IpNet::V4(a), IpNet::V4(b)) => v4_contains(a, b),
            (IpNet::V6(a), IpNet::V6(b)) => v6_contains(a, b),
            _ => false,
        }
    }

    pub fn prefix_len(&self) -> (r: u8)
        ensures
            r == self.spec_prefix_len(),
    {
        match self {
            IpNet::V4(n) => n.prefix_len,
            IpNet::V6(n) => n.prefix_len,
        }
    }

    /// Decides the supernet relation `self` ⊇ `sub`.
    pub fn contains_net(&self, sub: &IpNet) -> (r: bool)
        requires
            self.wf(),
            sub.wf(),
        ensures
            r == self.spec_contains(*sub),
    {
        match (self, sub) {
            (IpNet::V4(a), IpNet::V4(b)) => a.prefix_len <= b.prefix_len && (a.prefix_len == 0 || (
            a.addr >> ((32 - a.prefix_len) as u32)) == (b.addr >> ((32 - a.prefix_len) as u32))),
            (IpNet::V6(a), IpNet::V6(b)) => a.prefix_len <= b.prefix_len && (a.prefix_len == 0 || (
            a.addr >> ((128 - a.prefix_len) as u128)) == (b.addr >> ((128 - a.prefix_len)
                as u128))),
            _ => false,
        }
    }
}

} // verus!
