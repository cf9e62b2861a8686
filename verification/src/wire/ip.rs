//! Addresses and address prefixes of the two versions of IP.

use vstd::arithmetic::div_mod::{lemma_basic_div, lemma_mod_decreases, lemma_small_mod};
use vstd::arithmetic::power2::{
    lemma2_to64, lemma_pow2_adds, lemma_pow2_pos, lemma_pow2_strictly_increases, lemma_pow2_unfold,
    pow2,
};
use vstd::prelude::*;
use crate::wire::bytes::{be_bytes, be_value, lemma_be_bytes_len, lemma_bytes_of_value, pow256};

verus! {

/// An IPv4 address.
#[derive(Debug, Clone, Copy, PartialEq, Eq, PartialOrd, Ord, Hash, Structural)]
pub struct Ipv4Address {
    pub bits: u32,
}

/// An IPv6 address.
#[derive(Debug, Clone, Copy, PartialEq, Eq, PartialOrd, Ord, Hash, Structural)]
pub struct Ipv6Address {
    pub bits: u128,
}

/// An address of either version.
#[derive(Debug, Clone, Copy, PartialEq, Eq, PartialOrd, Ord, Hash, Structural)]
pub enum IpAddress {
    Ipv4(Ipv4Address),
    Ipv6(Ipv6Address),
}

/// An IPv4 address and the number of its leading bits that name a network.
#[derive(Debug, Clone, Copy, PartialEq, Eq, PartialOrd, Ord, Hash, Structural)]
pub struct Ipv4Cidr {
    pub address: Ipv4Address,
    pub prefix_len: u8,
}

/// An IPv6 address and the number of its leading bits that name a network.
#[derive(Debug, Clone, Copy, PartialEq, Eq, PartialOrd, Ord, Hash, Structural)]
pub struct Ipv6Cidr {
    pub address: Ipv6Address,
    pub prefix_len: u8,
}

/// A network of either version.
#[derive(Debug, Clone, Copy, PartialEq, Eq, PartialOrd, Ord, Hash, Structural)]
pub enum IpCidr {
    Ipv4(Ipv4Cidr),
    Ipv6(Ipv6Cidr),
}

/// The number that the first `len` of the `width` bits of `bits` spell. A
/// length over the width counts as the width.
pub open spec fn leading_bits(bits: nat, width: nat, len: nat) -> nat {
    if len >= width {
        bits
    } else {
        bits / pow2((width - len) as nat)
    }
}

/// Two to the power `n`.
fn power_of_two(n: u8) -> (r: u128)
    requires
        n < 128,
    ensures
        r == pow2(n as nat),
        r > 0,
{
    let mut r: u128 = 1;
    let mut i: u8 = 0;
    proof {
        lemma2_to64();
    }
    while i < n
        invariant
            i <= n,
            n < 128,
            r == pow2(i as nat),
        decreases n - i,
    {
        proof {
            lemma_pow2_unfold((i + 1) as nat);
            lemma_pow2_strictly_increases((i + 1) as nat, 128);
            lemma2_to64();
            lemma_pow2_adds(64, 64);
        }
        r = r * 2;
        i = i + 1;
    }
    proof {
        lemma_pow2_pos(n as nat);
    }
    r
}

impl Ipv4Address {
    /// The address `a0.a1.a2.a3`.
    pub fn new(a0: u8, a1: u8, a2: u8, a3: u8) -> (r: Ipv4Address)
        ensures
            r.bits == a0 * 0x100_0000 + a1 * 0x1_0000 + a2 * 0x100 + a3,
    {
        Ipv4Address {
            bits: a0 as u32 * 0x100_0000 + a1 as u32 * 0x1_0000 + a2 as u32 * 0x100 + a3 as u32,
        }
    }

    /// Whether the address names one host: it is neither `0.0.0.0` nor
    /// `255.255.255.255` nor in `224.0.0.0/4`.
    pub open spec fn unicast(self) -> bool {
        self.bits != 0 && self.bits != 0xffff_ffff && self.bits / 0x1000_0000 != 0xe
    }

    /// Whether the address names one host.
    pub fn is_unicast(&self) -> (r: bool)
        ensures
            r == self.unicast(),
    {
        self.bits != 0 && self.bits != 0xffff_ffff && self.bits / 0x1000_0000 != 0xe
    }
}

impl Ipv6Address {
    /// The address `a0:a1:a2:a3:a4:a5:a6:a7`.
    pub fn new(a0: u16, a1: u16, a2: u16, a3: u16, a4: u16, a5: u16, a6: u16, a7: u16) -> (r:
        Ipv6Address)
        ensures
            r.bits == ((((((a0 * 0x1_0000 + a1) * 0x1_0000 + a2) * 0x1_0000 + a3) * 0x1_0000 + a4)
                * 0x1_0000 + a5) * 0x1_0000 + a6) * 0x1_0000 + a7,
    {
        let w0: u128 = a0 as u128 * 0x1_0000 + a1 as u128;
        let w1: u128 = (w0 * 0x1_0000 + a2 as u128) * 0x1_0000 + a3 as u128;
        let w2: u128 = (w1 * 0x1_0000 + a4 as u128) * 0x1_0000 + a5 as u128;
        let w3: u128 = (w2 * 0x1_0000 + a6 as u128) * 0x1_0000 + a7 as u128;
        Ipv6Address { bits: w3 }
    }

    /// The unspecified address, `::`.
    pub fn unspecified() -> (r: Ipv6Address)
        ensures
            r.bits == 0,
    {
        Ipv6Address { bits: 0 }
    }

    /// Whether the address is in `ff00::/8`.
    pub open spec fn multicast(self) -> bool {
        self.bits / 0x100_0000_0000_0000_0000_0000_0000_0000 == 0xff
    }

    /// Whether the address is in `fe80::/64`.
    pub open spec fn link_local(self) -> bool {
        self.bits / 0x1_0000_0000_0000_0000 == 0xfe80_0000_0000_0000
    }

    /// Whether the address names one host: it is neither `::` nor multicast.
    pub open spec fn unicast(self) -> bool {
        self.bits != 0 && !self.multicast()
    }

    /// The leading `len` bits, as a number.
    pub open spec fn leading(self, len: u8) -> nat {
        leading_bits(self.bits as nat, 128, len as nat)
    }

    /// Whether the address is in `ff00::/8`.
    pub fn is_multicast(&self) -> (r: bool)
        ensures
            r == self.multicast(),
    {
        self.bits / 0x100_0000_0000_0000_0000_0000_0000_0000 == 0xff
    }

    /// Whether the address is in `fe80::/64`.
    pub fn is_link_local(&self) -> (r: bool)
        ensures
            r == self.link_local(),
    {
        self.bits / 0x1_0000_0000_0000_0000 == 0xfe80_0000_0000_0000
    }

    /// Whether the address is the loopback address, `::1`.
    pub fn is_loopback(&self) -> (r: bool)
        ensures
            r == (self.bits == 1),
    {
        self.bits == 1
    }

    /// Whether the address is `::`.
    pub fn is_unspecified(&self) -> (r: bool)
        ensures
            r == (self.bits == 0),
    {
        self.bits == 0
    }

    /// Whether the address names one host.
    pub fn is_unicast(&self) -> (r: bool)
        ensures
            r == self.unicast(),
    {
        !self.is_unspecified() && !self.is_multicast()
    }

    /// The address with the bits behind the first `len` cleared.
    pub open spec fn masked(self, len: u8) -> Ipv6Address {
        if len >= 128 {
            self
        } else {
            Ipv6Address {
                bits: (self.bits - self.bits as int % pow2((128 - len) as nat) as int) as u128,
            }
        }
    }

    /// The address with the bits behind the first `len` cleared.
    pub fn mask(&self, len: u8) -> (r: Ipv6Address)
        ensures
            r == self.masked(len),
    {
        if len >= 128 {
            *self
        } else if len == 0 {
            proof {
                lemma2_to64();
                lemma_pow2_adds(64, 64);
                lemma_small_mod(self.bits as nat, pow2(128));
            }
            Ipv6Address { bits: 0 }
        } else {
            let d: u128 = power_of_two(128 - len);
            proof {
                lemma_mod_decreases(self.bits as nat, d as nat);
            }
            Ipv6Address { bits: self.bits - self.bits % d }
        }
    }

    /// Whether the two addresses agree in their leading `len` bits.
    pub fn same_leading(&self, other: &Ipv6Address, len: u8) -> (r: bool)
        ensures
            r == (self.leading(len) == other.leading(len)),
    {
        if len >= 128 {
            self.bits == other.bits
        } else if len == 0 {
            proof {
                lemma2_to64();
                lemma_pow2_adds(64, 64);
                lemma_basic_div(self.bits as int, pow2(128) as int);
                lemma_basic_div(other.bits as int, pow2(128) as int);
            }
            true
        } else {
            let d: u128 = power_of_two(128 - len);
            self.bits / d == other.bits / d
        }
    }

    /// The address whose octets are the first 16 bytes of `octets`.
    pub fn from_octets(octets: &[u8]) -> (r: Ipv6Address)
        requires
            octets@.len() >= 16,
        ensures
            r.bits as nat == be_value(octets@.subrange(0, 16)),
    {
        let mut bits: u128 = 0;
        let mut i: usize = 0;
        while i < 16
            invariant
                i <= 16,
                octets@.len() >= 16,
                bits as nat == be_value(octets@.subrange(0, i as int)),
            decreases 16 - i,
        {
            proof {
                let next = octets@.subrange(0, i + 1);
                assert(next.drop_last() =~= octets@.subrange(0, i as int));
                lemma_bytes_of_value(next);
                lemma_pow256_fits((i + 1) as nat);
            }
            bits = bits * 256 + octets[i] as u128;
            i = i + 1;
        }
        Ipv6Address { bits }
    }

    /// The 16 octets of the address.
    pub fn octets(&self) -> (r: [u8; 16])
        ensures
            r@ == be_bytes(self.bits as nat, 16),
    {
        let mut r: [u8; 16] = [0; 16];
        let mut rest: u128 = self.bits;
        let mut i: usize = 16;
        proof {
            assert(r@.subrange(16, 16) =~= Seq::<u8>::empty());
            assert(be_bytes(rest as nat, 16) =~= be_bytes(rest as nat, 16) + r@.subrange(16, 16));
        }
        while i > 0
            invariant
                i <= 16,
                be_bytes(self.bits as nat, 16) == be_bytes(rest as nat, i as nat) + r@.subrange(
                    i as int,
                    16,
                ),
            decreases i,
        {
            let ghost before = r@;
            let ghost old_rest = rest;
            i = i - 1;
            r[i] = (rest % 256) as u8;
            rest = rest / 256;
            proof {
                lemma_be_bytes_len(rest as nat, i as nat);
                assert(r@.subrange(i as int, 16) =~= seq![(old_rest % 256) as u8]
                    + before.subrange(i + 1, 16));
                assert(be_bytes(old_rest as nat, (i + 1) as nat) == be_bytes(
                    rest as nat,
                    i as nat,
                ).push((old_rest % 256) as u8));
                assert(be_bytes(old_rest as nat, (i + 1) as nat) + before.subrange(i + 1, 16)
                    =~= be_bytes(rest as nat, i as nat) + r@.subrange(i as int, 16));
            }
        }
        proof {
            assert(be_bytes(rest as nat, 0) + r@.subrange(0, 16) =~= r@);
        }
        r
    }
}

/// Sixteen bytes or fewer spell a number of 128 bits.
proof fn lemma_pow256_fits(n: nat)
    requires
        n <= 16,
    ensures
        pow256(n) <= 0x1_0000_0000_0000_0000_0000_0000_0000_0000,
{
    reveal_with_fuel(pow256, 17);
}

impl IpAddress {
    /// Whether the address names one host.
    pub open spec fn unicast(self) -> bool {
        match self {
            IpAddress::Ipv4(a) => a.unicast(),
            IpAddress::Ipv6(a) => a.unicast(),
        }
    }

    /// Whether the address names one host.
    pub fn is_unicast(&self) -> (r: bool)
        ensures
            r == self.unicast(),
    {
        match self {
            IpAddress::Ipv4(a) => a.is_unicast(),
            IpAddress::Ipv6(a) => a.is_unicast(),
        }
    }
}

impl From<Ipv4Address> for IpAddress {
    fn from(a: Ipv4Address) -> (r: IpAddress) {
        IpAddress::Ipv4(a)
    }
}

impl vstd::std_specs::convert::FromSpecImpl<Ipv4Address> for IpAddress {
    open spec fn obeys_from_spec() -> bool {
        true
    }

    open spec fn from_spec(a: Ipv4Address) -> IpAddress {
        IpAddress::Ipv4(a)
    }
}

impl From<Ipv6Address> for IpAddress {
    fn from(a: Ipv6Address) -> (r: IpAddress) {
        IpAddress::Ipv6(a)
    }
}

impl vstd::std_specs::convert::FromSpecImpl<Ipv6Address> for IpAddress {
    open spec fn obeys_from_spec() -> bool {
        true
    }

    open spec fn from_spec(a: Ipv6Address) -> IpAddress {
        IpAddress::Ipv6(a)
    }
}

impl Ipv4Cidr {
    /// The network of the addresses that share the first `prefix_len` bits of
    /// `address`.
    pub fn new(address: Ipv4Address, prefix_len: u8) -> (r: Ipv4Cidr)
        requires
            prefix_len <= 32,
        ensures
            r == (Ipv4Cidr { address, prefix_len }),
    {
        Ipv4Cidr { address, prefix_len }
    }

    /// Whether the network contains an address.
    pub open spec fn contains(self, a: Ipv4Address) -> bool {
        leading_bits(self.address.bits as nat, 32, self.prefix_len as nat) == leading_bits(
            a.bits as nat,
            32,
            self.prefix_len as nat,
        )
    }

    /// Whether the network contains an address.
    pub fn contains_addr(&self, a: &Ipv4Address) -> (r: bool)
        ensures
            r == self.contains(*a),
    {
        if self.prefix_len >= 32 {
            self.address.bits == a.bits
        } else {
            let d: u128 = power_of_two(32 - self.prefix_len);
            self.address.bits as u128 / d == a.bits as u128 / d
        }
    }
}

impl Ipv6Cidr {
    /// The network of the addresses that share the first `prefix_len` bits of
    /// `address`.
    pub fn new(address: Ipv6Address, prefix_len: u8) -> (r: Ipv6Cidr)
        requires
            prefix_len <= 128,
        ensures
            r == (Ipv6Cidr { address, prefix_len }),
    {
        Ipv6Cidr { address, prefix_len }
    }

    /// Whether the network contains an address.
    pub open spec fn contains(self, a: Ipv6Address) -> bool {
        self.address.leading(self.prefix_len) == a.leading(self.prefix_len)
    }

    /// Whether the network contains an address.
    pub fn contains_addr(&self, a: &Ipv6Address) -> (r: bool)
        ensures
            r == self.contains(*a),
    {
        self.address.same_leading(a, self.prefix_len)
    }

    /// The address.
    pub fn address(&self) -> (r: Ipv6Address)
        ensures
            r == self.address,
    {
        self.address
    }

    /// The number of leading bits that name the network.
    pub fn prefix_len(&self) -> (r: u8)
        ensures
            r == self.prefix_len,
    {
        self.prefix_len
    }
}

impl IpCidr {
    /// Whether the network contains an address. No network contains an address
    /// of the other version.
    pub open spec fn contains(self, a: IpAddress) -> bool {
        match (self, a) {
            (IpCidr::Ipv4(c), IpAddress::Ipv4(a)) => c.contains(a),
            (IpCidr::Ipv6(c), IpAddress::Ipv6(a)) => c.contains(a),
            _ => false,
        }
    }

    /// Whether the network contains an address.
    pub fn contains_addr(&self, a: &IpAddress) -> (r: bool)
        ensures
            r == self.contains(*a),
    {
        match (self, a) {
            (IpCidr::Ipv4(c), IpAddress::Ipv4(a)) => c.contains_addr(a),
            (IpCidr::Ipv6(c), IpAddress::Ipv6(a)) => c.contains_addr(a),
            _ => false,
        }
    }

    /// The number of leading bits that name the network.
    pub open spec fn len_of_prefix(self) -> u8 {
        match self {
            IpCidr::Ipv4(c) => c.prefix_len,
            IpCidr::Ipv6(c) => c.prefix_len,
        }
    }

    /// The number of leading bits that name the network.
    pub fn prefix_len(&self) -> (r: u8)
        ensures
            r == self.len_of_prefix(),
    {
        match self {
            IpCidr::Ipv4(c) => c.prefix_len,
            IpCidr::Ipv6(c) => c.prefix_len,
        }
    }
}

impl From<Ipv6Cidr> for IpCidr {
    fn from(c: Ipv6Cidr) -> (r: IpCidr) {
        IpCidr::Ipv6(c)
    }
}

impl vstd::std_specs::convert::FromSpecImpl<Ipv6Cidr> for IpCidr {
    open spec fn obeys_from_spec() -> bool {
        true
    }

    open spec fn from_spec(c: Ipv6Cidr) -> IpCidr {
        IpCidr::Ipv6(c)
    }
}

} // verus!
