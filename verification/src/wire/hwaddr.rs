//! Addresses of the link layer.

use vstd::prelude::*;
use vstd::std_specs::cmp::PartialEqSpecImpl;
use vstd::std_specs::convert::FromSpecImpl;
use crate::wire::bytes::{
    be_bytes, be_value, lemma_be_bytes_len, lemma_bytes_of_value, lemma_value_of_bytes, pow256,
};

verus! {

/// The number of bytes that a link-layer address has at most.
pub const MAX_HARDWARE_ADDRESS_LEN: usize = 6;

/// An Ethernet address.
#[derive(Debug, Clone, Copy, Eq, Hash)]
pub struct EthernetAddress(pub [u8; 6]);

impl PartialEq for EthernetAddress {
    fn eq(&self, other: &EthernetAddress) -> (r: bool) {
        let mut i: usize = 0;
        while i < 6
            invariant
                i <= 6,
                forall|k: int| 0 <= k < i ==> #[trigger] self.0@[k] == other.0@[k],
            decreases 6 - i,
        {
            if self.0[i] != other.0[i] {
                return false;
            }
            i = i + 1;
        }
        assert(self.0 =~= other.0);
        true
    }
}

impl PartialEqSpecImpl for EthernetAddress {
    open spec fn obeys_eq_spec() -> bool {
        true
    }

    open spec fn eq_spec(&self, other: &EthernetAddress) -> bool {
        *self == *other
    }
}

impl EthernetAddress {
    /// Whether the address names one host: the last bit of its first octet is
    /// not set, as it is in group addresses.
    pub open spec fn unicast(self) -> bool {
        self.0@[0] % 2 == 0
    }

    /// Whether the address names one host.
    pub fn is_unicast(&self) -> (r: bool)
        ensures
            r == self.unicast(),
    {
        self.0[0] % 2 == 0
    }
}

/// A link-layer address, or the absence of one where the link carries IP
/// packets directly.
#[derive(Debug, Clone, Copy, Eq, Hash)]
pub enum HardwareAddress {
    Ip,
    Ethernet(EthernetAddress),
}

impl PartialEq for HardwareAddress {
    fn eq(&self, other: &HardwareAddress) -> (r: bool) {
        match (self, other) {
            (HardwareAddress::Ip, HardwareAddress::Ip) => true,
            (HardwareAddress::Ethernet(a), HardwareAddress::Ethernet(b)) => *a == *b,
            _ => false,
        }
    }
}

impl PartialEqSpecImpl for HardwareAddress {
    open spec fn obeys_eq_spec() -> bool {
        true
    }

    open spec fn eq_spec(&self, other: &HardwareAddress) -> bool {
        *self == *other
    }
}

impl HardwareAddress {
    /// Whether the address names one host.
    pub open spec fn unicast(self) -> bool {
        self matches HardwareAddress::Ethernet(a) && a.unicast()
    }

    /// Whether the address names one host.
    pub fn is_unicast(&self) -> (r: bool)
        ensures
            r == self.unicast(),
    {
        match self {
            HardwareAddress::Ip => false,
            HardwareAddress::Ethernet(a) => a.is_unicast(),
        }
    }
}

/// A link-layer address as it stands in a packet: up to six bytes, kept as the
/// number that they spell.
#[derive(Debug, Clone, Copy, PartialEq, Eq, Hash, Structural)]
pub struct RawHardwareAddress {
    len: u8,
    bits: u64,
}

impl RawHardwareAddress {
    /// Whether the number fits the bytes.
    #[verifier::type_invariant]
    pub closed spec fn fits(self) -> bool {
        self.len <= MAX_HARDWARE_ADDRESS_LEN && self.bits < pow256(self.len as nat)
    }

    /// The bytes of the address.
    pub closed spec fn bytes(self) -> Seq<u8> {
        be_bytes(self.bits as nat, self.len as nat)
    }

    /// The address with the given bytes.
    pub closed spec fn of_bytes(b: Seq<u8>) -> RawHardwareAddress {
        RawHardwareAddress { len: b.len() as u8, bits: be_value(b) as u64 }
    }

    /// The address with the given bytes.
    pub fn from_bytes(b: &[u8]) -> (r: RawHardwareAddress)
        requires
            b@.len() <= MAX_HARDWARE_ADDRESS_LEN,
        ensures
            r == RawHardwareAddress::of_bytes(b@),
            r.bytes() == b@,
    {
        let mut bits: u64 = 0;
        let mut i: usize = 0;
        while i < b.len()
            invariant
                i <= b@.len() <= MAX_HARDWARE_ADDRESS_LEN,
                bits as nat == be_value(b@.take(i as int)),
            decreases b@.len() - i,
        {
            proof {
                let next = b@.take(i + 1);
                assert(next.drop_last() =~= b@.take(i as int));
                lemma_bytes_of_value(next);
                lemma_pow256_fits((i + 1) as nat);
            }
            bits = bits * 256 + b[i] as u64;
            i = i + 1;
        }
        proof {
            assert(b@.take(i as int) =~= b@);
            lemma_bytes_of_value(b@);
        }
        RawHardwareAddress { len: b.len() as u8, bits }
    }

    /// The number of bytes.
    pub fn len(&self) -> (r: usize)
        ensures
            r == self.bytes().len(),
            r <= MAX_HARDWARE_ADDRESS_LEN,
    {
        proof {
            use_type_invariant(self);
            lemma_be_bytes_len(self.bits as nat, self.len as nat);
        }
        self.len as usize
    }

    /// The bytes of the address.
    pub fn as_bytes(&self) -> (r: Vec<u8>)
        ensures
            r@ == self.bytes(),
            r@.len() <= MAX_HARDWARE_ADDRESS_LEN,
    {
        proof {
            use_type_invariant(self);
            lemma_be_bytes_len(self.bits as nat, self.len as nat);
        }
        let mut r: Vec<u8> = Vec::new();
        let mut i: u8 = 0;
        while i < self.len
            invariant
                i <= self.len,
                r@.len() == i,
                forall|k: int| 0 <= k < i ==> #[trigger] r@[k] == 0u8,
            decreases self.len - i,
        {
            r.push(0);
            i = i + 1;
        }
        let mut rest: u64 = self.bits;
        let mut i: usize = self.len as usize;
        proof {
            assert(be_bytes(rest as nat, i as nat) =~= be_bytes(rest as nat, i as nat)
                + r@.subrange(i as int, i as int));
        }
        while i > 0
            invariant
                i <= self.len,
                r@.len() == self.len,
                be_bytes(self.bits as nat, self.len as nat) == be_bytes(rest as nat, i as nat)
                    + r@.subrange(i as int, self.len as int),
            decreases i,
        {
            let ghost before = r@;
            let ghost old_rest = rest;
            i = i - 1;
            r.set(i, (rest % 256) as u8);
            rest = rest / 256;
            proof {
                lemma_be_bytes_len(rest as nat, i as nat);
                assert(be_bytes(old_rest as nat, (i + 1) as nat) == be_bytes(
                    rest as nat,
                    i as nat,
                ).push((old_rest % 256) as u8));
                assert(be_bytes(old_rest as nat, (i + 1) as nat) + before.subrange(
                    i + 1,
                    self.len as int,
                ) =~= be_bytes(rest as nat, i as nat) + r@.subrange(i as int, self.len as int));
            }
        }
        assert(be_bytes(rest as nat, 0) + r@.subrange(0, self.len as int) =~= r@);
        r
    }

    /// Reading the bytes of an address gives the address back.
    pub proof fn law_bytes_round_trip(self)
        requires
            self.fits(),
        ensures
            self.bytes().len() <= MAX_HARDWARE_ADDRESS_LEN,
            RawHardwareAddress::of_bytes(self.bytes()) == self,
    {
        lemma_be_bytes_len(self.bits as nat, self.len as nat);
        lemma_value_of_bytes(self.bits as nat, self.len as nat);
    }

    /// The bytes of the address with given bytes are those bytes.
    pub proof fn law_of_bytes(b: Seq<u8>)
        requires
            b.len() <= MAX_HARDWARE_ADDRESS_LEN,
        ensures
            RawHardwareAddress::of_bytes(b).bytes() == b,
            RawHardwareAddress::of_bytes(b).fits(),
    {
        lemma_bytes_of_value(b);
        lemma_pow256_fits(b.len());
    }
}

impl From<EthernetAddress> for RawHardwareAddress {
    fn from(a: EthernetAddress) -> (r: RawHardwareAddress) {
        RawHardwareAddress::from_bytes(a.0.as_slice())
    }
}

impl FromSpecImpl<EthernetAddress> for RawHardwareAddress {
    open spec fn obeys_from_spec() -> bool {
        true
    }

    open spec fn from_spec(a: EthernetAddress) -> RawHardwareAddress {
        RawHardwareAddress::of_bytes(a.0@)
    }
}

/// Six bytes or fewer spell a number of 48 bits.
proof fn lemma_pow256_fits(n: nat)
    requires
        n <= MAX_HARDWARE_ADDRESS_LEN,
    ensures
        pow256(n) <= 0x1_0000_0000_0000,
{
    reveal_with_fuel(pow256, 7);
}

} // verus!
