//! Which addresses prefixes and the classes of addresses consist of, as ranges
//! of numbers.

use vstd::arithmetic::div_mod::{lemma_fundamental_div_mod, lemma_mod_bound, lemma_mod_decreases};
use vstd::arithmetic::power2::{lemma2_to64, lemma_pow2_pos, pow2};
use vstd::prelude::*;
use crate::wire::ip::{IpAddress, IpCidr, Ipv4Address, Ipv4Cidr, Ipv6Address, Ipv6Cidr};

verus! {

/// Two numbers agree when divided by `d` if they lie in the same of the intervals
/// of length `d` that start at its multiples.
proof fn lemma_same_quotient(x: int, y: int, d: int)
    requires
        0 <= x,
        0 <= y,
        d > 0,
    ensures
        0 <= x % d < d,
        x / d == y / d <==> x - x % d <= y < x - x % d + d,
        x / d == y / d <==> x - x % d == y - y % d,
{
    lemma_fundamental_div_mod(x, d);
    lemma_fundamental_div_mod(y, d);
    lemma_mod_bound(x, d);
    lemma_mod_bound(y, d);
    let p = x / d;
    let q = y / d;
    if p == q {
        assert(d * p == d * q);
    } else if p < q {
        assert(d * q >= d * p + d) by (nonlinear_arith)
            requires
                q >= p + 1,
                d > 0,
        ;
    } else {
        assert(d * p >= d * q + d) by (nonlinear_arith)
            requires
                p >= q + 1,
                d > 0,
        ;
    }
}

/// The address with the bits behind a prefix cleared is the greatest multiple of
/// the size of the prefix that is not above the address.
pub proof fn law_masked_address(a: Ipv6Address, len: u8)
    requires
        len <= 128,
    ensures
        a.masked(len).bits as int % pow2((128 - len) as nat) as int == 0,
        a.masked(len).bits <= a.bits < a.masked(len).bits + pow2((128 - len) as nat),
{
    let d = pow2((128 - len) as nat);
    lemma_pow2_pos((128 - len) as nat);
    lemma_mod_bound(a.bits as int, d as int);
    lemma_mod_decreases(a.bits as nat, d);
    if len == 128 {
        lemma2_to64();
        assert(a.bits as int % 1 == 0);
    } else {
        let x = a.bits as int;
        let di = d as int;
        lemma_fundamental_div_mod(x, di);
        let m = a.masked(len).bits as int;
        assert(m == di * (x / di));
        vstd::arithmetic::div_mod::lemma_mod_multiples_basic(x / di, di);
        assert((x / di) * di == di * (x / di)) by (nonlinear_arith);
    }
}

/// A network consists of the addresses that agree with its own once the bits
/// behind the prefix are cleared: as many as those bits can count, from that
/// address on.
pub proof fn law_network_is_a_range(cidr: Ipv6Cidr, a: Ipv6Address)
    requires
        cidr.prefix_len <= 128,
    ensures
        cidr.contains(a) <==> a.masked(cidr.prefix_len) == cidr.address.masked(cidr.prefix_len),
        cidr.contains(a) <==> cidr.address.masked(cidr.prefix_len).bits <= a.bits
            < cidr.address.masked(cidr.prefix_len).bits + pow2((128 - cidr.prefix_len) as nat),
{
    lemma2_to64();
    lemma_pow2_pos((128 - cidr.prefix_len) as nat);
    let d = pow2((128 - cidr.prefix_len) as nat);
    lemma_same_quotient(cidr.address.bits as int, a.bits as int, d as int);
    lemma_mod_decreases(cidr.address.bits as nat, d);
    lemma_mod_decreases(a.bits as nat, d);
}

/// Two addresses agree in their leading bits if they are the same once the others
/// are cleared.
pub proof fn law_leading_bits(a: Ipv6Address, b: Ipv6Address, len: u8)
    requires
        len <= 128,
    ensures
        a.leading(len) == b.leading(len) <==> a.masked(len) == b.masked(len),
{
    law_network_is_a_range(Ipv6Cidr { address: a, prefix_len: len }, b);
}

/// A network of IPv4 consists of as many addresses as the bits behind its prefix
/// can count, from a multiple of that number on.
pub proof fn law_ipv4_network_is_a_range(cidr: Ipv4Cidr, a: Ipv4Address)
    requires
        cidr.prefix_len <= 32,
    ensures
        ({
            let size = pow2((32 - cidr.prefix_len) as nat) as int;
            let base = cidr.address.bits - cidr.address.bits as int % size;
            cidr.contains(a) <==> base <= a.bits < base + size
        }),
{
    lemma2_to64();
    lemma_pow2_pos((32 - cidr.prefix_len) as nat);
    lemma_same_quotient(
        cidr.address.bits as int,
        a.bits as int,
        pow2((32 - cidr.prefix_len) as nat) as int,
    );
}

/// No network holds an address of the other version.
pub proof fn law_versions_do_not_mix(
    c4: Ipv4Cidr,
    c6: Ipv6Cidr,
    a4: Ipv4Address,
    a6: Ipv6Address,
)
    ensures
        !IpCidr::Ipv4(c4).contains(IpAddress::Ipv6(a6)),
        !IpCidr::Ipv6(c6).contains(IpAddress::Ipv4(a4)),
        IpCidr::Ipv4(c4).contains(IpAddress::Ipv4(a4)) == c4.contains(a4),
        IpCidr::Ipv6(c6).contains(IpAddress::Ipv6(a6)) == c6.contains(a6),
        IpCidr::Ipv4(c4).len_of_prefix() == c4.prefix_len,
        IpCidr::Ipv6(c6).len_of_prefix() == c6.prefix_len,
{
}

/// The classes of addresses of IPv6, as ranges.
pub proof fn law_classes_of_ipv6_addresses(a: Ipv6Address)
    ensures
        a.multicast() <==> a.bits >= 0xff00_0000_0000_0000_0000_0000_0000_0000,
        a.link_local() <==> 0xfe80_0000_0000_0000_0000_0000_0000_0000 <= a.bits
            < 0xfe80_0000_0000_0001_0000_0000_0000_0000,
        a.unicast() <==> 0 < a.bits < 0xff00_0000_0000_0000_0000_0000_0000_0000,
{
}

/// The addresses of IPv4 that name one host, as ranges.
pub proof fn law_classes_of_ipv4_addresses(a: Ipv4Address)
    ensures
        a.unicast() <==> 0 < a.bits < 0xe000_0000 || 0xf000_0000 <= a.bits < 0xffff_ffff,
        IpAddress::Ipv4(a).unicast() == a.unicast(),
{
}

} // verus!
