//! Where the fields of options and of IPv6 headers stand, and which options count
//! in which messages.

use vstd::prelude::*;
use crate::time::Duration;
use crate::wire::bytes::{
    be_bytes, be_value, lemma_be_bytes_len, lemma_bytes_of_value, pow256, zeros,
};
use crate::wire::format_laws::{law_bits_of_flags, law_bytes_spell_numbers, lemma_digits};
use crate::wire::hwaddr::RawHardwareAddress;
use crate::wire::ip::Ipv6Address;
use crate::wire::ipv6::Ipv6Repr;
use crate::wire::ndisc::{lemma_fixed_len, offered, routes_bytes, Options, ReprView};
use crate::wire::ndiscoption::{
    lemma_option_len, secs_field, NdiscPrefixInformation, NdiscRouteInformation,
    NdiscRoutePreference, OptionView, RedirectedHeaderView,
};

verus! {

/// The number that the four bytes of `s` from `at` on spell.
pub open spec fn number_at(s: Seq<u8>, at: int) -> int {
    ((s[at] * 256 + s[at + 1]) * 256 + s[at + 2]) * 256 + s[at + 3]
}

proof fn lemma_number_at(s: Seq<u8>, at: int)
    requires
        0 <= at,
        at + 4 <= s.len(),
    ensures
        be_value(s.subrange(at, at + 4)) == number_at(s, at),
        0 <= number_at(s, at) < 0x1_0000_0000,
{
    law_bytes_spell_numbers(s[at], s[at + 1], s[at + 2], s[at + 3]);
    assert(s.subrange(at, at + 4) =~= seq![s[at], s[at + 1], s[at + 2], s[at + 3]]);
}

proof fn lemma_sixteen(s: Seq<u8>)
    requires
        s.len() == 16,
    ensures
        be_value(s) <= u128::MAX,
        be_bytes(be_value(s) as u128 as nat, 16) == s,
{
    lemma_bytes_of_value(s);
    reveal_with_fuel(pow256, 17);
}

/// A link-layer address stands behind the type and the length of its option, which
/// is of eight bytes. A longer option is not read.
pub proof fn law_link_layer_option_is_read(s: Seq<u8>)
    requires
        s.len() >= 8,
        s.len() == s[1] * 8,
        s[0] == 1 || s[0] == 2,
    ensures
        s[1] != 1 ==> OptionView::parsed(s) is None,
        s[1] == 1 && s[0] == 1 ==> (OptionView::parsed(s) matches Some(
            OptionView::SourceLinkLayerAddr(a),
        ) && a.bytes() == s.subrange(2, 8)),
        s[1] == 1 && s[0] == 2 ==> (OptionView::parsed(s) matches Some(
            OptionView::TargetLinkLayerAddr(a),
        ) && a.bytes() == s.subrange(2, 8)),
{
    RawHardwareAddress::law_of_bytes(s.subrange(2, 8));
}

/// Where the fields of an option for a prefix stand. One that is not of 32 bytes is
/// not read.
pub proof fn law_prefix_option_is_read(s: Seq<u8>)
    requires
        s.len() >= 32,
        s.len() == s[1] * 8,
        s[0] == 3,
    ensures
        s[1] != 4 ==> OptionView::parsed(s) is None,
        s[1] == 4 ==> (OptionView::parsed(s) matches Some(OptionView::PrefixInformation(p)) && {
            &&& p.prefix_len == s[2]
            &&& p.flags.on_link <==> s[3] & 0x80 != 0
            &&& p.flags.addrconf <==> s[3] & 0x40 != 0
            &&& p.valid_lifetime.micros == number_at(s, 4) * 1_000_000
            &&& p.preferred_lifetime.micros == number_at(s, 8) * 1_000_000
            &&& be_bytes(p.prefix.bits as nat, 16) == s.subrange(16, 32)
        }),
{
    law_bits_of_flags(s[3]);
    lemma_number_at(s, 4);
    lemma_number_at(s, 8);
    lemma_sixteen(s.subrange(16, 32));
}

/// The size of packets stands in the second half of its option. A longer option is
/// not read.
pub proof fn law_mtu_option_is_read(s: Seq<u8>)
    requires
        s.len() >= 8,
        s.len() == s[1] * 8,
        s[0] == 5,
    ensures
        s[1] != 1 ==> OptionView::parsed(s) is None,
        s[1] == 1 ==> (OptionView::parsed(s) matches Some(OptionView::Mtu(m)) && m == number_at(
            s,
            4,
        )),
{
    lemma_number_at(s, 4);
}

/// Where the fields of an option for a route stand. It is read if it has room for
/// the prefix, and no more than for a whole address. Bits behind the prefix do not
/// count.
pub proof fn law_route_option_is_read(s: Seq<u8>)
    requires
        s.len() >= 8,
        s.len() == s[1] * 8,
        s[0] == 24,
    ensures
        OptionView::parsed(s) is Some <==> s[2] <= 128 && s[1] <= 3 && s[2] <= (s.len() - 8) * 8,
        OptionView::parsed(s) is Some ==> (OptionView::parsed(s) matches Some(
            OptionView::RouteInformation(r),
        ) && {
            let code = (s[3] & 0x18) >> 3;
            &&& r.prefix_len == s[2]
            &&& r.preference == NdiscRoutePreference::High <==> code == 1
            &&& r.preference == NdiscRoutePreference::Medium <==> code == 0
            &&& r.preference == NdiscRoutePreference::Low <==> code == 3
            &&& r.preference == NdiscRoutePreference::Unknown(2) <==> code == 2
            &&& r.route_lifetime.micros == number_at(s, 4) * 1_000_000
            &&& exists|a: Ipv6Address|
                r.prefix == #[trigger] a.masked(s[2]) && be_bytes(a.bits as nat, 16) == s.skip(8)
                    + zeros((24 - s.len()) as nat)
        }),
{
    let octet = s[3];
    law_bits_of_flags(octet);
    assert((octet & 0x18) >> 3 <= 3) by (bit_vector);
    lemma_number_at(s, 4);
    if s[1] <= 3 {
        let full = s.skip(8) + zeros((24 - 8 * s[1]) as nat);
        lemma_sixteen(full);
        let a = Ipv6Address { bits: be_value(full) as u128 };
        assert(be_bytes(a.bits as nat, 16) == s.skip(8) + zeros((24 - s.len()) as nat));
        assert(a.masked(s[2]) == a.masked(s[2]));
    }
}

/// An option for the packet that caused a Redirect is read just if a packet with an
/// IPv6 header stands in it.
pub proof fn law_redirected_option_is_read(s: Seq<u8>)
    requires
        s.len() >= 48,
        s.len() == s[1] * 8,
        s[0] == 4,
    ensures
        match Ipv6Repr::parsed(s.skip(8)) {
            Some(h) => OptionView::parsed(s) matches Some(OptionView::RedirectedHeader(r))
                && r.header == h && r.data == s.skip(48),
            None => OptionView::parsed(s) is None,
        },
{
}

/// Where the fields of an IPv6 header stand, and which packets are read: those of
/// version six that are there in full.
pub proof fn law_fields_of_ipv6_header(s: Seq<u8>)
    ensures
        Ipv6Repr::parsed(s) is Some <==> s.len() >= 40 && s.len() >= 40 + s[4] * 256 + s[5] && s[0]
            / 16 == 6,
        Ipv6Repr::parsed(s) matches Some(h) ==> {
            &&& h.payload_len == s[4] * 256 + s[5]
            &&& h.next_header == s[6]
            &&& h.hop_limit == s[7]
            &&& be_bytes(h.src_addr.bits as nat, 16) == s.subrange(8, 24)
            &&& be_bytes(h.dst_addr.bits as nat, 16) == s.subrange(24, 40)
        },
{
    if s.len() >= 40 {
        law_bytes_spell_numbers(s[4], s[5], 0, 0);
        assert(s.subrange(4, 6) =~= seq![s[4], s[5]]);
        lemma_sixteen(s.subrange(8, 24));
        lemma_sixteen(s.subrange(24, 40));
    }
}

/// What is written as an IPv6 header.
pub proof fn law_ipv6_header_is_written(h: Ipv6Repr)
    ensures
        ({
            let b = h.bytes();
            &&& b.len() == 40
            &&& b[0] == 0x60 && b[1] == 0 && b[2] == 0 && b[3] == 0
            &&& b[4] * 256 + b[5] == h.payload_len
            &&& b[6] == h.next_header
            &&& b[7] == h.hop_limit
            &&& b.subrange(8, 24) == be_bytes(h.src_addr.bits as nat, 16)
            &&& b.subrange(24, 40) == be_bytes(h.dst_addr.bits as nat, 16)
        }),
{
    let b = h.bytes();
    let n = h.payload_len as nat;
    h.lemma_len();
    lemma_be_bytes_len(n, 2);
    lemma_be_bytes_len(h.src_addr.bits as nat, 16);
    lemma_be_bytes_len(h.dst_addr.bits as nat, 16);
    lemma_digits(n, 0);
    assert(b[4] == be_bytes(n, 2)[0] && b[5] == be_bytes(n, 2)[1]);
    assert(b.subrange(8, 24) =~= be_bytes(h.src_addr.bits as nat, 16));
    assert(b.subrange(24, 40) =~= be_bytes(h.dst_addr.bits as nat, 16));
}

/// What is written as an option for a link-layer address of six bytes.
pub proof fn law_link_layer_option_is_written(a: RawHardwareAddress)
    requires
        a.bytes().len() == 6,
    ensures
        OptionView::SourceLinkLayerAddr(a).bytes() == seq![1u8, 1u8] + a.bytes(),
        OptionView::TargetLinkLayerAddr(a).bytes() == seq![2u8, 1u8] + a.bytes(),
{
    assert(OptionView::SourceLinkLayerAddr(a).bytes() =~= seq![1u8, 1u8] + a.bytes());
    assert(OptionView::TargetLinkLayerAddr(a).bytes() =~= seq![2u8, 1u8] + a.bytes());
}

proof fn lemma_secs_bytes(d: Duration)
    ensures
        be_bytes(secs_field(d) as nat, 4).len() == 4,
        number_at(be_bytes(secs_field(d) as nat, 4), 0) == d.micros / 1_000_000 % 0x1_0000_0000,
{
    lemma_be_bytes_len(secs_field(d) as nat, 4);
    lemma_digits(0, secs_field(d) as nat);
}

/// What is written as an option for a prefix.
pub proof fn law_prefix_option_is_written(p: NdiscPrefixInformation)
    ensures
        ({
            let b = OptionView::PrefixInformation(p).bytes();
            &&& b.len() == 32
            &&& b[0] == 3 && b[1] == 4 && b[2] == p.prefix_len
            &&& b[3] & 0x80 != 0 <==> p.flags.on_link
            &&& b[3] & 0x40 != 0 <==> p.flags.addrconf
            &&& b[3] % 64 == 0
            &&& number_at(b, 4) == p.valid_lifetime.micros / 1_000_000 % 0x1_0000_0000
            &&& number_at(b, 8) == p.preferred_lifetime.micros / 1_000_000 % 0x1_0000_0000
            &&& b[12] == 0 && b[13] == 0 && b[14] == 0 && b[15] == 0
            &&& b.subrange(16, 32) == be_bytes(p.prefix.bits as nat, 16)
        }),
{
    let b = OptionView::PrefixInformation(p).bytes();
    let v = be_bytes(secs_field(p.valid_lifetime) as nat, 4);
    let q = be_bytes(secs_field(p.preferred_lifetime) as nat, 4);
    lemma_secs_bytes(p.valid_lifetime);
    lemma_secs_bytes(p.preferred_lifetime);
    lemma_be_bytes_len(p.prefix.bits as nat, 16);
    assert(b[3] == p.flags.octet());
    law_bits_of_flags(b[3]);
    assert(b[4] == v[0] && b[5] == v[1] && b[6] == v[2] && b[7] == v[3]);
    assert(b[8] == q[0] && b[9] == q[1] && b[10] == q[2] && b[11] == q[3]);
    assert(b.subrange(16, 32) =~= be_bytes(p.prefix.bits as nat, 16));
}

/// What is written as an option for the size of packets.
pub proof fn law_mtu_option_is_written(m: u32)
    ensures
        ({
            let b = OptionView::Mtu(m).bytes();
            &&& b.len() == 8
            &&& b[0] == 5 && b[1] == 1 && b[2] == 0 && b[3] == 0
            &&& number_at(b, 4) == m
        }),
{
    let b = OptionView::Mtu(m).bytes();
    let v = be_bytes(m as nat, 4);
    lemma_be_bytes_len(m as nat, 4);
    lemma_digits(0, m as nat);
    assert(b[4] == v[0] && b[5] == v[1] && b[6] == v[2] && b[7] == v[3]);
}

/// What is written as an option for a route: the front of the prefix, with the bits
/// behind its length cleared.
pub proof fn law_route_option_is_written(r: NdiscRouteInformation)
    requires
        r.prefix_len <= 128,
    ensures
        ({
            let b = OptionView::RouteInformation(r).bytes();
            &&& b.len() == b[1] * 8
            &&& b[0] == 24 && b[2] == r.prefix_len
            &&& r.preference == NdiscRoutePreference::High ==> b[3] == 0x08
            &&& r.preference == NdiscRoutePreference::Medium ==> b[3] == 0
            &&& r.preference == NdiscRoutePreference::Low ==> b[3] == 0x18
            &&& number_at(b, 4) == r.route_lifetime.micros / 1_000_000 % 0x1_0000_0000
            &&& b.skip(8) == be_bytes(r.prefix.masked(r.prefix_len).bits as nat, 16).take(
                b.len() - 8,
            )
        }),
{
    let b = OptionView::RouteInformation(r).bytes();
    let v = be_bytes(secs_field(r.route_lifetime) as nat, 4);
    let a = be_bytes(r.prefix.masked(r.prefix_len).bits as nat, 16);
    lemma_secs_bytes(r.route_lifetime);
    lemma_be_bytes_len(r.prefix.masked(r.prefix_len).bits as nat, 16);
    assert(b[4] == v[0] && b[5] == v[1] && b[6] == v[2] && b[7] == v[3]);
    assert(b.skip(8) =~= a.take(b.len() - 8));
}

/// Whatever an option says, it counts just for what it is about, and one that cannot
/// be read for nothing.
pub proof fn law_option_counts(o: Options, v: OptionView)
    ensures
        o.and(None) == o,
        match v {
            OptionView::SourceLinkLayerAddr(a) => o.and(Some(v)) == (Options {
                source: Some(a),
                ..o
            }),
            OptionView::TargetLinkLayerAddr(a) => o.and(Some(v)) == (Options {
                target: Some(a),
                ..o
            }),
            OptionView::PrefixInformation(p) => o.and(Some(v)) == (Options {
                prefix_info: Some(p),
                ..o
            }),
            OptionView::RedirectedHeader(h) => o.and(Some(v)) == (Options {
                redirected_hdr: Some(h),
                ..o
            }),
            OptionView::Mtu(m) => o.and(Some(v)) == (Options { mtu: Some(m), ..o }),
            OptionView::RouteInformation(r) => o.and(Some(v)) == (Options {
                route_info: offered(o.route_info, r),
                ..o
            }),
        },
{
}

/// The options in a buffer are read from its front on, whatever bytes they are made
/// of. Those for a prefix or a packet that are too short are an error.
pub proof fn law_front_option_is_read(o: Options, s: Seq<u8>)
    requires
        s.len() >= 8,
        s[1] > 0,
        s.len() >= s[1] * 8,
    ensures
        s[0] == 3 && s[1] < 4 || s[0] == 4 && s[1] < 6 ==> o.gathered(s) is None,
        !(s[0] == 3 && s[1] < 4 || s[0] == 4 && s[1] < 6) ==> o.gathered(s) == o.and(
            OptionView::parsed(s.take(s[1] * 8)),
        ).gathered(s.skip(s[1] * 8)),
        o.gathered(Seq::empty()) == Some(o),
{
}

/// What the options behind the header of a message say goes into the message: the
/// address of the sender or of the target, the size of packets, the prefix, the
/// routes and the packet that caused a Redirect.
pub proof fn law_options_of_messages(s: Seq<u8>)
    requires
        s.len() >= 8,
    ensures
        s[0] == 133 ==> match Options::none().gathered(s.skip(8)) {
            Some(o) => ReprView::parsed(s) == Some(ReprView::RouterSolicit { lladdr: o.source }),
            None => ReprView::parsed(s) is None,
        },
        s[0] == 134 && s.len() >= 16 ==> match Options::none().gathered(s.skip(16)) {
            Some(o) => ReprView::parsed(s) matches Some(
                ReprView::RouterAdvert { lladdr, mtu, prefix_info, route_info, .. },
            ) && lladdr == o.source && mtu == o.mtu && prefix_info == o.prefix_info && route_info
                == o.route_info,
            None => ReprView::parsed(s) is None,
        },
        s[0] == 135 && s.len() >= 24 ==> match Options::none().gathered(s.skip(24)) {
            Some(o) => ReprView::parsed(s) matches Some(ReprView::NeighborSolicit { lladdr, .. })
                && lladdr == o.source,
            None => ReprView::parsed(s) is None,
        },
        s[0] == 136 && s.len() >= 24 ==> match Options::none().gathered(s.skip(24)) {
            Some(o) => ReprView::parsed(s) matches Some(ReprView::NeighborAdvert { lladdr, .. })
                && lladdr == o.target,
            None => ReprView::parsed(s) is None,
        },
        s[0] == 137 && s.len() >= 40 ==> match Options::none().gathered(s.skip(40)) {
            Some(o) => ReprView::parsed(s) matches Some(
                ReprView::Redirect { lladdr, redirected_hdr, .. },
            ) && lladdr == o.source && redirected_hdr == o.redirected_hdr,
            None => ReprView::parsed(s) is None,
        },
{
}

/// Without options nothing is known of what they are about.
pub proof fn law_no_options()
    ensures
        ({
            let o = Options::none();
            &&& o.source is None && o.target is None && o.mtu is None
            &&& o.prefix_info is None && o.redirected_hdr is None
            &&& forall|i: int|
                0 <= i < o.route_info.len() ==> (#[trigger] o.route_info[i]) is None
        }),
{
}

/// What is written as an option for the packet that caused a Redirect: its header
/// and its data behind eight bytes, filled up with zeros to a multiple of eight bytes.
pub proof fn law_redirected_option_is_written(h: RedirectedHeaderView)
    requires
        h.data.len() <= 255 * 8 - 48,
    ensures
        ({
            let b = OptionView::RedirectedHeader(h).bytes();
            let end = 48 + h.data.len() as int;
            &&& b[0] == 4 && b[1] * 8 == b.len()
            &&& end <= b.len() < end + 8
            &&& forall|i: int| 2 <= i < 8 ==> #[trigger] b[i] == 0
            &&& b.subrange(8, 48) == h.header.bytes()
            &&& b.subrange(48, end) == h.data
            &&& forall|i: int| end <= i < b.len() ==> #[trigger] b[i] == 0
        }),
{
    let b = OptionView::RedirectedHeader(h).bytes();
    h.header.lemma_len();
    lemma_option_len(OptionView::RedirectedHeader(h));
    assert(b.subrange(8, 48) =~= h.header.bytes());
    assert(b.subrange(48, 48 + h.data.len() as int) =~= h.data);
}

/// A message is written as its header, of as many bytes as its type asks for, and its
/// options in a fixed order. An option that is not there takes no bytes.
pub proof fn law_layout_of_messages(v: ReprView)
    ensures
        v.body().len() == v.fixed().len() + v.options().len(),
        v.body().take(v.fixed().len() as int) == v.fixed(),
        v.body().skip(v.fixed().len() as int) == v.options(),
        match v {
            ReprView::RouterSolicit { lladdr } => v.fixed().len() == 4 && v.options()
                == source_part(lladdr),
            ReprView::RouterAdvert { lladdr, mtu, prefix_info, route_info, .. } => {
                &&& v.fixed().len() == 12
                &&& v.options() == source_part(lladdr) + mtu_part(mtu) + prefix_part(prefix_info)
                    + routes_bytes(route_info)
            },
            ReprView::NeighborSolicit { lladdr, .. } => v.fixed().len() == 20 && v.options()
                == source_part(lladdr),
            ReprView::NeighborAdvert { lladdr, .. } => v.fixed().len() == 20 && v.options()
                == target_part(lladdr),
            ReprView::Redirect { lladdr, redirected_hdr, .. } => {
                &&& v.fixed().len() == 36
                &&& v.options() == target_part(lladdr) + redirected_part(redirected_hdr)
            },
        },
{
    lemma_fixed_len(v);
    assert(v.body().take(v.fixed().len() as int) =~= v.fixed());
    assert(v.body().skip(v.fixed().len() as int) =~= v.options());
}

/// The bytes of an option, and none where there is no option.
pub open spec fn part(option: Option<OptionView>) -> Seq<u8> {
    match option {
        Some(v) => v.bytes(),
        None => Seq::empty(),
    }
}

/// The part of a message for the link-layer address of the sender.
pub open spec fn source_part(a: Option<RawHardwareAddress>) -> Seq<u8> {
    part(
        match a {
            Some(a) => Some(OptionView::SourceLinkLayerAddr(a)),
            None => None,
        },
    )
}

/// The part of a message for the link-layer address of the target.
pub open spec fn target_part(a: Option<RawHardwareAddress>) -> Seq<u8> {
    part(
        match a {
            Some(a) => Some(OptionView::TargetLinkLayerAddr(a)),
            None => None,
        },
    )
}

/// The part of a message for the size of packets.
pub open spec fn mtu_part(m: Option<u32>) -> Seq<u8> {
    part(
        match m {
            Some(m) => Some(OptionView::Mtu(m)),
            None => None,
        },
    )
}

/// The part of a message for a prefix.
pub open spec fn prefix_part(p: Option<NdiscPrefixInformation>) -> Seq<u8> {
    part(
        match p {
            Some(p) => Some(OptionView::PrefixInformation(p)),
            None => None,
        },
    )
}

/// The part of a message for the packet that caused a Redirect.
pub open spec fn redirected_part(h: Option<RedirectedHeaderView>) -> Seq<u8> {
    part(
        match h {
            Some(h) => Some(OptionView::RedirectedHeader(h)),
            None => None,
        },
    )
}

/// Every route of a list is written, one after the other, and a free entry takes no
/// bytes.
pub proof fn law_every_route_is_written(
    entries: Seq<Option<NdiscRouteInformation>>,
    r: NdiscRouteInformation,
)
    ensures
        routes_bytes(Seq::empty()) == Seq::<u8>::empty(),
        routes_bytes(entries.push(Some(r))) == routes_bytes(entries)
            + OptionView::RouteInformation(r).bytes(),
        routes_bytes(entries.push(None)) == routes_bytes(entries),
{
    assert(entries.push(Some(r)).drop_last() =~= entries);
    assert(entries.push(None).drop_last() =~= entries);
    assert(routes_bytes(entries.push(None)) =~= routes_bytes(entries));
}

} // verus!
