//! What messages look like on the wire, byte by byte, and what becomes of the
//! routes and options that they carry.

use vstd::prelude::*;
use crate::config::IFACE_MAX_ROUTE_COUNT;
use crate::sequences::{first_index, is_first, lemma_first_index, lemma_no_first};
use crate::wire::address_laws::law_leading_bits;
use crate::wire::bytes::{be_bytes, be_value, lemma_be_bytes_len, lemma_bytes_of_value};
use crate::wire::icmpv6::{folded, has_header, payload_of, pseudo_header, word_sum};
use crate::wire::ip::Ipv6Address;
use crate::wire::ndisc::{
    has_prefix_of, is_lasting, lemma_fixed_len, no_entries, offered, offered_all, place_in,
    preference_bits, prefixes_distinct, routes_in, NeighborFlags, Options, ReprView, RouterFlags,
};
use crate::wire::ndiscoption::{
    carried_routes, has_option, law_option_round_trip, lemma_option_len, option_len,
    NdiscPrefixInfoFlags, NdiscRouteInformation, NdiscRoutePreference, OptionView,
};

verus! {

/// The numbers that two, three and four bytes spell.
pub proof fn law_bytes_spell_numbers(a: u8, b: u8, c: u8, d: u8)
    ensures
        be_value(seq![a, b]) == a * 256 + b,
        be_value(seq![a, b, c, d]) == ((a * 256 + b) * 256 + c) * 256 + d,
{
    let two = seq![a, b];
    let three = seq![a, b, c];
    let four = seq![a, b, c, d];
    assert(two.drop_last() =~= seq![a]);
    assert(seq![a].drop_last() =~= Seq::<u8>::empty());
    assert(three.drop_last() =~= two);
    assert(four.drop_last() =~= three);
    reveal_with_fuel(be_value, 5);
}

/// The preferences are ordered: high, medium, low. One without a meaning stands
/// with the medium one.
pub proof fn law_preferences_are_ordered(x: u8)
    ensures
        NdiscRoutePreference::High.rank_of() > NdiscRoutePreference::Medium.rank_of(),
        NdiscRoutePreference::Medium.rank_of() > NdiscRoutePreference::Low.rank_of(),
        NdiscRoutePreference::Unknown(x).rank_of() == NdiscRoutePreference::Medium.rank_of(),
{
}

/// The codes of the preferences, and what becomes of one without a meaning in the
/// header of a Router Advertisement.
pub proof fn law_codes_of_preferences(x: u8)
    ensures
        NdiscRoutePreference::of_code(0) == NdiscRoutePreference::Medium,
        NdiscRoutePreference::of_code(1) == NdiscRoutePreference::High,
        NdiscRoutePreference::of_code(3) == NdiscRoutePreference::Low,
        x != 0 && x != 1 && x != 3 ==> NdiscRoutePreference::of_code(x)
            == NdiscRoutePreference::Unknown(x),
        NdiscRoutePreference::of_code(x).code() == x,
        NdiscRoutePreference::Unknown(x).normalized() == NdiscRoutePreference::Medium,
        NdiscRoutePreference::High.normalized() == NdiscRoutePreference::High,
        NdiscRoutePreference::Medium.normalized() == NdiscRoutePreference::Medium,
        NdiscRoutePreference::Low.normalized() == NdiscRoutePreference::Low,
{
}

/// The bits of the flags.
pub proof fn law_bits_of_flags(octet: u8)
    ensures
        RouterFlags::of_bits(octet).managed <==> octet & 0x80 != 0,
        RouterFlags::of_bits(octet).other <==> octet & 0x40 != 0,
        preference_bits(octet) == (octet & 0x18) >> 3,
        NeighborFlags::of_bits(octet).router <==> octet & 0x80 != 0,
        NeighborFlags::of_bits(octet).solicited <==> octet & 0x40 != 0,
        NeighborFlags::of_bits(octet).overrides <==> octet & 0x20 != 0,
        NdiscPrefixInfoFlags::of_bits(octet).on_link <==> octet & 0x80 != 0,
        NdiscPrefixInfoFlags::of_bits(octet).addrconf <==> octet & 0x40 != 0,
{
    assert(octet >= 128 <==> octet & 0x80 != 0) by (bit_vector);
    assert(octet % 128 >= 64 <==> octet & 0x40 != 0) by (bit_vector);
    assert(octet % 64 >= 32 <==> octet & 0x20 != 0) by (bit_vector);
    assert(octet / 8 % 4 == (octet & 0x18) >> 3) by (bit_vector);
}

/// A set of flags is written as just its bits.
pub proof fn law_flags_are_written_as_bits(
    r: RouterFlags,
    n: NeighborFlags,
    p: NdiscPrefixInfoFlags,
)
    ensures
        RouterFlags::of_bits(r.octet()) == r,
        r.octet() % 64 == 0,
        NeighborFlags::of_bits(n.octet()) == n,
        n.octet() % 32 == 0,
        NdiscPrefixInfoFlags::of_bits(p.octet()) == p,
        p.octet() % 64 == 0,
{
}

/// Two routes have the same prefix if the lengths are the same and the prefixes
/// are, up to that length, bit for bit.
pub proof fn law_same_prefix(a: NdiscRouteInformation, b: NdiscRouteInformation)
    ensures
        a.agrees(b) <==> a.prefix_len == b.prefix_len && a.prefix.masked(a.prefix_len)
            == b.prefix.masked(b.prefix_len),
{
    if a.prefix_len <= 128 {
        law_leading_bits(a.prefix, b.prefix, a.prefix_len);
    }
}

/// A route makes sense if an address has as many bits as its prefix, and its
/// preference is low, medium or high.
pub proof fn law_routes_that_make_sense(r: NdiscRouteInformation)
    ensures
        r.valid() <==> r.prefix_len <= 128 && (r.preference == NdiscRoutePreference::Low
            || r.preference == NdiscRoutePreference::Medium || r.preference
            == NdiscRoutePreference::High),
{
}

/// Whether no entry has the prefix, length and bits.
pub open spec fn prefix_is_new(
    entries: Seq<Option<NdiscRouteInformation>>,
    prefix_len: u8,
    prefix: Ipv6Address,
) -> bool {
    forall|i: int|
        0 <= i < entries.len() && (#[trigger] entries[i]) is Some ==> entries[i]->0.prefix_len
            != prefix_len || entries[i]->0.prefix.masked(prefix_len) != prefix.masked(prefix_len)
}

proof fn lemma_no_duplicate(
    entries: Seq<Option<NdiscRouteInformation>>,
    info: NdiscRouteInformation,
)
    requires
        prefix_is_new(entries, info.prefix_len, info.prefix),
    ensures
        first_index(entries, |e: Option<NdiscRouteInformation>| has_prefix_of(e, info)) is None,
{
    let same = |e: Option<NdiscRouteInformation>| has_prefix_of(e, info);
    lemma_first_index(entries, same);
    assert forall|i: int| 0 <= i < entries.len() implies !same(#[trigger] entries[i]) by {
        if entries[i] is Some {
            law_same_prefix(entries[i]->0, info);
        }
    }
}

/// A route to a prefix that the list does not have takes the first free position,
/// and every other entry stays.
pub proof fn law_new_route_is_appended(
    entries: Seq<Option<NdiscRouteInformation>>,
    info: NdiscRouteInformation,
    free: int,
)
    requires
        info.prefix_len <= 128,
        !(info.preference is Unknown),
        prefix_is_new(entries, info.prefix_len, info.prefix),
        0 <= free < entries.len(),
        entries[free] is None,
        forall|i: int| 0 <= i < free ==> (#[trigger] entries[i]) is Some,
    ensures
        place_in(entries, info) is Some,
        offered(entries, info) == entries.update(free, Some(info)),
{
    let f = |e: Option<NdiscRouteInformation>| e is None;
    lemma_no_duplicate(entries, info);
    lemma_first_index(entries, f);
    assert(is_first(entries, f, free));
}

/// Two routes to different prefixes both find a place in an empty list.
pub proof fn law_two_routes_find_a_place(a: NdiscRouteInformation, b: NdiscRouteInformation)
    requires
        a.prefix_len <= 128,
        b.prefix_len <= 128,
        !(a.preference is Unknown),
        !(b.preference is Unknown),
        a.prefix_len != b.prefix_len || a.prefix.masked(a.prefix_len) != b.prefix.masked(
            b.prefix_len,
        ),
        IFACE_MAX_ROUTE_COUNT >= 2,
    ensures
        offered(offered(no_entries(), a), b) == no_entries().update(0, Some(a)).update(1, Some(b)),
        offered_all(no_entries(), seq![a, b]) == no_entries().update(0, Some(a)).update(
            1,
            Some(b),
        ),
{
    law_new_route_is_appended(no_entries(), a, 0);
    let one = no_entries().update(0, Some(a));
    assert(prefix_is_new(one, b.prefix_len, b.prefix));
    law_new_route_is_appended(one, b, 1);
    reveal_with_fuel(offered_all, 3);
    assert(seq![a, b].drop_last() =~= seq![a]);
    assert(seq![a].drop_last() =~= Seq::<NdiscRouteInformation>::empty());
}

/// A route to a prefix that the list has takes the place of that entry if it is a
/// withdrawal or is preferred more, and is refused otherwise. No other entry
/// changes.
pub proof fn law_duplicate_route(
    entries: Seq<Option<NdiscRouteInformation>>,
    info: NdiscRouteInformation,
    i: int,
)
    requires
        info.prefix_len <= 128,
        !(info.preference is Unknown),
        prefixes_distinct(entries),
        0 <= i < entries.len(),
        entries[i] is Some,
        entries[i]->0.prefix_len == info.prefix_len,
        entries[i]->0.prefix.masked(info.prefix_len) == info.prefix.masked(info.prefix_len),
    ensures
        ({
            let taken = info.route_lifetime.micros == 0 || info.preference.rank_of()
                > entries[i]->0.preference.rank_of();
            &&& place_in(entries, info) is Some <==> taken
            &&& taken ==> offered(entries, info) == entries.update(i, Some(info))
            &&& !taken ==> offered(entries, info) == entries
        }),
{
    let same = |e: Option<NdiscRouteInformation>| has_prefix_of(e, info);
    lemma_first_index(entries, same);
    law_same_prefix(entries[i]->0, info);
    if first_index(entries, same) is None {
        lemma_no_first(entries, same);
        assert(!same(entries[i]));
    }
    let d = first_index(entries, same)->0;
    assert(is_first(entries, same, d));
    law_same_prefix(entries[d]->0, info);
    if d < i {
        law_same_prefix(entries[d]->0, entries[i]->0);
        assert(entries[d] is Some && entries[i] is Some);
    }
    assert(!(i < d)) by {
        if i < d {
            assert(!same(entries[i]));
        }
    }
}

/// A full list refuses a route to another prefix, unless it is a withdrawal and
/// the list holds a route that is not: the first such one gives way.
pub proof fn law_full_list(
    entries: Seq<Option<NdiscRouteInformation>>,
    info: NdiscRouteInformation,
)
    requires
        info.prefix_len <= 128,
        !(info.preference is Unknown),
        prefix_is_new(entries, info.prefix_len, info.prefix),
        forall|i: int| 0 <= i < entries.len() ==> (#[trigger] entries[i]) is Some,
    ensures
        info.route_lifetime.micros > 0 ==> place_in(entries, info) is None && offered(entries, info)
            == entries,
        forall|i: int|
            0 <= i < entries.len() && info.route_lifetime.micros == 0 && (
            #[trigger] entries[i])->0.route_lifetime.micros > 0 && (forall|j: int|
                0 <= j < i ==> (#[trigger] entries[j])->0.route_lifetime.micros == 0)
                ==> place_in(entries, info) is Some && offered(entries, info) == entries.update(
                i,
                Some(info),
            ),
        (forall|i: int|
            0 <= i < entries.len() ==> (#[trigger] entries[i])->0.route_lifetime.micros == 0)
            ==> place_in(entries, info) is None && offered(entries, info) == entries,
{
    let free = |e: Option<NdiscRouteInformation>| e is None;
    let lasting = |e: Option<NdiscRouteInformation>| is_lasting(e);
    lemma_no_duplicate(entries, info);
    lemma_first_index(entries, free);
    lemma_first_index(entries, lasting);
    assert(first_index(entries, free) is None);
    assert forall|i: int|
        0 <= i < entries.len() && info.route_lifetime.micros == 0 && (
        #[trigger] entries[i])->0.route_lifetime.micros > 0 && (forall|j: int|
            0 <= j < i ==> (
            #[trigger] entries[j])->0.route_lifetime.micros == 0) implies place_in(
        entries,
        info,
    ) is Some && offered(entries, info) == entries.update(i, Some(info)) by {
        assert(is_first(entries, lasting, i));
    }
}

/// A route that does not make sense is refused by every list.
pub proof fn law_senseless_route_is_refused(
    entries: Seq<Option<NdiscRouteInformation>>,
    info: NdiscRouteInformation,
)
    requires
        info.prefix_len > 128 || info.preference is Unknown,
    ensures
        place_in(entries, info) is None,
        offered(entries, info) == entries,
{
}

/// The routes of a list are its entries that are not free, in order.
pub proof fn law_routes_of_a_list(entries: Seq<Option<NdiscRouteInformation>>, n: int)
    requires
        0 <= n <= entries.len(),
        forall|i: int| 0 <= i < n ==> (#[trigger] entries[i]) is Some,
        forall|i: int| n <= i < entries.len() ==> (#[trigger] entries[i]) is None,
    ensures
        routes_in(entries) == Seq::new(n as nat, |i: int| entries[i]->0),
    decreases entries.len(),
{
    if entries.len() > 0 {
        let first = entries.drop_last();
        let last = entries.len() - 1;
        assert forall|i: int| 0 <= i < first.len() implies first[i] == #[trigger] entries[i] by {}
        if n == entries.len() {
            assert(entries[last] is Some);
            law_routes_of_a_list(first, n - 1);
            assert(routes_in(entries) =~= Seq::new(n as nat, |i: int| entries[i]->0));
        } else {
            assert(entries[last] is None);
            law_routes_of_a_list(first, n);
            assert(routes_in(entries) =~= Seq::new(n as nat, |i: int| entries[i]->0));
        }
    } else {
        assert(routes_in(entries) =~= Seq::new(n as nat, |i: int| entries[i]->0));
    }
}

/// The bytes of an option are read as that option, whatever stands behind them.
proof fn lemma_front_option(v: OptionView, rest: Seq<u8>)
    requires
        v.canonical(),
    ensures
        has_option(v.bytes() + rest),
        option_len(v.bytes() + rest) == v.bytes().len(),
        OptionView::parsed((v.bytes() + rest).take(v.bytes().len() as int)) == Some(v),
        (v.bytes() + rest).skip(v.bytes().len() as int) == rest,
        v.bytes().len() >= 8,
{
    law_option_round_trip(v);
    let s = v.bytes() + rest;
    let n = v.bytes().len() as int;
    assert(s[0] == v.bytes()[0] && s[1] == v.bytes()[1]);
    assert(s.take(n) =~= v.bytes());
    assert(s.skip(n) =~= rest);
}

/// An option counts whatever the options before it said, so that of several of
/// one kind the last counts, and it changes nothing of what others said.
pub proof fn law_last_option_counts(o: Options, v: OptionView)
    requires
        v.canonical(),
    ensures
        o.gathered(v.bytes()) is Some,
        ({
            let r = o.gathered(v.bytes())->0;
            &&& v matches OptionView::SourceLinkLayerAddr(a) ==> r == Options {
                source: Some(a),
                ..o
            }
            &&& v matches OptionView::TargetLinkLayerAddr(a) ==> r == Options {
                target: Some(a),
                ..o
            }
            &&& v matches OptionView::PrefixInformation(p) ==> r == Options {
                prefix_info: Some(p),
                ..o
            }
            &&& v matches OptionView::RedirectedHeader(h) ==> r == Options {
                redirected_hdr: Some(h),
                ..o
            }
            &&& v matches OptionView::Mtu(m) ==> r == Options { mtu: Some(m), ..o }
            &&& v matches OptionView::RouteInformation(i) ==> r == Options {
                route_info: offered(o.route_info, i),
                ..o
            }
        }),
{
    lemma_front_option(v, Seq::empty());
    assert(v.bytes() + Seq::<u8>::empty() =~= v.bytes());
    reveal_with_fuel(Options::gathered, 2);
}

/// Options are read one after the other.
pub proof fn law_options_are_read_in_turn(o: Options, v: OptionView, rest: Seq<u8>)
    requires
        v.canonical(),
    ensures
        match o.gathered(v.bytes()) {
            Some(r) => o.gathered(v.bytes() + rest) == r.gathered(rest),
            None => false,
        },
{
    lemma_front_option(v, rest);
    lemma_front_option(v, Seq::empty());
    assert(v.bytes() + Seq::<u8>::empty() =~= v.bytes());
    reveal_with_fuel(Options::gathered, 2);
}

/// An option of a type that is not known is passed over.
pub proof fn law_unknown_option_is_passed_over(o: Options, s: Seq<u8>)
    requires
        s.len() >= 8,
        s[1] > 0,
        s.len() >= s[1] * 8,
        s[0] != 1 && s[0] != 2 && s[0] != 3 && s[0] != 4 && s[0] != 5 && s[0] != 24,
    ensures
        o.gathered(s) == o.gathered(s.skip(s[1] * 8)),
        carried_routes(s) == carried_routes(s.skip(s[1] * 8)),
{
    assert(s.take(s[1] * 8)[0] == s[0]);
}

/// Options that are cut off, or whose length is zero, are an error.
pub proof fn law_broken_options_are_errors(o: Options, s: Seq<u8>)
    requires
        0 < s.len() < 8 || s.len() >= 8 && (s[1] == 0 || s.len() < s[1] * 8),
    ensures
        o.gathered(s) is None,
        carried_routes(s) is None,
{
}

/// Every route that options carry is among those read, in its place.
pub proof fn law_carried_routes_are_read_in_turn(r: NdiscRouteInformation, rest: Seq<u8>)
    requires
        r.canonical(),
        !(r.preference is Unknown),
        carried_routes(rest) is Some,
    ensures
        carried_routes(OptionView::RouteInformation(r).bytes() + rest) == Some(
            seq![r] + carried_routes(rest)->0,
        ),
{
    lemma_front_option(OptionView::RouteInformation(r), rest);
}

/// As much of the prefix of a route is sent as counts, and not eight bytes more.
pub proof fn law_sent_part_of_prefix(r: NdiscRouteInformation)
    requires
        r.prefix_len <= 128,
    ensures
        ({
            let sent = OptionView::RouteInformation(r).bytes().len() - 8;
            &&& sent * 8 >= r.prefix_len
            &&& sent >= 8 ==> (sent - 8) * 8 < r.prefix_len
            &&& OptionView::RouteInformation(r).bytes().len() % 8 == 0
        }),
{
    lemma_option_len(OptionView::RouteInformation(r));
}

/// The first byte of a message tells its type, and only the five types of
/// Neighbor Discovery are read.
pub proof fn law_types_of_messages(s: Seq<u8>)
    requires
        s.len() >= 1,
    ensures
        ReprView::parsed(s) matches Some(v) ==> {
            &&& 133 <= s[0] <= 137
            &&& v is RouterSolicit <==> s[0] == 133
            &&& v is RouterAdvert <==> s[0] == 134
            &&& v is NeighborSolicit <==> s[0] == 135
            &&& v is NeighborAdvert <==> s[0] == 136
            &&& v is Redirect <==> s[0] == 137
        },
        s[0] == 133 && s.len() < 8 ==> ReprView::parsed(s) is None,
        s[0] == 134 && s.len() < 16 ==> ReprView::parsed(s) is None,
        s[0] == 135 && s.len() < 24 ==> ReprView::parsed(s) is None,
        s[0] == 136 && s.len() < 24 ==> ReprView::parsed(s) is None,
        s[0] == 137 && s.len() < 40 ==> ReprView::parsed(s) is None,
{
}

/// A message without options is read if its header is there.
pub proof fn law_bare_messages_are_read(s: Seq<u8>)
    requires
        s.len() >= 8,
        s[0] == 133 && s.len() == 8 || s[0] == 134 && s.len() == 16 || s[0] == 135 && s.len() == 24
            || s[0] == 136 && s.len() == 24 || s[0] == 137 && s.len() == 40,
    ensures
        ReprView::parsed(s) is Some,
{
    assert(payload_of(s).len() == 0);
}

/// Where the fields of a Router Advertisement stand.
pub proof fn law_fields_of_router_advert(s: Seq<u8>)
    ensures
        ReprView::parsed(s) matches Some(
            ReprView::RouterAdvert {
                hop_limit,
                flags,
                preference,
                router_lifetime,
                reachable_time,
                retrans_time,
                ..
            },
        ) ==> {
            &&& hop_limit == s[4]
            &&& flags.managed <==> s[5] & 0x80 != 0
            &&& flags.other <==> s[5] & 0x40 != 0
            &&& router_lifetime.micros == (s[6] * 256 + s[7]) * 1_000_000
            &&& reachable_time.micros == (((s[8] * 256 + s[9]) * 256 + s[10]) * 256 + s[11]) * 1000
            &&& retrans_time.micros == (((s[12] * 256 + s[13]) * 256 + s[14]) * 256 + s[15]) * 1000
            &&& s[6] == 0 && s[7] == 0 ==> preference == NdiscRoutePreference::Medium
            &&& !(s[6] == 0 && s[7] == 0) ==> {
                &&& preference == NdiscRoutePreference::High <==> (s[5] & 0x18) >> 3 == 1
                &&& preference == NdiscRoutePreference::Low <==> (s[5] & 0x18) >> 3 == 3
                &&& preference == NdiscRoutePreference::Medium <==> (s[5] & 0x18) >> 3 == 0 || (s[5]
                    & 0x18) >> 3 == 2
            }
        },
{
    if ReprView::parsed(s) is Some && s[0] == 134 {
        law_bits_of_flags(s[5]);
        let octet = s[5];
        assert((octet & 0x18) >> 3 <= 3) by (bit_vector);
        law_bytes_spell_numbers(s[6], s[7], 0, 0);
        law_bytes_spell_numbers(s[8], s[9], s[10], s[11]);
        law_bytes_spell_numbers(s[12], s[13], s[14], s[15]);
        assert(s.subrange(6, 8) =~= seq![s[6], s[7]]);
        assert(s.subrange(8, 12) =~= seq![s[8], s[9], s[10], s[11]]);
        assert(s.subrange(12, 16) =~= seq![s[12], s[13], s[14], s[15]]);
    }
}

/// Where the addresses and flags of the other messages stand.
pub proof fn law_fields_of_neighbor_messages(s: Seq<u8>)
    ensures
        ReprView::parsed(s) matches Some(ReprView::NeighborSolicit { target_addr, .. }) ==> s.len()
            >= 24 && s.subrange(8, 24) == be_bytes(target_addr.bits as nat, 16),
        ReprView::parsed(s) matches Some(ReprView::NeighborAdvert { flags, target_addr, .. }) ==> {
            &&& s.len() >= 24
            &&& s.subrange(8, 24) == be_bytes(target_addr.bits as nat, 16)
            &&& flags.router <==> s[4] & 0x80 != 0
            &&& flags.solicited <==> s[4] & 0x40 != 0
            &&& flags.overrides <==> s[4] & 0x20 != 0
        },
        ReprView::parsed(s) matches Some(ReprView::Redirect { target_addr, dest_addr, .. }) ==> {
            &&& s.len() >= 40
            &&& s.subrange(8, 24) == be_bytes(target_addr.bits as nat, 16)
            &&& s.subrange(24, 40) == be_bytes(dest_addr.bits as nat, 16)
        },
{
    if has_header(s) && s.len() >= 24 {
        law_bits_of_flags(s[4]);
        lemma_address_octets(s.subrange(8, 24));
        if s.len() >= 40 {
            lemma_address_octets(s.subrange(24, 40));
        }
    }
}

/// The octets of the address that sixteen bytes spell are those bytes.
proof fn lemma_address_octets(s: Seq<u8>)
    requires
        s.len() == 16,
    ensures
        be_value(s) <= u128::MAX,
        be_bytes(be_value(s) as u128 as nat, 16) == s,
{
    lemma_bytes_of_value(s);
    reveal_with_fuel(crate::wire::bytes::pow256, 17);
}

/// Where the fields of a message are written: type, code and header, with the
/// checksum and all that stands behind the message left as they were.
pub proof fn law_fields_are_written(v: ReprView, s: Seq<u8>)
    requires
        s.len() >= 4 + v.body().len(),
    ensures
        ({
            let t = v.emitted(s);
            &&& t.len() == s.len()
            &&& t[1] == 0 && t[2] == s[2] && t[3] == s[3]
            &&& t.skip(4 + v.body().len() as int) == s.skip(4 + v.body().len() as int)
            &&& v is RouterSolicit ==> t[0] == 133 && t[4] == 0 && t[5] == 0 && t[6] == 0 && t[7]
                == 0
            &&& v is RouterAdvert ==> t[0] == 134
            &&& v is NeighborSolicit ==> t[0] == 135 && t[4] == 0 && t[5] == 0 && t[6] == 0 && t[7]
                == 0
            &&& v is NeighborAdvert ==> t[0] == 136 && t[5] == 0 && t[6] == 0 && t[7] == 0
            &&& v is Redirect ==> t[0] == 137 && t[4] == 0 && t[5] == 0 && t[6] == 0 && t[7] == 0
            &&& v matches ReprView::NeighborSolicit { target_addr, .. } ==> t.subrange(8, 24)
                == be_bytes(target_addr.bits as nat, 16)
            &&& v matches ReprView::NeighborAdvert { flags, target_addr, .. } ==> t[4]
                == flags.octet() && t.subrange(8, 24) == be_bytes(target_addr.bits as nat, 16)
            &&& v matches ReprView::Redirect { target_addr, dest_addr, .. } ==> t.subrange(8, 24)
                == be_bytes(target_addr.bits as nat, 16) && t.subrange(24, 40) == be_bytes(
                dest_addr.bits as nat,
                16,
            )
        }),
{
    let t = v.emitted(s);
    let f = v.fixed();
    lemma_fixed_len(v);
    assert(t.skip(4 + v.body().len() as int) =~= s.skip(4 + v.body().len() as int));
    assert forall|i: int| 0 <= i < f.len() implies t[4 + i] == #[trigger] f[i] by {}
    match v {
        ReprView::RouterSolicit { .. } => {
            assert(t[4] == f[0] && t[5] == f[1] && t[6] == f[2] && t[7] == f[3]);
        },
        ReprView::RouterAdvert { .. } => {},
        ReprView::NeighborSolicit { target_addr, .. } => {
            lemma_be_bytes_len(target_addr.bits as nat, 16);
            assert(t[4] == f[0] && t[5] == f[1] && t[6] == f[2] && t[7] == f[3]);
            assert(t.subrange(8, 24) =~= f.subrange(4, 20));
            assert(f.subrange(4, 20) =~= be_bytes(target_addr.bits as nat, 16));
        },
        ReprView::NeighborAdvert { target_addr, .. } => {
            lemma_be_bytes_len(target_addr.bits as nat, 16);
            assert(t[4] == f[0] && t[5] == f[1] && t[6] == f[2] && t[7] == f[3]);
            assert(t.subrange(8, 24) =~= f.subrange(4, 20));
            assert(f.subrange(4, 20) =~= be_bytes(target_addr.bits as nat, 16));
        },
        ReprView::Redirect { target_addr, dest_addr, .. } => {
            lemma_be_bytes_len(target_addr.bits as nat, 16);
            lemma_be_bytes_len(dest_addr.bits as nat, 16);
            assert(t[4] == f[0] && t[5] == f[1] && t[6] == f[2] && t[7] == f[3]);
            assert(t.subrange(8, 24) =~= f.subrange(4, 20));
            assert(t.subrange(24, 40) =~= f.subrange(20, 36));
            assert(f.subrange(4, 20) =~= be_bytes(target_addr.bits as nat, 16));
            assert(f.subrange(20, 36) =~= be_bytes(dest_addr.bits as nat, 16));
        },
    }
}

/// Where the fields of a Router Advertisement are written.
pub proof fn law_fields_of_router_advert_are_written(v: ReprView, s: Seq<u8>)
    requires
        v is RouterAdvert,
        s.len() >= 4 + v.body().len(),
    ensures
        v matches ReprView::RouterAdvert {
            hop_limit,
            flags,
            preference,
            router_lifetime,
            reachable_time,
            retrans_time,
            ..
        } && ({
            let t = v.emitted(s);
            &&& t[4] == hop_limit
            &&& RouterFlags::of_bits(t[5]) == flags
            &&& t[5] % 8 == 0 && t[5] / 32 % 2 == 0
            &&& router_lifetime.micros == 0 || preference == NdiscRoutePreference::Medium
                || preference is Unknown ==> t[5] / 8 % 4 == 0
            &&& router_lifetime.micros > 0 && preference == NdiscRoutePreference::High ==> t[5] / 8
                % 4 == 1
            &&& router_lifetime.micros > 0 && preference == NdiscRoutePreference::Low ==> t[5] / 8
                % 4 == 3
            &&& t[6] * 256 + t[7] == router_lifetime.micros / 1_000_000 % 0x1_0000
            &&& ((t[8] * 256 + t[9]) * 256 + t[10]) * 256 + t[11] == reachable_time.micros / 1000
                % 0x1_0000_0000
            &&& ((t[12] * 256 + t[13]) * 256 + t[14]) * 256 + t[15] == retrans_time.micros / 1000
                % 0x1_0000_0000
        }),
{
    let t = v.emitted(s);
    let f = v.fixed();
    lemma_fixed_len(v);
    assert(f.len() == 12);
    assert forall|i: int| 0 <= i < f.len() implies t[4 + i] == #[trigger] f[i] by {}
    if let ReprView::RouterAdvert {
        hop_limit,
        flags,
        preference,
        router_lifetime,
        reachable_time,
        retrans_time,
        ..
    } = v {
        let x = crate::wire::ndisc::lifetime_field(router_lifetime) as nat;
        let y = crate::wire::ndisc::millis_field(reachable_time) as nat;
        let z = crate::wire::ndisc::millis_field(retrans_time) as nat;
        lemma_be_bytes_len(x, 2);
        lemma_be_bytes_len(y, 4);
        lemma_be_bytes_len(z, 4);
        lemma_digits(x, y);
        lemma_digits(x, z);
        assert(t[4] == f[0] && t[5] == f[1] && t[6] == f[2] && t[7] == f[3]);
        assert(t[8] == f[4] && t[9] == f[5] && t[10] == f[6] && t[11] == f[7]);
        assert(t[12] == f[8] && t[13] == f[9] && t[14] == f[10] && t[15] == f[11]);
        assert(f[2] == be_bytes(x, 2)[0] && f[3] == be_bytes(x, 2)[1]);
        assert(f[4] == be_bytes(y, 4)[0] && f[5] == be_bytes(y, 4)[1]);
        assert(f[6] == be_bytes(y, 4)[2] && f[7] == be_bytes(y, 4)[3]);
        assert(f[8] == be_bytes(z, 4)[0] && f[9] == be_bytes(z, 4)[1]);
        assert(f[10] == be_bytes(z, 4)[2] && f[11] == be_bytes(z, 4)[3]);
    }
}

/// The digits of numbers of 16 and 32 bits.
pub(crate) proof fn lemma_digits(x: nat, y: nat)
    requires
        x < 0x1_0000,
        y < 0x1_0000_0000,
    ensures
        be_bytes(x, 2)[0] * 256 + be_bytes(x, 2)[1] == x,
        ((be_bytes(y, 4)[0] * 256 + be_bytes(y, 4)[1]) * 256 + be_bytes(y, 4)[2]) * 256 + be_bytes(
            y,
            4,
        )[3] == y,
{
    lemma_be_bytes_len(x, 2);
    lemma_be_bytes_len(y, 4);
    reveal_with_fuel(be_bytes, 5);
    assert(be_bytes(x, 2)[1] == x % 256);
    assert(be_bytes(x, 2)[0] == x / 256 % 256);
    assert(be_bytes(y, 4)[3] == y % 256);
    assert(be_bytes(y, 4)[2] == y / 256 % 256);
    assert(be_bytes(y, 4)[1] == y / 256 / 256 % 256);
    assert(be_bytes(y, 4)[0] == y / 256 / 256 / 256 % 256);
}

/// An odd last byte counts in the checksum as if a zero stood behind it.
pub proof fn law_odd_byte_is_padded(s: Seq<u8>)
    requires
        s.len() % 2 == 1,
    ensures
        word_sum(s) == word_sum(s.push(0)),
    decreases s.len(),
{
    reveal_with_fuel(word_sum, 2);
    if s.len() == 1 {
        assert(s.push(0).skip(2) =~= Seq::<u8>::empty());
    } else {
        law_odd_byte_is_padded(s.skip(2));
        assert(s.push(0).skip(2) =~= s.skip(2).push(0));
    }
}

/// The checksum counts modulo 65535, with zero only for zero.
pub proof fn law_ones_complement(n: nat)
    ensures
        folded(n) % 65535 == n % 65535,
        folded(n) <= 65535,
        folded(n) == 0 <==> n == 0,
{
}

/// Every word of a message counts in its checksum with its value.
pub proof fn law_every_word_counts(s: Seq<u8>, i: int, a: u8, b: u8)
    requires
        0 <= i,
        i % 2 == 0,
        i + 1 < s.len(),
    ensures
        word_sum(s.update(i, a).update(i + 1, b)) + s[i] * 256 + s[i + 1] == word_sum(s) + a * 256
            + b,
    decreases s.len(),
{
    let t = s.update(i, a).update(i + 1, b);
    if i == 0 {
        assert(t.skip(2) =~= s.skip(2));
    } else {
        law_every_word_counts(s.skip(2), i - 2, a, b);
        assert(t.skip(2) =~= s.skip(2).update(i - 2, a).update(i - 1, b));
    }
}

/// What the pseudo-header consists of.
pub proof fn law_pseudo_header(src: Ipv6Address, dst: Ipv6Address, len: nat)
    ensures
        pseudo_header(src, dst, len).len() == 40,
        pseudo_header(src, dst, len).subrange(0, 16) == be_bytes(src.bits as nat, 16),
        pseudo_header(src, dst, len).subrange(16, 32) == be_bytes(dst.bits as nat, 16),
        pseudo_header(src, dst, len).subrange(32, 36) == be_bytes(len, 4),
        pseudo_header(src, dst, len)[36] == 0,
        pseudo_header(src, dst, len)[37] == 0,
        pseudo_header(src, dst, len)[38] == 0,
        pseudo_header(src, dst, len)[39] == 58,
{
    let h = pseudo_header(src, dst, len);
    lemma_be_bytes_len(src.bits as nat, 16);
    lemma_be_bytes_len(dst.bits as nat, 16);
    lemma_be_bytes_len(len, 4);
    assert(h.subrange(0, 16) =~= be_bytes(src.bits as nat, 16));
    assert(h.subrange(16, 32) =~= be_bytes(dst.bits as nat, 16));
    assert(h.subrange(32, 36) =~= be_bytes(len, 4));
}

/// Setting the flags of a Router Advertisement clears the bits that are neither
/// flags nor preference, and setting the preference keeps all other bits.
pub proof fn law_other_bits_of_the_octet(
    octet: u8,
    flags: RouterFlags,
    preference: NdiscRoutePreference,
)
    ensures
        crate::wire::ndisc::with_flags(octet, flags) == flags.octet() + octet / 8 % 4 * 8,
        crate::wire::ndisc::with_preference(octet, preference) % 8 == octet % 8,
        crate::wire::ndisc::with_preference(octet, preference) / 32 == octet / 32,
{
}

/// A message is taken only if its checksum is right, where that is checked.
pub proof fn law_wrong_checksum_is_refused(
    src: Ipv6Address,
    dst: Ipv6Address,
    s: Seq<u8>,
    caps: crate::wire::message::ChecksumCapabilities,
)
    requires
        s.len() <= 0xffff_ffff,
    ensures
        caps.icmpv6_rx && (word_sum(pseudo_header(src, dst, s.len())) + word_sum(s)) % 65535 != 0
            ==> crate::wire::message::checked(src, dst, s, caps) is None,
        crate::wire::message::checked(src, dst, s, caps) is Some
            ==> crate::wire::message::checked(src, dst, s, caps) == ReprView::parsed(s),
        !caps.icmpv6_rx ==> crate::wire::message::checked(src, dst, s, caps) == ReprView::parsed(s),
{
    law_pseudo_header(src, dst, s.len());
    crate::wire::icmpv6::lemma_word_sum_add(pseudo_header(src, dst, s.len()), s);
    law_ones_complement(word_sum(pseudo_header(src, dst, s.len()) + s));
}

/// A route whose preference has no meaning is not among those read.
pub proof fn law_senseless_route_is_not_read(r: NdiscRouteInformation, rest: Seq<u8>)
    requires
        r.canonical(),
        r.preference is Unknown,
    ensures
        carried_routes(OptionView::RouteInformation(r).bytes() + rest) == carried_routes(rest),
{
    lemma_front_option(OptionView::RouteInformation(r), rest);
}

/// The lifetime that stands for ever is that of all ones.
pub proof fn law_infinite_lifetime()
    ensures
        NdiscRouteInformation::infinite().micros == 0xffff_ffff * 1_000_000,
{
}

} // verus!
