//! The messages of Neighbor Discovery.

use vstd::array::spec_array_fill_for_copy_type;
use vstd::prelude::*;
use vstd::slice::slice_subrange;
use crate::config::IFACE_MAX_ROUTE_COUNT;
use crate::sequences::{first_index, is_first, lemma_first_index, lemma_no_first};
use crate::time::Duration;
use crate::wire::bytes::{
    be_bytes, be_value, lemma_be_bytes_len, lemma_splice_append,
    lemma_value_of_bytes, pow256, put_bytes, put_u16, put_u32, put_u8, read_u16, read_u32, splice,
    zeros, Buffer, BufferMut,
};
use crate::wire::hwaddr::RawHardwareAddress;
use crate::wire::icmpv6::{has_header, payload_of, Message, Packet};
use crate::wire::ip::Ipv6Address;
use crate::wire::ndiscoption::{
    carried_routes, check_option, has_option, law_option_round_trip, lemma_option_len, option_len,
    NdiscOptionRepr, NdiscPrefixInformation,
    NdiscRedirectedHeader, NdiscRouteInformation, NdiscRoutePreference, OptionView,
    RedirectedHeaderView,
};
use crate::wire::Error;

verus! {

/// What a router says of address configuration.
#[derive(Debug, Clone, Copy, PartialEq, Eq, Hash, Structural)]
pub struct RouterFlags {
    /// Addresses are given out by a server.
    pub managed: bool,
    /// Other configuration is given out by a server.
    pub other: bool,
}

impl RouterFlags {
    /// The bit of [`RouterFlags::managed`].
    pub const MANAGED: u8 = 0b1000_0000;

    /// The bit of [`RouterFlags::other`].
    pub const OTHER: u8 = 0b0100_0000;

    /// The flags that are set in an octet.
    pub open spec fn of_bits(bits: u8) -> RouterFlags {
        RouterFlags { managed: bits >= 128, other: bits % 128 >= 64 }
    }

    /// The octet in which exactly these flags are set.
    pub open spec fn octet(self) -> u8 {
        ((if self.managed {
            128int
        } else {
            0
        }) + (if self.other {
            64int
        } else {
            0
        })) as u8
    }

    /// No flag.
    pub fn empty() -> (r: RouterFlags)
        ensures
            r == (RouterFlags { managed: false, other: false }),
    {
        RouterFlags { managed: false, other: false }
    }

    /// The flags that are set in an octet. Other bits are ignored.
    pub fn from_bits_truncate(bits: u8) -> (r: RouterFlags)
        ensures
            r == RouterFlags::of_bits(bits),
    {
        RouterFlags { managed: bits >= 128, other: bits % 128 >= 64 }
    }

    /// The octet in which exactly these flags are set.
    pub fn bits(&self) -> (r: u8)
        ensures
            r == self.octet(),
    {
        let high: u8 = if self.managed {
            128
        } else {
            0
        };
        if self.other {
            high + 64
        } else {
            high
        }
    }
}

/// What a neighbor says of itself.
#[derive(Debug, Clone, Copy, PartialEq, Eq, Hash, Structural)]
pub struct NeighborFlags {
    /// The neighbor is a router.
    pub router: bool,
    /// The message answers a solicitation.
    pub solicited: bool,
    /// The message replaces what was known.
    pub overrides: bool,
}

impl NeighborFlags {
    /// The bit of [`NeighborFlags::router`].
    pub const ROUTER: u8 = 0b1000_0000;

    /// The bit of [`NeighborFlags::solicited`].
    pub const SOLICITED: u8 = 0b0100_0000;

    /// The bit of [`NeighborFlags::overrides`].
    pub const OVERRIDE: u8 = 0b0010_0000;

    /// The flags that are set in an octet.
    pub open spec fn of_bits(bits: u8) -> NeighborFlags {
        NeighborFlags {
            router: bits >= 128,
            solicited: bits % 128 >= 64,
            overrides: bits % 64 >= 32,
        }
    }

    /// The octet in which exactly these flags are set.
    pub open spec fn octet(self) -> u8 {
        ((if self.router {
            128int
        } else {
            0
        }) + (if self.solicited {
            64int
        } else {
            0
        }) + (if self.overrides {
            32int
        } else {
            0
        })) as u8
    }

    /// No flag.
    pub fn empty() -> (r: NeighborFlags)
        ensures
            r == (NeighborFlags { router: false, solicited: false, overrides: false }),
    {
        NeighborFlags { router: false, solicited: false, overrides: false }
    }

    /// The flags that are set in an octet. Other bits are ignored.
    pub fn from_bits_truncate(bits: u8) -> (r: NeighborFlags)
        ensures
            r == NeighborFlags::of_bits(bits),
    {
        NeighborFlags {
            router: bits >= 128,
            solicited: bits % 128 >= 64,
            overrides: bits % 64 >= 32,
        }
    }

    /// The octet in which exactly these flags are set.
    pub fn bits(&self) -> (r: u8)
        ensures
            r == self.octet(),
    {
        let high: u8 = if self.router {
            128
        } else {
            0
        };
        let middle: u8 = if self.solicited {
            high + 64
        } else {
            high
        };
        if self.overrides {
            middle + 32
        } else {
            middle
        }
    }
}

/// The two bits of an octet that hold a preference, as a number.
pub open spec fn preference_bits(octet: u8) -> u8 {
    (octet / 8 % 4) as u8
}

/// The address that 16 bytes of `s` from `at` on hold.
pub open spec fn address_at(s: Seq<u8>, at: int) -> Ipv6Address {
    Ipv6Address { bits: be_value(s.subrange(at, at + 16)) as u128 }
}

/// The number of milliseconds that four bytes of `s` from `at` on hold.
pub open spec fn millis_at(s: Seq<u8>, at: int) -> Duration {
    Duration { micros: (be_value(s.subrange(at, at + 4)) * 1000) as u64 }
}

/// A length of time as it stands in a message: whole milliseconds, of which the
/// last 32 bits count.
pub open spec fn millis_field(d: Duration) -> u32 {
    (d.micros / 1000 % 0x1_0000_0000) as u32
}

/// A router lifetime as it stands in a message: whole seconds, of which the last
/// 16 bits count.
pub open spec fn lifetime_field(d: Duration) -> u16 {
    (d.micros / 1_000_000 % 0x1_0000) as u16
}

/// Reads a number of milliseconds.
fn read_millis(data: &[u8], at: usize) -> (r: Duration)
    requires
        at + 4 <= data@.len(),
    ensures
        r == millis_at(data@, at as int),
{
    let end: usize = data.len();
    assert(at + 4 <= end);
    let field = slice_subrange(data, at, at + 4);
    assert(field@.subrange(0, 4) =~= field@);
    Duration::from_millis(read_u32(field) as u64)
}

/// Reads an address.
fn read_address(data: &[u8], at: usize) -> (r: Ipv6Address)
    requires
        at + 16 <= data@.len(),
    ensures
        r == address_at(data@, at as int),
{
    let end: usize = data.len();
    assert(at + 16 <= end);
    let field = slice_subrange(data, at, at + 16);
    assert(field@.subrange(0, 16) =~= field@);
    Ipv6Address::from_octets(field)
}

impl<T: Buffer> Packet<T> {
    /// The hop limit of a Router Advertisement.
    pub fn current_hop_limit(&self) -> (r: u8)
        requires
            self@.len() > 4,
        ensures
            r == self@[4],
    {
        self.data()[4]
    }

    /// The flags of a Router Advertisement.
    pub fn router_flags(&self) -> (r: RouterFlags)
        requires
            self@.len() > 5,
        ensures
            r == RouterFlags::of_bits(self@[5]),
    {
        RouterFlags::from_bits_truncate(self.data()[5])
    }

    /// The preference for the sender of a Router Advertisement as a default
    /// router.
    pub fn router_preference(&self) -> (r: NdiscRoutePreference)
        requires
            self@.len() > 5,
        ensures
            r == NdiscRoutePreference::of_code(preference_bits(self@[5])),
    {
        NdiscRoutePreference::from(self.data()[5] / 8 % 4)
    }

    /// How long the sender of a Router Advertisement serves as a default router.
    pub fn router_lifetime(&self) -> (r: Duration)
        requires
            self@.len() >= 8,
        ensures
            r.micros == be_value(self@.subrange(6, 8)) * 1_000_000,
    {
        let field = slice_subrange(self.data(), 6, 8);
        assert(field@.subrange(0, 2) =~= field@);
        Duration::from_secs(read_u16(field) as u64)
    }

    /// How long a neighbor is taken to be reachable.
    pub fn reachable_time(&self) -> (r: Duration)
        requires
            self@.len() >= 12,
        ensures
            r == millis_at(self@, 8),
    {
        read_millis(self.data(), 8)
    }

    /// The time between two solicitations.
    pub fn retrans_time(&self) -> (r: Duration)
        requires
            self@.len() >= 16,
        ensures
            r == millis_at(self@, 12),
    {
        read_millis(self.data(), 12)
    }

    /// The target of a Neighbor Solicitation, Neighbor Advertisement or
    /// Redirect.
    pub fn target_addr(&self) -> (r: Ipv6Address)
        requires
            self@.len() >= 24,
        ensures
            r == address_at(self@, 8),
    {
        read_address(self.data(), 8)
    }

    /// The flags of a Neighbor Advertisement.
    pub fn neighbor_flags(&self) -> (r: NeighborFlags)
        requires
            self@.len() > 4,
        ensures
            r == NeighborFlags::of_bits(self@[4]),
    {
        NeighborFlags::from_bits_truncate(self.data()[4])
    }

    /// The destination that a Redirect is about.
    pub fn dest_addr(&self) -> (r: Ipv6Address)
        requires
            self@.len() >= 40,
        ensures
            r == address_at(self@, 24),
    {
        read_address(self.data(), 24)
    }
}

/// The octet of a Router Advertisement after its flags were set. The preference
/// stays.
pub open spec fn with_flags(octet: u8, flags: RouterFlags) -> u8 {
    (flags.octet() + preference_bits(octet) * 8) as u8
}

/// The octet of a Router Advertisement after its preference was set. The other
/// bits stay.
pub open spec fn with_preference(octet: u8, preference: NdiscRoutePreference) -> u8 {
    (octet - preference_bits(octet) * 8 + preference.normalized().code() * 8) as u8
}

impl<T: BufferMut> Packet<T> {
    /// Sets the hop limit of a Router Advertisement.
    pub fn set_current_hop_limit(&mut self, value: u8)
        requires
            old(self)@.len() > 4,
        ensures
            final(self)@ == old(self)@.update(4, value),
    {
        put_u8(self.data_mut(), 4, value);
    }

    /// Sets the flags of a Router Advertisement and keeps the preference.
    pub fn set_router_flags(&mut self, flags: RouterFlags)
        requires
            old(self)@.len() > 5,
        ensures
            final(self)@ == old(self)@.update(5, with_flags(old(self)@[5], flags)),
    {
        let octet: u8 = self.data()[5];
        let bits: u8 = flags.bits();
        put_u8(self.data_mut(), 5, bits + octet / 8 % 4 * 8);
    }

    /// Sets the preference for the sender of a Router Advertisement as a default
    /// router and keeps the flags.
    pub fn set_router_preference(&mut self, preference: NdiscRoutePreference)
        requires
            old(self)@.len() > 5,
        ensures
            final(self)@ == old(self)@.update(5, with_preference(old(self)@[5], preference)),
    {
        let octet: u8 = self.data()[5];
        let code: u8 = preference.normalized_for_router_header().to_code();
        put_u8(self.data_mut(), 5, octet - octet / 8 % 4 * 8 + code * 8);
    }

    /// Sets how long the sender of a Router Advertisement serves as a default
    /// router.
    pub fn set_router_lifetime(&mut self, value: Duration)
        requires
            old(self)@.len() >= 8,
        ensures
            final(self)@ == splice(old(self)@, 6, be_bytes(lifetime_field(value) as nat, 2)),
    {
        put_u16(self.data_mut(), 6, (value.secs() % 0x1_0000) as u16);
    }

    /// Sets how long a neighbor is taken to be reachable.
    pub fn set_reachable_time(&mut self, value: Duration)
        requires
            old(self)@.len() >= 12,
        ensures
            final(self)@ == splice(old(self)@, 8, be_bytes(millis_field(value) as nat, 4)),
    {
        put_u32(self.data_mut(), 8, (value.total_millis() % 0x1_0000_0000) as u32);
    }

    /// Sets the time between two solicitations.
    pub fn set_retrans_time(&mut self, value: Duration)
        requires
            old(self)@.len() >= 16,
        ensures
            final(self)@ == splice(old(self)@, 12, be_bytes(millis_field(value) as nat, 4)),
    {
        put_u32(self.data_mut(), 12, (value.total_millis() % 0x1_0000_0000) as u32);
    }

    /// Sets the target of a Neighbor Solicitation, Neighbor Advertisement or
    /// Redirect.
    pub fn set_target_addr(&mut self, value: Ipv6Address)
        requires
            old(self)@.len() >= 24,
        ensures
            final(self)@ == splice(old(self)@, 8, be_bytes(value.bits as nat, 16)),
    {
        let octets = value.octets();
        put_bytes(self.data_mut(), 8, octets.as_slice());
    }

    /// Sets the flags of a Neighbor Advertisement.
    pub fn set_neighbor_flags(&mut self, flags: NeighborFlags)
        requires
            old(self)@.len() > 4,
        ensures
            final(self)@ == old(self)@.update(4, flags.octet()),
    {
        put_u8(self.data_mut(), 4, flags.bits());
    }

    /// Sets the destination that a Redirect is about.
    pub fn set_dest_addr(&mut self, value: Ipv6Address)
        requires
            old(self)@.len() >= 40,
        ensures
            final(self)@ == splice(old(self)@, 24, be_bytes(value.bits as nat, 16)),
    {
        let octets = value.octets();
        put_bytes(self.data_mut(), 24, octets.as_slice());
    }
}

/// The routes of a Router Advertisement, at most as many as a routing table
/// holds. No two of them have the same prefix.
#[derive(Debug, Clone, Copy, PartialEq, Eq)]
pub struct RouteInformationList {
    entries: [Option<NdiscRouteInformation>; IFACE_MAX_ROUTE_COUNT],
}

/// Whether the entry is a route to the same prefix.
pub open spec fn has_prefix_of(
    entry: Option<NdiscRouteInformation>,
    info: NdiscRouteInformation,
) -> bool {
    entry matches Some(e) && e.agrees(info)
}

/// Whether the entry is a route that is not withdrawn.
pub open spec fn is_lasting(entry: Option<NdiscRouteInformation>) -> bool {
    entry matches Some(e) && e.route_lifetime.micros != 0
}

/// The position at which a route is to stand in the entries of a list, if it is
/// taken at all.
///
/// A route whose prefix the list has replaces that entry if it is a withdrawal
/// or if its preference is stronger. Another one takes the first free position.
/// A withdrawal that finds none replaces the first route that is not one.
pub open spec fn place_in(
    entries: Seq<Option<NdiscRouteInformation>>,
    info: NdiscRouteInformation,
) -> Option<int> {
    let duplicate = first_index(
        entries,
        |e: Option<NdiscRouteInformation>| has_prefix_of(e, info),
    );
    let free = first_index(entries, |e: Option<NdiscRouteInformation>| e is None);
    let lasting = first_index(entries, |e: Option<NdiscRouteInformation>| is_lasting(e));
    if !info.valid() {
        None
    } else if let Some(i) = duplicate {
        let existing = entries[i]->0;
        if info.route_lifetime.micros == 0 || info.preference.rank_of()
            > existing.preference.rank_of() {
            Some(i)
        } else {
            None
        }
    } else if free is Some {
        free
    } else if info.route_lifetime.micros == 0 {
        lasting
    } else {
        None
    }
}

/// The entries of a list after a route was offered to it.
pub open spec fn offered(
    entries: Seq<Option<NdiscRouteInformation>>,
    info: NdiscRouteInformation,
) -> Seq<Option<NdiscRouteInformation>> {
    match place_in(entries, info) {
        Some(i) => entries.update(i, Some(info)),
        None => entries,
    }
}

/// The routes among the entries of a list, in order.
pub open spec fn routes_in(entries: Seq<Option<NdiscRouteInformation>>) -> Seq<
    NdiscRouteInformation,
>
    decreases entries.len(),
{
    if entries.len() == 0 {
        Seq::empty()
    } else {
        match entries.last() {
            Some(e) => routes_in(entries.drop_last()).push(e),
            None => routes_in(entries.drop_last()),
        }
    }
}

/// The entries of an empty list.
pub open spec fn no_entries() -> Seq<Option<NdiscRouteInformation>> {
    Seq::new(IFACE_MAX_ROUTE_COUNT as nat, |i: int| None::<NdiscRouteInformation>)
}

/// The bytes of the options for the routes among the entries of a list.
pub open spec fn routes_bytes(entries: Seq<Option<NdiscRouteInformation>>) -> Seq<u8>
    decreases entries.len(),
{
    if entries.len() == 0 {
        Seq::empty()
    } else {
        routes_bytes(entries.drop_last()) + match entries.last() {
            Some(e) => OptionView::RouteInformation(e).bytes(),
            None => Seq::empty(),
        }
    }
}

impl View for RouteInformationList {
    type V = Seq<Option<NdiscRouteInformation>>;

    closed spec fn view(&self) -> Seq<Option<NdiscRouteInformation>> {
        self.entries@
    }
}

impl RouteInformationList {
    /// Creates an empty list.
    pub fn new() -> (r: RouteInformationList)
        ensures
            r@ == no_entries(),
    {
        let free: Option<NdiscRouteInformation> = None;
        let entries = [free; IFACE_MAX_ROUTE_COUNT];
        assert(entries == spec_array_fill_for_copy_type::<_, IFACE_MAX_ROUTE_COUNT>(free));
        assert(entries@ =~= no_entries());
        RouteInformationList { entries }
    }

    /// Creates a list of one route.
    pub fn from(route_info: NdiscRouteInformation) -> (r: RouteInformationList)
        requires
            route_info.valid(),
        ensures
            r@ == offered(no_entries(), route_info),
            r@ == no_entries().update(0, Some(route_info)),
    {
        let mut list = RouteInformationList::new();
        proof {
            let free = |e: Option<NdiscRouteInformation>| e is None;
            lemma_first_index(no_entries(), free);
            assert(is_first(no_entries(), free, 0));
            lemma_first_index(
                no_entries(),
                |e: Option<NdiscRouteInformation>| has_prefix_of(e, route_info),
            );
        }
        let _ = list.push(route_info);
        list
    }

    /// The list has as many entries as a routing table has room for routes.
    pub proof fn law_list_len(&self)
        ensures
            self@.len() == IFACE_MAX_ROUTE_COUNT,
    {
    }

    /// Offers a route to the list, which hands it back if it does not take it.
    pub fn push(&mut self, route_info: NdiscRouteInformation) -> (r: Result<
        (),
        NdiscRouteInformation,
    >)
        ensures
            match r {
                Ok(_) => place_in(old(self)@, route_info) is Some,
                Err(e) => place_in(old(self)@, route_info) is None && e == route_info,
            },
            final(self)@ == offered(old(self)@, route_info),
            r is Ok ==> final(self)@.contains(Some(route_info)),
    {
        let ghost start = self@;
        let ghost same = |e: Option<NdiscRouteInformation>| has_prefix_of(e, route_info);
        let ghost free = |e: Option<NdiscRouteInformation>| e is None;
        let ghost lasting = |e: Option<NdiscRouteInformation>| is_lasting(e);
        proof {
            lemma_first_index(start, same);
            lemma_first_index(start, free);
            lemma_first_index(start, lasting);
        }
        if !route_info.is_valid_route_info() {
            return Err(route_info);
        }
        let is_withdrawal = route_info.route_lifetime.micros == 0;

        let mut i: usize = 0;
        while i < IFACE_MAX_ROUTE_COUNT
            invariant
                i <= IFACE_MAX_ROUTE_COUNT,
                self@ == start,
                start == old(self)@,
                self@ == self.entries@,
                route_info.valid(),
                same == (|e: Option<NdiscRouteInformation>| has_prefix_of(e, route_info)),
                is_withdrawal == (route_info.route_lifetime.micros == 0),
                forall|k: int| #[trigger]
                    is_first(start, same, k) ==> first_index(start, same) == Some(k),
                forall|k: int| 0 <= k < i ==> !same(#[trigger] start[k]),
            decreases IFACE_MAX_ROUTE_COUNT - i,
        {
            if let Some(existing) = self.entries[i] {
                if existing.same_prefix(&route_info) {
                    assert(is_first(start, same, i as int));
                    if is_withdrawal || route_info.preference.rank()
                        > existing.preference.rank() {
                        self.entries[i] = Some(route_info);
                        assert(self@ =~= start.update(i as int, Some(route_info)));
                        assert(self@[i as int] == Some(route_info));
                        return Ok(());
                    }
                    return Err(route_info);
                }
            }
            i = i + 1;
        }
        assert(first_index(start, same) is None);

        let mut i: usize = 0;
        while i < IFACE_MAX_ROUTE_COUNT
            invariant
                i <= IFACE_MAX_ROUTE_COUNT,
                self@ == start,
                start == old(self)@,
                self@ == self.entries@,
                route_info.valid(),
                same == (|e: Option<NdiscRouteInformation>| has_prefix_of(e, route_info)),
                free == (|e: Option<NdiscRouteInformation>| e is None),
                first_index(start, same) is None,
                forall|k: int| #[trigger]
                    is_first(start, free, k) ==> first_index(start, free) == Some(k),
                forall|k: int| 0 <= k < i ==> !free(#[trigger] start[k]),
            decreases IFACE_MAX_ROUTE_COUNT - i,
        {
            if self.entries[i].is_none() {
                assert(is_first(start, free, i as int));
                self.entries[i] = Some(route_info);
                assert(self@ =~= start.update(i as int, Some(route_info)));
                assert(self@[i as int] == Some(route_info));
                return Ok(());
            }
            i = i + 1;
        }
        assert(first_index(start, free) is None);
        if !is_withdrawal {
            return Err(route_info);
        }
        // A withdrawal that is lost can leave a route in use for good.
        let mut i: usize = 0;
        while i < IFACE_MAX_ROUTE_COUNT
            invariant
                i <= IFACE_MAX_ROUTE_COUNT,
                self@ == start,
                start == old(self)@,
                self@ == self.entries@,
                route_info.valid(),
                route_info.route_lifetime.micros == 0,
                same == (|e: Option<NdiscRouteInformation>| has_prefix_of(e, route_info)),
                free == (|e: Option<NdiscRouteInformation>| e is None),
                lasting == (|e: Option<NdiscRouteInformation>| is_lasting(e)),
                first_index(start, same) is None,
                first_index(start, free) is None,
                forall|k: int| #[trigger]
                    is_first(start, lasting, k) ==> first_index(start, lasting) == Some(k),
                forall|k: int| 0 <= k < i ==> !lasting(#[trigger] start[k]),
            decreases IFACE_MAX_ROUTE_COUNT - i,
        {
            if let Some(existing) = self.entries[i] {
                if existing.route_lifetime.micros != 0 {
                    assert(is_first(start, lasting, i as int));
                    self.entries[i] = Some(route_info);
                    assert(self@ =~= start.update(i as int, Some(route_info)));
                    assert(self@[i as int] == Some(route_info));
                    return Ok(());
                }
            }
            i = i + 1;
        }
        assert(first_index(start, lasting) is None);
        Err(route_info)
    }

    /// The routes, in order.
    pub fn iter(&self) -> (r: Vec<NdiscRouteInformation>)
        ensures
            r@ == routes_in(self@),
    {
        let mut r: Vec<NdiscRouteInformation> = Vec::new();
        let mut i: usize = 0;
        while i < IFACE_MAX_ROUTE_COUNT
            invariant
                i <= IFACE_MAX_ROUTE_COUNT,
                self@ == self.entries@,
                r@ == routes_in(self@.take(i as int)),
            decreases IFACE_MAX_ROUTE_COUNT - i,
        {
            assert(self@.take(i + 1).drop_last() =~= self@.take(i as int));
            if let Some(e) = self.entries[i] {
                r.push(e);
            }
            i = i + 1;
        }
        assert(self@.take(i as int) =~= self@);
        r
    }

    /// The number of bytes that the options for the routes take.
    pub fn buffer_len(&self) -> (r: usize)
        ensures
            r == routes_bytes(self@).len(),
            r <= 24 * IFACE_MAX_ROUTE_COUNT,
            r % 8 == 0,
    {
        let mut len: usize = 0;
        let mut i: usize = 0;
        while i < IFACE_MAX_ROUTE_COUNT
            invariant
                i <= IFACE_MAX_ROUTE_COUNT,
                self@ == self.entries@,
                len == routes_bytes(self@.take(i as int)).len(),
                len <= 24 * i,
                len % 8 == 0,
            decreases IFACE_MAX_ROUTE_COUNT - i,
        {
            assert(self@.take(i + 1).drop_last() =~= self@.take(i as int));
            if let Some(e) = self.entries[i] {
                let size: usize = NdiscOptionRepr::RouteInformation(e).buffer_len();
                proof {
                    lemma_option_len(OptionView::RouteInformation(e));
                }
                len = len + size;
            }
            i = i + 1;
        }
        assert(self@.take(i as int) =~= self@);
        len
    }
}

impl Default for RouteInformationList {
    fn default() -> (r: RouteInformationList)
        ensures
            r@ == no_entries(),
    {
        RouteInformationList::new()
    }
}

/// A message.
#[allow(inconsistent_fields)]
#[derive(Debug, Clone, Copy, PartialEq, Eq)]
pub enum Repr<'a> {
    RouterSolicit { lladdr: Option<RawHardwareAddress> },
    RouterAdvert {
        hop_limit: u8,
        flags: RouterFlags,
        preference: NdiscRoutePreference,
        router_lifetime: Duration,
        reachable_time: Duration,
        retrans_time: Duration,
        lladdr: Option<RawHardwareAddress>,
        mtu: Option<u32>,
        prefix_info: Option<NdiscPrefixInformation>,
        route_info: RouteInformationList,
    },
    NeighborSolicit { target_addr: Ipv6Address, lladdr: Option<RawHardwareAddress> },
    NeighborAdvert {
        flags: NeighborFlags,
        target_addr: Ipv6Address,
        lladdr: Option<RawHardwareAddress>,
    },
    Redirect {
        target_addr: Ipv6Address,
        dest_addr: Ipv6Address,
        lladdr: Option<RawHardwareAddress>,
        redirected_hdr: Option<NdiscRedirectedHeader<'a>>,
    },
}

/// The contents of a [`Repr`].
#[allow(inconsistent_fields)]
pub enum ReprView {
    RouterSolicit { lladdr: Option<RawHardwareAddress> },
    RouterAdvert {
        hop_limit: u8,
        flags: RouterFlags,
        preference: NdiscRoutePreference,
        router_lifetime: Duration,
        reachable_time: Duration,
        retrans_time: Duration,
        lladdr: Option<RawHardwareAddress>,
        mtu: Option<u32>,
        prefix_info: Option<NdiscPrefixInformation>,
        route_info: Seq<Option<NdiscRouteInformation>>,
    },
    NeighborSolicit { target_addr: Ipv6Address, lladdr: Option<RawHardwareAddress> },
    NeighborAdvert {
        flags: NeighborFlags,
        target_addr: Ipv6Address,
        lladdr: Option<RawHardwareAddress>,
    },
    Redirect {
        target_addr: Ipv6Address,
        dest_addr: Ipv6Address,
        lladdr: Option<RawHardwareAddress>,
        redirected_hdr: Option<RedirectedHeaderView>,
    },
}

/// The contents of the packet that caused a Redirect, if there is one.
pub open spec fn redirected_view(h: Option<NdiscRedirectedHeader>) -> Option<RedirectedHeaderView> {
    match h {
        Some(h) => Some(h@),
        None => None,
    }
}

impl<'a> View for Repr<'a> {
    type V = ReprView;

    open spec fn view(&self) -> ReprView {
        match *self {
            Repr::RouterSolicit { lladdr } => ReprView::RouterSolicit { lladdr },
            Repr::RouterAdvert {
                hop_limit,
                flags,
                preference,
                router_lifetime,
                reachable_time,
                retrans_time,
                lladdr,
                mtu,
                prefix_info,
                route_info,
            } => ReprView::RouterAdvert {
                hop_limit,
                flags,
                preference,
                router_lifetime,
                reachable_time,
                retrans_time,
                lladdr,
                mtu,
                prefix_info,
                route_info: route_info@,
            },
            Repr::NeighborSolicit { target_addr, lladdr } => ReprView::NeighborSolicit {
                target_addr,
                lladdr,
            },
            Repr::NeighborAdvert { flags, target_addr, lladdr } => ReprView::NeighborAdvert {
                flags,
                target_addr,
                lladdr,
            },
            Repr::Redirect { target_addr, dest_addr, lladdr, redirected_hdr } => ReprView::Redirect {
                target_addr,
                dest_addr,
                lladdr,
                redirected_hdr: redirected_view(redirected_hdr),
            },
        }
    }
}

/// What the options of a message say. Of most options the last one counts;
/// routes are offered to a list.
pub struct Options {
    pub source: Option<RawHardwareAddress>,
    pub target: Option<RawHardwareAddress>,
    pub prefix_info: Option<NdiscPrefixInformation>,
    pub redirected_hdr: Option<RedirectedHeaderView>,
    pub mtu: Option<u32>,
    pub route_info: Seq<Option<NdiscRouteInformation>>,
}

impl Options {
    /// What no options say.
    pub open spec fn none() -> Options {
        Options {
            source: None,
            target: None,
            prefix_info: None,
            redirected_hdr: None,
            mtu: None,
            route_info: no_entries(),
        }
    }

    /// What the options and another one behind them say. One that cannot be
    /// read is ignored.
    pub open spec fn and(self, option: Option<OptionView>) -> Options {
        match option {
            Some(OptionView::SourceLinkLayerAddr(a)) => Options { source: Some(a), ..self },
            Some(OptionView::TargetLinkLayerAddr(a)) => Options { target: Some(a), ..self },
            Some(OptionView::PrefixInformation(p)) => Options { prefix_info: Some(p), ..self },
            Some(OptionView::RedirectedHeader(h)) => Options { redirected_hdr: Some(h), ..self },
            Some(OptionView::Mtu(m)) => Options { mtu: Some(m), ..self },
            Some(OptionView::RouteInformation(r)) => Options {
                route_info: offered(self.route_info, r),
                ..self
            },
            None => self,
        }
    }

    /// What the options and those in `s` behind them say, if `s` is made of
    /// whole options.
    pub open spec fn gathered(self, s: Seq<u8>) -> Option<Options>
        decreases s.len(),
    {
        if s.len() == 0 {
            Some(self)
        } else if !has_option(s) {
            None
        } else {
            let n = option_len(s) as int;
            self.and(OptionView::parsed(s.take(n))).gathered(s.skip(n))
        }
    }
}

impl ReprView {
    /// The message that a header and options make.
    pub open spec fn assembled(s: Seq<u8>, o: Options) -> Option<ReprView> {
        let router_lifetime = Duration {
            micros: (be_value(s.subrange(6, 8)) * 1_000_000) as u64,
        };
        match Message::of_code(s[0]) {
            Message::RouterSolicit => Some(ReprView::RouterSolicit { lladdr: o.source }),
            Message::RouterAdvert => Some(
                ReprView::RouterAdvert {
                    hop_limit: s[4],
                    flags: RouterFlags::of_bits(s[5]),
                    preference: if router_lifetime.micros == 0 {
                        NdiscRoutePreference::Medium
                    } else {
                        NdiscRoutePreference::of_code(preference_bits(s[5])).normalized()
                    },
                    router_lifetime,
                    reachable_time: millis_at(s, 8),
                    retrans_time: millis_at(s, 12),
                    lladdr: o.source,
                    mtu: o.mtu,
                    prefix_info: o.prefix_info,
                    route_info: o.route_info,
                },
            ),
            Message::NeighborSolicit => Some(
                ReprView::NeighborSolicit { target_addr: address_at(s, 8), lladdr: o.source },
            ),
            Message::NeighborAdvert => Some(
                ReprView::NeighborAdvert {
                    flags: NeighborFlags::of_bits(s[4]),
                    target_addr: address_at(s, 8),
                    lladdr: o.target,
                },
            ),
            Message::Redirect => Some(
                ReprView::Redirect {
                    target_addr: address_at(s, 8),
                    dest_addr: address_at(s, 24),
                    lladdr: o.source,
                    redirected_hdr: o.redirected_hdr,
                },
            ),
            Message::Unknown(_) => None,
        }
    }

    /// The message that the bytes `s` are, if they are one.
    pub open spec fn parsed(s: Seq<u8>) -> Option<ReprView> {
        if !has_header(s) {
            None
        } else {
            match Options::none().gathered(payload_of(s)) {
                Some(o) => ReprView::assembled(s, o),
                None => None,
            }
        }
    }
}

impl<'a> Repr<'a> {
    /// Reads a message.
    pub fn parse(packet: &Packet<&'a [u8]>) -> (r: Result<Repr<'a>, Error>)
        ensures
            match r {
                Ok(repr) => ReprView::parsed(packet@) == Some(repr@),
                Err(Error) => ReprView::parsed(packet@) is None,
            },
    {
        if packet.check_len().is_err() {
            return Err(Error);
        }
        let mut src_ll_addr: Option<RawHardwareAddress> = None;
        let mut target_ll_addr: Option<RawHardwareAddress> = None;
        let mut prefix_info: Option<NdiscPrefixInformation> = None;
        let mut redirected_hdr: Option<NdiscRedirectedHeader<'a>> = None;
        let mut mtu: Option<u32> = None;
        let mut route_info = RouteInformationList::new();
        let ghost mut o = Options::none();

        let data: &'a [u8] = packet.buffer();
        let payload: &'a [u8] = slice_subrange(data, packet.header_len(), data.len());
        assert(payload@ =~= payload_of(packet@));
        let mut offset: usize = 0;
        assert(payload@.skip(0) =~= payload@);
        while offset < payload.len()
            invariant
                offset <= payload@.len(),
                payload@ == payload_of(packet@),
                has_header(packet@),
                o == (Options {
                    source: src_ll_addr,
                    target: target_ll_addr,
                    prefix_info,
                    redirected_hdr: redirected_view(redirected_hdr),
                    mtu,
                    route_info: route_info@,
                }),
                Options::none().gathered(payload@) == o.gathered(payload@.skip(offset as int)),
            decreases payload@.len() - offset,
        {
            let rest: &'a [u8] = slice_subrange(payload, offset, payload.len());
            assert(rest@ =~= payload@.skip(offset as int));
            let len: usize = match check_option(rest) {
                Ok(len) => len,
                Err(_) => {
                    return Err(Error);
                },
            };
            let option: &'a [u8] = slice_subrange(rest, 0, len);
            assert(option@ =~= rest@.take(len as int));
            let ghost view = OptionView::parsed(option@);
            // An option that cannot be read does not keep the others from
            // being read.
            if let Ok(opt) = NdiscOptionRepr::parse(option) {
                match opt {
                    NdiscOptionRepr::SourceLinkLayerAddr(addr) => {
                        src_ll_addr = Some(addr);
                    },
                    NdiscOptionRepr::TargetLinkLayerAddr(addr) => {
                        target_ll_addr = Some(addr);
                    },
                    NdiscOptionRepr::PrefixInformation(prefix) => {
                        prefix_info = Some(prefix);
                    },
                    NdiscOptionRepr::RedirectedHeader(redirect) => {
                        redirected_hdr = Some(redirect);
                    },
                    NdiscOptionRepr::Mtu(m) => {
                        mtu = Some(m);
                    },
                    NdiscOptionRepr::RouteInformation(info) => {
                        let _ = route_info.push(info);
                    },
                }
            }
            proof {
                o = o.and(view);
                assert(rest@.skip(len as int) =~= payload@.skip(offset + len));
            }
            offset = offset + len;
        }
        assert(payload@.skip(offset as int) =~= Seq::<u8>::empty());
        assert(Options::none().gathered(payload@) == Some(o));

        match packet.msg_type() {
            Message::RouterSolicit => Ok(Repr::RouterSolicit { lladdr: src_ll_addr }),
            Message::RouterAdvert => {
                let router_lifetime = packet.router_lifetime();
                let preference = if router_lifetime.micros == 0 {
                    NdiscRoutePreference::Medium
                } else {
                    packet.router_preference().normalized_for_router_header()
                };
                Ok(
                    Repr::RouterAdvert {
                        hop_limit: packet.current_hop_limit(),
                        flags: packet.router_flags(),
                        preference,
                        router_lifetime,
                        reachable_time: packet.reachable_time(),
                        retrans_time: packet.retrans_time(),
                        lladdr: src_ll_addr,
                        mtu,
                        prefix_info,
                        route_info,
                    },
                )
            },
            Message::NeighborSolicit => Ok(
                Repr::NeighborSolicit { target_addr: packet.target_addr(), lladdr: src_ll_addr },
            ),
            Message::NeighborAdvert => Ok(
                Repr::NeighborAdvert {
                    flags: packet.neighbor_flags(),
                    target_addr: packet.target_addr(),
                    lladdr: target_ll_addr,
                },
            ),
            Message::Redirect => Ok(
                Repr::Redirect {
                    target_addr: packet.target_addr(),
                    dest_addr: packet.dest_addr(),
                    lladdr: src_ll_addr,
                    redirected_hdr,
                },
            ),
            Message::Unknown(_) => Err(Error),
        }
    }
}

/// The preference that is sent with a router lifetime: without one, the
/// preference has no meaning.
pub open spec fn sent_preference(
    lifetime: Duration,
    preference: NdiscRoutePreference,
) -> NdiscRoutePreference {
    if lifetime.micros == 0 {
        NdiscRoutePreference::Medium
    } else {
        preference.normalized()
    }
}

/// The bytes of an option for a link-layer address of the sender, if there is
/// one.
pub open spec fn source_bytes(lladdr: Option<RawHardwareAddress>) -> Seq<u8> {
    match lladdr {
        Some(a) => OptionView::SourceLinkLayerAddr(a).bytes(),
        None => Seq::empty(),
    }
}

/// The bytes of an option for a link-layer address of the target, if there is
/// one.
pub open spec fn target_bytes(lladdr: Option<RawHardwareAddress>) -> Seq<u8> {
    match lladdr {
        Some(a) => OptionView::TargetLinkLayerAddr(a).bytes(),
        None => Seq::empty(),
    }
}

/// The bytes of an option for the size of packets, if there is one.
pub open spec fn mtu_bytes(mtu: Option<u32>) -> Seq<u8> {
    match mtu {
        Some(m) => OptionView::Mtu(m).bytes(),
        None => Seq::empty(),
    }
}

/// The bytes of an option for a prefix, if there is one.
pub open spec fn prefix_bytes(prefix: Option<NdiscPrefixInformation>) -> Seq<u8> {
    match prefix {
        Some(p) => OptionView::PrefixInformation(p).bytes(),
        None => Seq::empty(),
    }
}

/// The bytes of an option for a packet that caused a Redirect, if there is one.
pub open spec fn redirected_bytes(h: Option<RedirectedHeaderView>) -> Seq<u8> {
    match h {
        Some(h) => OptionView::RedirectedHeader(h).bytes(),
        None => Seq::empty(),
    }
}

impl ReprView {
    /// The type of the message.
    pub open spec fn message(self) -> Message {
        match self {
            ReprView::RouterSolicit { .. } => Message::RouterSolicit,
            ReprView::RouterAdvert { .. } => Message::RouterAdvert,
            ReprView::NeighborSolicit { .. } => Message::NeighborSolicit,
            ReprView::NeighborAdvert { .. } => Message::NeighborAdvert,
            ReprView::Redirect { .. } => Message::Redirect,
        }
    }

    /// The bytes between the checksum and the options.
    pub open spec fn fixed(self) -> Seq<u8> {
        match self {
            ReprView::RouterSolicit { .. } => zeros(4),
            ReprView::RouterAdvert {
                hop_limit,
                flags,
                preference,
                router_lifetime,
                reachable_time,
                retrans_time,
                ..
            } => seq![
                hop_limit,
                (flags.octet() + sent_preference(router_lifetime, preference).code() * 8) as u8,
            ] + be_bytes(lifetime_field(router_lifetime) as nat, 2) + be_bytes(
                millis_field(reachable_time) as nat,
                4,
            ) + be_bytes(millis_field(retrans_time) as nat, 4),
            ReprView::NeighborSolicit { target_addr, .. } => zeros(4) + be_bytes(
                target_addr.bits as nat,
                16,
            ),
            ReprView::NeighborAdvert { flags, target_addr, .. } => seq![flags.octet()] + zeros(3)
                + be_bytes(target_addr.bits as nat, 16),
            ReprView::Redirect { target_addr, dest_addr, .. } => zeros(4) + be_bytes(
                target_addr.bits as nat,
                16,
            ) + be_bytes(dest_addr.bits as nat, 16),
        }
    }

    /// The bytes of the options.
    pub open spec fn options(self) -> Seq<u8> {
        match self {
            ReprView::RouterSolicit { lladdr } => source_bytes(lladdr),
            ReprView::RouterAdvert { lladdr, mtu, prefix_info, route_info, .. } => source_bytes(
                lladdr,
            ) + mtu_bytes(mtu) + prefix_bytes(prefix_info) + routes_bytes(route_info),
            ReprView::NeighborSolicit { lladdr, .. } => source_bytes(lladdr),
            ReprView::NeighborAdvert { lladdr, .. } => target_bytes(lladdr),
            ReprView::Redirect { lladdr, redirected_hdr, .. } => target_bytes(lladdr)
                + redirected_bytes(redirected_hdr),
        }
    }

    /// The bytes behind the checksum.
    pub open spec fn body(self) -> Seq<u8> {
        self.fixed() + self.options()
    }

    /// The buffer `s` after the message was written to its front. The checksum
    /// stays as it was.
    pub open spec fn emitted(self, s: Seq<u8>) -> Seq<u8> {
        splice(s.update(0, self.message().code()).update(1, 0), 4, self.body())
    }

    /// Whether the number of bytes of the message can be represented.
    pub open spec fn countable(self) -> bool {
        self matches ReprView::Redirect { redirected_hdr: Some(h), .. } ==> h.data.len() + 103
            <= usize::MAX
    }

    /// Whether the packet that caused a Redirect is whole.
    pub open spec fn whole(self) -> bool {
        self matches ReprView::Redirect { redirected_hdr: Some(h), .. } ==> h.whole()
    }
}

/// Writes an option behind `w`, which was written to the buffer `s` from the
/// checksum on.
fn emit_option<T: BufferMut>(
    packet: &mut Packet<T>,
    at: usize,
    option: NdiscOptionRepr,
    Ghost(s): Ghost<Seq<u8>>,
    Ghost(w): Ghost<Seq<u8>>,
) -> (end: usize)
    requires
        option@ matches OptionView::RedirectedHeader(h) ==> h.whole(),
        at == 4 + w.len(),
        at + option@.bytes().len() <= s.len() <= usize::MAX,
        old(packet)@ == splice(s, 4, w),
    ensures
        final(packet)@ == splice(s, 4, w + option@.bytes()),
        end == at + option@.bytes().len(),
{
    proof {
        lemma_splice_append(s, 4, w, option@.bytes());
    }
    proof {
        lemma_option_len(option@);
    }
    option.emit(packet.data_mut(), at);
    at + option.buffer_len()
}

impl<'a> Repr<'a> {
    /// The number of bytes that the message takes.
    pub fn buffer_len(&self) -> (r: usize)
        requires
            self@.countable(),
        ensures
            r == 4 + self@.body().len(),
    {
        proof {
            lemma_fixed_len(self@);
        }
        match *self {
            Repr::RouterSolicit { lladdr } => match lladdr {
                Some(addr) => 8 + NdiscOptionRepr::SourceLinkLayerAddr(addr).buffer_len(),
                None => 8,
            },
            Repr::RouterAdvert { lladdr, mtu, prefix_info, route_info, .. } => {
                let mut offset: usize = 16;
                if let Some(addr) = lladdr {
                    offset = offset + NdiscOptionRepr::SourceLinkLayerAddr(addr).buffer_len();
                }
                if let Some(m) = mtu {
                    offset = offset + NdiscOptionRepr::Mtu(m).buffer_len();
                }
                if let Some(prefix) = prefix_info {
                    offset = offset + NdiscOptionRepr::PrefixInformation(prefix).buffer_len();
                }
                offset + route_info.buffer_len()
            },
            Repr::NeighborSolicit { lladdr, .. } => match lladdr {
                Some(addr) => 24 + NdiscOptionRepr::SourceLinkLayerAddr(addr).buffer_len(),
                None => 24,
            },
            Repr::NeighborAdvert { lladdr, .. } => match lladdr {
                Some(addr) => 24 + NdiscOptionRepr::TargetLinkLayerAddr(addr).buffer_len(),
                None => 24,
            },
            Repr::Redirect { lladdr, redirected_hdr, .. } => {
                let mut offset: usize = 40;
                if let Some(addr) = lladdr {
                    offset = offset + NdiscOptionRepr::TargetLinkLayerAddr(addr).buffer_len();
                }
                if let Some(h) = redirected_hdr {
                    proof {
                        lemma_option_len(OptionView::RedirectedHeader(h@));
                    }
                    offset = offset + NdiscOptionRepr::RedirectedHeader(h).buffer_len();
                }
                offset
            },
        }
    }

    /// Writes the message to the front of a buffer.
    pub fn emit<T: BufferMut>(&self, packet: &mut Packet<T>)
        requires
            self@.whole(),
            4 + self@.body().len() <= old(packet)@.len(),
        ensures
            final(packet)@ == self@.emitted(old(packet)@),
    {
        let ghost s = packet@.update(0, self@.message().code()).update(1, 0);
        proof {
            lemma_fixed_len(self@);
        }
        self.emit_header(packet);
        self.emit_options(packet, Ghost(s));
    }

    /// Writes the message up to its options.
    fn emit_header<T: BufferMut>(&self, packet: &mut Packet<T>)
        requires
            self@.message().header_len() <= old(packet)@.len(),
        ensures
            final(packet)@ == splice(
                old(packet)@.update(0, self@.message().code()).update(1, 0),
                4,
                self@.fixed(),
            ),
    {
        let ghost s = packet@.update(0, self@.message().code()).update(1, 0);
        match *self {
            Repr::RouterSolicit { .. } => {
                packet.set_msg_type(Message::RouterSolicit);
                packet.set_msg_code(0);
                packet.clear_reserved();
            },
            Repr::RouterAdvert {
                hop_limit,
                flags,
                preference,
                router_lifetime,
                reachable_time,
                retrans_time,
                ..
            } => {
                packet.set_msg_type(Message::RouterAdvert);
                packet.set_msg_code(0);
                packet.set_current_hop_limit(hop_limit);
                packet.set_router_flags(flags);
                let preference = if router_lifetime.micros == 0 {
                    NdiscRoutePreference::Medium
                } else {
                    preference
                };
                packet.set_router_preference(preference);
                let ghost octet = packet@[5];
                assert(packet@ =~= splice(s, 4, seq![hop_limit, octet]));
                packet.set_router_lifetime(router_lifetime);
                packet.set_reachable_time(reachable_time);
                packet.set_retrans_time(retrans_time);
                proof {
                    let a = be_bytes(lifetime_field(router_lifetime) as nat, 2);
                    let b = be_bytes(millis_field(reachable_time) as nat, 4);
                    let c = be_bytes(millis_field(retrans_time) as nat, 4);
                    lemma_be_bytes_len(lifetime_field(router_lifetime) as nat, 2);
                    lemma_be_bytes_len(millis_field(reachable_time) as nat, 4);
                    lemma_be_bytes_len(millis_field(retrans_time) as nat, 4);
                    lemma_splice_append(s, 4, seq![hop_limit, octet], a);
                    lemma_splice_append(s, 4, seq![hop_limit, octet] + a, b);
                    lemma_splice_append(s, 4, seq![hop_limit, octet] + a + b, c);
                }
            },
            Repr::NeighborSolicit { target_addr, .. } => {
                packet.set_msg_type(Message::NeighborSolicit);
                packet.set_msg_code(0);
                packet.clear_reserved();
                packet.set_target_addr(target_addr);
                proof {
                    lemma_be_bytes_len(target_addr.bits as nat, 16);
                    lemma_splice_append(s, 4, zeros(4), be_bytes(target_addr.bits as nat, 16));
                }
            },
            Repr::NeighborAdvert { flags, target_addr, .. } => {
                packet.set_msg_type(Message::NeighborAdvert);
                packet.set_msg_code(0);
                packet.clear_reserved();
                packet.set_neighbor_flags(flags);
                assert(packet@ =~= splice(s, 4, seq![flags.octet()] + zeros(3)));
                packet.set_target_addr(target_addr);
                proof {
                    lemma_be_bytes_len(target_addr.bits as nat, 16);
                    lemma_splice_append(
                        s,
                        4,
                        seq![flags.octet()] + zeros(3),
                        be_bytes(target_addr.bits as nat, 16),
                    );
                }
            },
            Repr::Redirect { target_addr, dest_addr, .. } => {
                packet.set_msg_type(Message::Redirect);
                packet.set_msg_code(0);
                packet.clear_reserved();
                packet.set_target_addr(target_addr);
                packet.set_dest_addr(dest_addr);
                proof {
                    let a = be_bytes(target_addr.bits as nat, 16);
                    let b = be_bytes(dest_addr.bits as nat, 16);
                    lemma_be_bytes_len(target_addr.bits as nat, 16);
                    lemma_be_bytes_len(dest_addr.bits as nat, 16);
                    lemma_splice_append(s, 4, zeros(4), a);
                    lemma_splice_append(s, 4, zeros(4) + a, b);
                }
            },
        }
    }

    /// Writes the options of the message.
    fn emit_options<T: BufferMut>(&self, packet: &mut Packet<T>, Ghost(s): Ghost<Seq<u8>>)
        requires
            self@.whole(),
            4 + self@.body().len() <= s.len(),
            4 + self@.fixed().len() == self@.message().header_len(),
            old(packet)@.len() == s.len(),
            old(packet)@ == splice(s, 4, self@.fixed()),
        ensures
            final(packet)@ == splice(s, 4, self@.body()),
    {
        let end: usize = packet.data().len();
        assert(s.len() == end);
        let ghost w = self@.fixed();
        match *self {
            Repr::RouterSolicit { lladdr } => {
                if let Some(addr) = lladdr {
                    let option = NdiscOptionRepr::SourceLinkLayerAddr(addr);
                    let _ = emit_option(packet, 8, option, Ghost(s), Ghost(w));
                } else {
                    assert(w =~= self@.body());
                }
            },
            Repr::RouterAdvert { lladdr, mtu, prefix_info, route_info, .. } => {
                let mut offset: usize = 16;
                if let Some(addr) = lladdr {
                    let option = NdiscOptionRepr::SourceLinkLayerAddr(addr);
                    offset = emit_option(packet, offset, option, Ghost(s), Ghost(w));
                } else {
                    assert(w + source_bytes(lladdr) =~= w);
                }
                let ghost w = w + source_bytes(lladdr);
                if let Some(m) = mtu {
                    let option = NdiscOptionRepr::Mtu(m);
                    offset = emit_option(packet, offset, option, Ghost(s), Ghost(w));
                } else {
                    assert(w + mtu_bytes(mtu) =~= w);
                }
                let ghost w = w + mtu_bytes(mtu);
                if let Some(prefix) = prefix_info {
                    let option = NdiscOptionRepr::PrefixInformation(prefix);
                    offset = emit_option(packet, offset, option, Ghost(s), Ghost(w));
                } else {
                    assert(w + prefix_bytes(prefix_info) =~= w);
                }
                let ghost w = w + prefix_bytes(prefix_info);
                assert(w + routes_bytes(route_info@) =~= self@.body());
                route_info.emit(packet, offset, Ghost(s), Ghost(w));
            },
            Repr::NeighborSolicit { lladdr, .. } => {
                if let Some(addr) = lladdr {
                    let option = NdiscOptionRepr::SourceLinkLayerAddr(addr);
                    let _ = emit_option(packet, 24, option, Ghost(s), Ghost(w));
                } else {
                    assert(w =~= self@.body());
                }
            },
            Repr::NeighborAdvert { lladdr, .. } => {
                if let Some(addr) = lladdr {
                    let option = NdiscOptionRepr::TargetLinkLayerAddr(addr);
                    let _ = emit_option(packet, 24, option, Ghost(s), Ghost(w));
                } else {
                    assert(w =~= self@.body());
                }
            },
            Repr::Redirect { lladdr, redirected_hdr, .. } => {
                let mut offset: usize = 40;
                if let Some(addr) = lladdr {
                    let option = NdiscOptionRepr::TargetLinkLayerAddr(addr);
                    offset = emit_option(packet, offset, option, Ghost(s), Ghost(w));
                } else {
                    assert(w + target_bytes(lladdr) =~= w);
                }
                let ghost w = w + target_bytes(lladdr);
                assert(w + redirected_bytes(redirected_view(redirected_hdr)) =~= self@.body());
                if let Some(h) = redirected_hdr {
                    let option = NdiscOptionRepr::RedirectedHeader(h);
                    let _ = emit_option(packet, offset, option, Ghost(s), Ghost(w));
                } else {
                    assert(w =~= self@.body());
                }
            },
        }
    }
}

impl RouteInformationList {
    /// Writes the options for the routes behind `w`, which was written to the
    /// buffer `s` from the checksum on.
    fn emit<T: BufferMut>(
        &self,
        packet: &mut Packet<T>,
        at: usize,
        Ghost(s): Ghost<Seq<u8>>,
        Ghost(w): Ghost<Seq<u8>>,
    )
        requires
            at == 4 + w.len(),
            at + routes_bytes(self@).len() <= s.len() <= usize::MAX,
            old(packet)@ == splice(s, 4, w),
        ensures
            final(packet)@ == splice(s, 4, w + routes_bytes(self@)),
    {
        let mut offset: usize = at;
        let mut i: usize = 0;
        assert(w + routes_bytes(self@.take(0)) =~= w);
        while i < IFACE_MAX_ROUTE_COUNT
            invariant
                i <= IFACE_MAX_ROUTE_COUNT,
                self@ == self.entries@,
                at == 4 + w.len(),
                at + routes_bytes(self@).len() <= s.len() <= usize::MAX,
                offset == at + routes_bytes(self@.take(i as int)).len(),
                packet@ == splice(s, 4, w + routes_bytes(self@.take(i as int))),
            decreases IFACE_MAX_ROUTE_COUNT - i,
        {
            let ghost now = routes_bytes(self@.take(i as int));
            proof {
                assert(self@.take(i + 1).drop_last() =~= self@.take(i as int));
                lemma_routes_bytes_grow(self@, i + 1);
            }
            if let Some(e) = self.entries[i] {
                let option = NdiscOptionRepr::RouteInformation(e);
                assert(routes_bytes(self@.take(i + 1)) == now + option@.bytes());
                offset = emit_option(packet, offset, option, Ghost(s), Ghost(w + now));
                assert(w + now + option@.bytes() =~= w + routes_bytes(self@.take(i + 1)));
            } else {
                assert(routes_bytes(self@.take(i + 1)) =~= now);
            }
            i = i + 1;
        }
        assert(self@.take(i as int) =~= self@);
    }
}

/// More entries take no fewer bytes.
proof fn lemma_routes_bytes_grow(entries: Seq<Option<NdiscRouteInformation>>, n: int)
    requires
        0 <= n <= entries.len(),
    ensures
        routes_bytes(entries.take(n)).len() <= routes_bytes(entries).len(),
    decreases entries.len(),
{
    if n == entries.len() {
        assert(entries.take(n) =~= entries);
    } else {
        assert(entries.drop_last().take(n) =~= entries.take(n));
        lemma_routes_bytes_grow(entries.drop_last(), n);
    }
}

/// The number of bytes before the options.
pub(crate) proof fn lemma_fixed_len(v: ReprView)
    ensures
        4 + v.fixed().len() == v.message().header_len(),
{
    match v {
        ReprView::RouterSolicit { .. } => {},
        ReprView::RouterAdvert { router_lifetime, reachable_time, retrans_time, .. } => {
            lemma_be_bytes_len(lifetime_field(router_lifetime) as nat, 2);
            lemma_be_bytes_len(millis_field(reachable_time) as nat, 4);
            lemma_be_bytes_len(millis_field(retrans_time) as nat, 4);
        },
        ReprView::NeighborSolicit { target_addr, .. } => {
            lemma_be_bytes_len(target_addr.bits as nat, 16);
        },
        ReprView::NeighborAdvert { target_addr, .. } => {
            lemma_be_bytes_len(target_addr.bits as nat, 16);
        },
        ReprView::Redirect { target_addr, dest_addr, .. } => {
            lemma_be_bytes_len(target_addr.bits as nat, 16);
            lemma_be_bytes_len(dest_addr.bits as nat, 16);
        },
    }
}

/// Whether a list holds nothing that its options do not tell: its routes are at
/// the front, are valid and canonical, and have different prefixes.
pub open spec fn canonical_list(entries: Seq<Option<NdiscRouteInformation>>) -> bool {
    &&& entries.len() == IFACE_MAX_ROUTE_COUNT
    &&& forall|i: int|
        0 <= i < entries.len() && (#[trigger] entries[i]) is Some ==> entries[i]->0.canonical()
            && entries[i]->0.valid()
    &&& forall|i: int, j: int|
        0 <= i < j < entries.len() && (#[trigger] entries[j]) is Some ==> (
        #[trigger] entries[i]) is Some && !entries[i]->0.agrees(entries[j]->0)
}

/// Whether a link-layer address is absent or of full length.
pub open spec fn canonical_address(a: Option<RawHardwareAddress>) -> bool {
    a matches Some(a) ==> a.fits() && a.bytes().len() == 6
}

/// Whether a length of time is a number of milliseconds that a message can hold.
pub open spec fn in_whole_millis(d: Duration) -> bool {
    d.micros % 1000 == 0 && d.micros / 1000 <= 0xffff_ffff
}

impl ReprView {
    /// Whether a message holds nothing that its bytes do not tell.
    pub open spec fn canonical(self) -> bool {
        match self {
            ReprView::RouterSolicit { lladdr } => canonical_address(lladdr),
            ReprView::RouterAdvert {
                preference,
                router_lifetime,
                reachable_time,
                retrans_time,
                lladdr,
                prefix_info,
                route_info,
                ..
            } => {
                &&& preference == sent_preference(router_lifetime, preference)
                &&& router_lifetime.micros % 1_000_000 == 0
                &&& router_lifetime.micros / 1_000_000 <= 0xffff
                &&& in_whole_millis(reachable_time)
                &&& in_whole_millis(retrans_time)
                &&& canonical_address(lladdr)
                &&& prefix_info matches Some(p) ==> OptionView::PrefixInformation(p).canonical()
                &&& canonical_list(route_info)
            },
            ReprView::NeighborSolicit { lladdr, .. } => canonical_address(lladdr),
            ReprView::NeighborAdvert { lladdr, .. } => canonical_address(lladdr),
            ReprView::Redirect { lladdr, redirected_hdr, .. } => canonical_address(lladdr) && (
            redirected_hdr matches Some(h) ==> OptionView::RedirectedHeader(h).canonical()),
        }
    }

    /// The message as it is understood by its receiver: the link-layer address
    /// of the target of a Redirect is not taken note of.
    pub open spec fn received(self) -> ReprView {
        match self {
            ReprView::Redirect { target_addr, dest_addr, lladdr: _, redirected_hdr } => {
                ReprView::Redirect { target_addr, dest_addr, lladdr: None, redirected_hdr }
            },
            v => v,
        }
    }
}

/// Reading an option and what stands behind it.
proof fn lemma_gather_one(o: Options, v: OptionView, rest: Seq<u8>)
    requires
        v.canonical(),
    ensures
        o.gathered(v.bytes() + rest) == o.and(Some(v)).gathered(rest),
{
    law_option_round_trip(v);
    let s = v.bytes() + rest;
    let n = v.bytes().len() as int;
    assert(s[0] == v.bytes()[0] && s[1] == v.bytes()[1]);
    assert(s.take(n) =~= v.bytes());
    assert(s.skip(n) =~= rest);
}

/// What the options and those for the routes of a list say.
spec fn and_routes(o: Options, entries: Seq<Option<NdiscRouteInformation>>) -> Options
    decreases entries.len(),
{
    if entries.len() == 0 {
        o
    } else {
        let before = and_routes(o, entries.drop_last());
        match entries.last() {
            Some(e) => before.and(Some(OptionView::RouteInformation(e))),
            None => before,
        }
    }
}

/// Reading the options for the routes of a list and what stands behind them.
proof fn lemma_gather_routes(
    o: Options,
    entries: Seq<Option<NdiscRouteInformation>>,
    rest: Seq<u8>,
)
    requires
        forall|i: int|
            0 <= i < entries.len() && (#[trigger] entries[i]) is Some ==> entries[i]->0.canonical(),
    ensures
        o.gathered(routes_bytes(entries) + rest) == and_routes(o, entries).gathered(rest),
    decreases entries.len(),
{
    if entries.len() == 0 {
        assert(routes_bytes(entries) + rest =~= rest);
    } else {
        let first = entries.drop_last();
        assert forall|i: int|
            0 <= i < first.len() && (#[trigger] first[i]) is Some implies first[i]->0.canonical() by {
            assert(entries[i] == first[i]);
        }
        match entries.last() {
            Some(e) => {
                let v = OptionView::RouteInformation(e);
                assert(entries[entries.len() - 1] == Some(e));
                assert(routes_bytes(entries) + rest =~= routes_bytes(first) + (v.bytes() + rest));
                lemma_gather_routes(o, first, v.bytes() + rest);
                lemma_gather_one(and_routes(o, first), v, rest);
            },
            None => {
                assert(routes_bytes(entries) =~= routes_bytes(first));
                lemma_gather_routes(o, first, rest);
            },
        }
    }
}

/// The first `n` entries of a list, and nothing in place of the others.
spec fn first_entries(entries: Seq<Option<NdiscRouteInformation>>, n: int) -> Seq<
    Option<NdiscRouteInformation>,
> {
    Seq::new(
        entries.len(),
        |j: int|
            if j < n {
                entries[j]
            } else {
                None
            },
    )
}

/// Offering the routes of a canonical list to an empty one makes the same list.
proof fn lemma_and_routes(o: Options, entries: Seq<Option<NdiscRouteInformation>>, n: int)
    requires
        canonical_list(entries),
        o.route_info == no_entries(),
        0 <= n <= entries.len(),
    ensures
        and_routes(o, entries.take(n)) == (Options {
            route_info: first_entries(entries, n),
            ..o
        }),
    decreases n,
{
    if n == 0 {
        assert(first_entries(entries, 0) =~= no_entries());
    } else {
        let k = n - 1;
        let list = first_entries(entries, k);
        lemma_and_routes(o, entries, k);
        assert(entries.take(n).drop_last() =~= entries.take(k));
        assert(entries.take(n).last() == entries[k]);
        match entries[k] {
            Some(e) => {
                let same = |x: Option<NdiscRouteInformation>| has_prefix_of(x, e);
                let free = |x: Option<NdiscRouteInformation>| x is None;
                lemma_first_index(list, same);
                lemma_first_index(list, free);
                assert forall|i: int| 0 <= i < list.len() implies !same(#[trigger] list[i]) by {
                    if i < k {
                        assert(entries[i] is Some && !entries[i]->0.agrees(e));
                    }
                }
                assert(is_first(list, free, k)) by {
                    assert forall|i: int| 0 <= i < k implies !free(#[trigger] list[i]) by {
                        assert(entries[i] is Some);
                    }
                }
                assert(list.update(k, Some(e)) =~= first_entries(entries, n));
            },
            None => {
                assert(list =~= first_entries(entries, n));
            },
        }
    }
}

/// What the options of a message are made of.
spec fn options_of(v: ReprView) -> Options {
    match v {
        ReprView::RouterSolicit { lladdr } => Options { source: lladdr, ..Options::none() },
        ReprView::RouterAdvert { lladdr, mtu, prefix_info, route_info, .. } => Options {
            source: lladdr,
            mtu,
            prefix_info,
            route_info,
            ..Options::none()
        },
        ReprView::NeighborSolicit { lladdr, .. } => Options { source: lladdr, ..Options::none() },
        ReprView::NeighborAdvert { lladdr, .. } => Options { target: lladdr, ..Options::none() },
        ReprView::Redirect { lladdr, redirected_hdr, .. } => Options {
            target: lladdr,
            redirected_hdr,
            ..Options::none()
        },
    }
}

/// The options of a Router Advertisement are read back.
proof fn lemma_advert_options(
    lladdr: Option<RawHardwareAddress>,
    mtu: Option<u32>,
    prefix_info: Option<NdiscPrefixInformation>,
    route_info: Seq<Option<NdiscRouteInformation>>,
)
    requires
        canonical_address(lladdr),
        prefix_info matches Some(p) ==> OptionView::PrefixInformation(p).canonical(),
        canonical_list(route_info),
    ensures
        Options::none().gathered(
            source_bytes(lladdr) + mtu_bytes(mtu) + prefix_bytes(prefix_info) + routes_bytes(
                route_info,
            ),
        ) == Some(
            Options { source: lladdr, mtu, prefix_info, route_info, ..Options::none() },
        ),
{
    let none = Seq::<u8>::empty();
    let o = Options::none();
    let d = routes_bytes(route_info);
    let c = prefix_bytes(prefix_info) + d;
    let b = mtu_bytes(mtu) + c;
    assert(source_bytes(lladdr) + mtu_bytes(mtu) + prefix_bytes(prefix_info) + d
        =~= source_bytes(lladdr) + b);
    lemma_gather_source(o, lladdr, b);
    let o1 = Options { source: lladdr, ..o };
    lemma_gather_mtu(o1, mtu, c);
    let o2 = Options { mtu, ..o1 };
    lemma_gather_prefix(o2, prefix_info, d);
    let o3 = Options { prefix_info, ..o2 };
    lemma_gather_routes(o3, route_info, none);
    assert(d + none =~= d);
    lemma_and_routes(o3, route_info, route_info.len() as int);
    assert(route_info.take(route_info.len() as int) =~= route_info);
    assert(first_entries(route_info, route_info.len() as int) =~= route_info);
    let o4 = Options { route_info, ..o3 };
    assert(o3.gathered(d) == o4.gathered(none));
}

/// The options of a Redirect are read back.
proof fn lemma_redirect_options(
    lladdr: Option<RawHardwareAddress>,
    redirected_hdr: Option<RedirectedHeaderView>,
)
    requires
        canonical_address(lladdr),
        redirected_hdr matches Some(h) ==> OptionView::RedirectedHeader(h).canonical(),
    ensures
        Options::none().gathered(target_bytes(lladdr) + redirected_bytes(redirected_hdr)) == Some(
            Options { target: lladdr, redirected_hdr, ..Options::none() },
        ),
{
    let none = Seq::<u8>::empty();
    let o = Options::none();
    let b = redirected_bytes(redirected_hdr);
    lemma_gather_target(o, lladdr, b);
    let o1 = Options { target: lladdr, ..o };
    match redirected_hdr {
        Some(h) => {
            lemma_gather_one(o1, OptionView::RedirectedHeader(h), none);
        },
        None => {},
    }
    assert(b + none =~= b);
}

/// What the options of a message say is what it was made of.
proof fn lemma_options_round_trip(v: ReprView)
    requires
        v.canonical(),
    ensures
        Options::none().gathered(v.options()) == Some(options_of(v)),
{
    let none = Seq::<u8>::empty();
    let o = Options::none();
    match v {
        ReprView::RouterSolicit { lladdr } => {
            lemma_gather_source(o, lladdr, none);
            assert(source_bytes(lladdr) + none =~= v.options());
        },
        ReprView::RouterAdvert { lladdr, mtu, prefix_info, route_info, .. } => {
            lemma_advert_options(lladdr, mtu, prefix_info, route_info);
        },
        ReprView::NeighborSolicit { lladdr, .. } => {
            lemma_gather_source(o, lladdr, none);
            assert(source_bytes(lladdr) + none =~= v.options());
        },
        ReprView::NeighborAdvert { lladdr, .. } => {
            lemma_gather_target(o, lladdr, none);
            assert(target_bytes(lladdr) + none =~= v.options());
        },
        ReprView::Redirect { lladdr, redirected_hdr, .. } => {
            lemma_redirect_options(lladdr, redirected_hdr);
        },
    }
}

proof fn lemma_gather_mtu(o: Options, mtu: Option<u32>, rest: Seq<u8>)
    requires
        o.mtu is None,
    ensures
        o.gathered(mtu_bytes(mtu) + rest) == (Options { mtu, ..o }).gathered(rest),
{
    match mtu {
        Some(m) => {
            lemma_gather_one(o, OptionView::Mtu(m), rest);
        },
        None => {
            assert(mtu_bytes(mtu) + rest =~= rest);
        },
    }
}

proof fn lemma_gather_prefix(o: Options, prefix: Option<NdiscPrefixInformation>, rest: Seq<u8>)
    requires
        prefix matches Some(p) ==> OptionView::PrefixInformation(p).canonical(),
        o.prefix_info is None,
    ensures
        o.gathered(prefix_bytes(prefix) + rest) == (Options { prefix_info: prefix, ..o }).gathered(
            rest,
        ),
{
    match prefix {
        Some(p) => {
            lemma_gather_one(o, OptionView::PrefixInformation(p), rest);
        },
        None => {
            assert(prefix_bytes(prefix) + rest =~= rest);
        },
    }
}

proof fn lemma_gather_source(o: Options, lladdr: Option<RawHardwareAddress>, rest: Seq<u8>)
    requires
        canonical_address(lladdr),
        o.source is None,
    ensures
        o.gathered(source_bytes(lladdr) + rest) == (Options { source: lladdr, ..o }).gathered(rest),
{
    match lladdr {
        Some(a) => {
            lemma_gather_one(o, OptionView::SourceLinkLayerAddr(a), rest);
        },
        None => {
            assert(source_bytes(lladdr) + rest =~= rest);
        },
    }
}

proof fn lemma_gather_target(o: Options, lladdr: Option<RawHardwareAddress>, rest: Seq<u8>)
    requires
        canonical_address(lladdr),
        o.target is None,
    ensures
        o.gathered(target_bytes(lladdr) + rest) == (Options { target: lladdr, ..o }).gathered(rest),
{
    match lladdr {
        Some(a) => {
            lemma_gather_one(o, OptionView::TargetLinkLayerAddr(a), rest);
        },
        None => {
            assert(target_bytes(lladdr) + rest =~= rest);
        },
    }
}

/// The address that was written is read back.
proof fn lemma_address_field(s: Seq<u8>, at: int, a: Ipv6Address)
    requires
        0 <= at,
        at + 16 <= s.len(),
        s.subrange(at, at + 16) == be_bytes(a.bits as nat, 16),
    ensures
        address_at(s, at) == a,
{
    reveal_with_fuel(pow256, 17);
    lemma_value_of_bytes(a.bits as nat, 16);
}

/// The milliseconds that were written are read back.
proof fn lemma_millis_field(s: Seq<u8>, at: int, d: Duration)
    requires
        0 <= at,
        at + 4 <= s.len(),
        in_whole_millis(d),
        s.subrange(at, at + 4) == be_bytes(millis_field(d) as nat, 4),
    ensures
        millis_at(s, at) == d,
{
    reveal_with_fuel(pow256, 5);
    lemma_value_of_bytes(millis_field(d) as nat, 4);
}

/// The router lifetime that was written is read back.
proof fn lemma_lifetime_field(s: Seq<u8>, d: Duration)
    requires
        8 <= s.len(),
        d.micros % 1_000_000 == 0,
        d.micros / 1_000_000 <= 0xffff,
        s.subrange(6, 8) == be_bytes(lifetime_field(d) as nat, 2),
    ensures
        be_value(s.subrange(6, 8)) * 1_000_000 == d.micros,
{
    reveal_with_fuel(pow256, 3);
    lemma_value_of_bytes(lifetime_field(d) as nat, 2);
}

/// The octet of flags and preference is read back.
proof fn lemma_flags_octet(flags: RouterFlags, preference: NdiscRoutePreference)
    requires
        preference == preference.normalized(),
    ensures
        ({
            let octet = (flags.octet() + preference.code() * 8) as u8;
            &&& RouterFlags::of_bits(octet) == flags
            &&& NdiscRoutePreference::of_code(preference_bits(octet)) == preference
        }),
{
}

/// A part of the header of a message.
proof fn lemma_field(s: Seq<u8>, f: Seq<u8>, a: int, b: int)
    requires
        4 <= a <= b <= 4 + f.len() <= s.len(),
        s.subrange(4, (4 + f.len()) as int) == f,
    ensures
        s.subrange(a, b) == f.subrange(a - 4, b - 4),
{
    assert(s.subrange(a, b) =~= s.subrange(4, (4 + f.len()) as int).subrange(a - 4, b - 4));
}

/// The header of a Router Advertisement is read back.
proof fn lemma_advert_header(v: ReprView, s: Seq<u8>, o: Options)
    requires
        v is RouterAdvert,
        v.canonical(),
        s.len() >= 16,
        s[0] == v.message().code(),
        v.fixed().len() == 12,
        s.subrange(4, 16) == v.fixed(),
        v matches ReprView::RouterAdvert { lladdr, mtu, prefix_info, route_info, .. } && o.source
            == lladdr && o.mtu == mtu && o.prefix_info == prefix_info && o.route_info == route_info,
    ensures
        ReprView::assembled(s, o) == Some(v),
{
    if let ReprView::RouterAdvert {
        hop_limit,
        flags,
        preference,
        router_lifetime,
        reachable_time,
        retrans_time,
        ..
    } = v {
        let f = v.fixed();
        let x = be_bytes(lifetime_field(router_lifetime) as nat, 2);
        let y = be_bytes(millis_field(reachable_time) as nat, 4);
        let z = be_bytes(millis_field(retrans_time) as nat, 4);
        lemma_be_bytes_len(lifetime_field(router_lifetime) as nat, 2);
        lemma_be_bytes_len(millis_field(reachable_time) as nat, 4);
        lemma_be_bytes_len(millis_field(retrans_time) as nat, 4);
        assert(f.subrange(2, 4) =~= x);
        assert(f.subrange(4, 8) =~= y);
        assert(f.subrange(8, 12) =~= z);
        lemma_field(s, f, 6, 8);
        lemma_field(s, f, 8, 12);
        lemma_field(s, f, 12, 16);
        lemma_lifetime_field(s, router_lifetime);
        lemma_millis_field(s, 8, reachable_time);
        lemma_millis_field(s, 12, retrans_time);
        assert(s[4] == s.subrange(4, 16)[0] && s[5] == s.subrange(4, 16)[1]);
        lemma_flags_octet(flags, preference);
    }
}

/// The header of a message with a target is read back.
proof fn lemma_target_header(v: ReprView, s: Seq<u8>, target_addr: Ipv6Address)
    requires
        match v {
            ReprView::NeighborSolicit { target_addr: t, .. } => t == target_addr,
            ReprView::NeighborAdvert { target_addr: t, .. } => t == target_addr,
            ReprView::Redirect { target_addr: t, .. } => t == target_addr,
            _ => false,
        },
        s.len() >= 4 + v.fixed().len(),
        4 + v.fixed().len() == v.message().header_len(),
        s.subrange(4, (4 + v.fixed().len()) as int) == v.fixed(),
    ensures
        address_at(s, 8) == target_addr,
        v matches ReprView::NeighborAdvert { flags, .. } ==> s[4] == flags.octet(),
        v matches ReprView::Redirect { dest_addr, .. } ==> address_at(s, 24) == dest_addr,
{
    let f = v.fixed();
    lemma_be_bytes_len(target_addr.bits as nat, 16);
    if let ReprView::Redirect { dest_addr, .. } = v {
        lemma_be_bytes_len(dest_addr.bits as nat, 16);
        assert(f.subrange(20, 36) =~= be_bytes(dest_addr.bits as nat, 16));
        lemma_field(s, f, 24, 40);
        lemma_address_field(s, 24, dest_addr);
    }
    assert(f.subrange(4, 20) =~= be_bytes(target_addr.bits as nat, 16));
    lemma_field(s, f, 8, 24);
    lemma_address_field(s, 8, target_addr);
    assert(s[4] == s.subrange(4, (4 + f.len()) as int)[0]);
}

/// A message that was written to a buffer of its size is read back from it,
/// whatever the buffer held before. Of a Redirect, the link-layer address is
/// lost.
pub proof fn law_message_round_trip(v: ReprView, s: Seq<u8>)
    requires
        v.canonical(),
        s.len() == 4 + v.body().len(),
    ensures
        ReprView::parsed(v.emitted(s)) == Some(v.received()),
{
    let after = v.emitted(s);
    let n = v.message().header_len() as int;
    lemma_fixed_len(v);
    lemma_options_round_trip(v);
    assert(after[0] == v.message().code());
    assert(payload_of(after) =~= v.options());
    assert(after.subrange(4, n) =~= v.fixed());
    let o = Options::none().gathered(v.options())->0;
    match v {
        ReprView::RouterSolicit { .. } => {},
        ReprView::RouterAdvert { .. } => {
            lemma_advert_header(v, after, o);
        },
        ReprView::NeighborSolicit { target_addr, .. } => {
            lemma_target_header(v, after, target_addr);
        },
        ReprView::NeighborAdvert { flags, target_addr, .. } => {
            lemma_target_header(v, after, target_addr);
            assert(NeighborFlags::of_bits(flags.octet()) == flags);
        },
        ReprView::Redirect { target_addr, .. } => {
            lemma_target_header(v, after, target_addr);
        },
    }
}

/// Setting the flags of a Router Advertisement sets them and keeps the
/// preference.
pub proof fn law_flags_keep_preference(octet: u8, flags: RouterFlags)
    ensures
        RouterFlags::of_bits(with_flags(octet, flags)) == flags,
        preference_bits(with_flags(octet, flags)) == preference_bits(octet),
{
}

/// Setting the preference of a Router Advertisement sets it, reserved values
/// becoming the medium one, and keeps the flags.
pub proof fn law_preference_keeps_flags(octet: u8, preference: NdiscRoutePreference)
    ensures
        NdiscRoutePreference::of_code(preference_bits(with_preference(octet, preference)))
            == preference.normalized(),
        RouterFlags::of_bits(with_preference(octet, preference)) == RouterFlags::of_bits(octet),
{
}

/// Whether no two routes of a list have the same prefix.
pub open spec fn prefixes_distinct(entries: Seq<Option<NdiscRouteInformation>>) -> bool {
    forall|i: int, j: int|
        0 <= i < j < entries.len() && (#[trigger] entries[i]) is Some && (
        #[trigger] entries[j]) is Some ==> !entries[i]->0.agrees(entries[j]->0)
}

/// The position that a route takes is one of the list, and no route elsewhere
/// in the list has its prefix.
proof fn lemma_place_in(entries: Seq<Option<NdiscRouteInformation>>, info: NdiscRouteInformation)
    requires
        prefixes_distinct(entries),
    ensures
        place_in(entries, info) matches Some(i) ==> {
            &&& 0 <= i < entries.len()
            &&& info.valid()
            &&& forall|j: int|
                0 <= j < entries.len() && j != i && (#[trigger] entries[j]) is Some
                    ==> !entries[j]->0.agrees(info)
        },
{
    let same = |e: Option<NdiscRouteInformation>| has_prefix_of(e, info);
    let free = |e: Option<NdiscRouteInformation>| e is None;
    let lasting = |e: Option<NdiscRouteInformation>| is_lasting(e);
    lemma_first_index(entries, same);
    lemma_first_index(entries, free);
    lemma_first_index(entries, lasting);
    if let Some(i) = place_in(entries, info) {
        if let Some(d) = first_index(entries, same) {
            assert(is_first(entries, same, d));
            assert forall|j: int|
                0 <= j < entries.len() && j != i && (
                #[trigger] entries[j]) is Some implies !entries[j]->0.agrees(info) by {
                if entries[j]->0.agrees(info) {
                    assert(entries[d]->0.agrees(info));
                    if d < j {
                        assert(!entries[d]->0.agrees(entries[j]->0));
                    } else {
                        assert(!entries[j]->0.agrees(entries[d]->0));
                    }
                }
            }
        } else {
            lemma_no_first(entries, same);
            if first_index(entries, free) is Some {
                assert(is_first(entries, free, i));
            } else {
                assert(is_first(entries, lasting, i));
            }
            assert forall|j: int|
                0 <= j < entries.len() && j != i && (
                #[trigger] entries[j]) is Some implies !entries[j]->0.agrees(info) by {
                assert(!same(entries[j]));
            }
        }
    }
}

/// A list never holds two routes with the same prefix, so that none is sent
/// twice.
pub proof fn law_list_prefixes_stay_distinct(
    entries: Seq<Option<NdiscRouteInformation>>,
    info: NdiscRouteInformation,
)
    requires
        prefixes_distinct(entries),
    ensures
        prefixes_distinct(offered(entries, info)),
{
    lemma_place_in(entries, info);
    if let Some(p) = place_in(entries, info) {
        let after = offered(entries, info);
        assert forall|i: int, j: int|
            0 <= i < j < after.len() && (#[trigger] after[i]) is Some && (
            #[trigger] after[j]) is Some implies !after[i]->0.agrees(after[j]->0) by {
            let _ = entries[i];
            let _ = entries[j];
            if i == p {
                assert(!entries[j]->0.agrees(info));
            } else if j == p {
                assert(!entries[i]->0.agrees(info));
            } else {
                assert(entries[i] is Some && entries[j] is Some);
            }
        }
    }
}

/// The routes of a message that was read have different prefixes.
pub proof fn law_parsed_prefixes_are_distinct(s: Seq<u8>)
    ensures
        ReprView::parsed(s) matches Some(ReprView::RouterAdvert { route_info, .. })
            ==> prefixes_distinct(route_info),
{
    assert(prefixes_distinct(no_entries()));
    if has_header(s) {
        lemma_gathered_distinct(Options::none(), payload_of(s));
    }
}

proof fn lemma_gathered_distinct(o: Options, s: Seq<u8>)
    requires
        prefixes_distinct(o.route_info),
    ensures
        o.gathered(s) matches Some(r) ==> prefixes_distinct(r.route_info),
    decreases s.len(),
{
    if s.len() > 0 && has_option(s) {
        let n = option_len(s) as int;
        let v = OptionView::parsed(s.take(n));
        if let Some(OptionView::RouteInformation(r)) = v {
            law_list_prefixes_stay_distinct(o.route_info, r);
        }
        lemma_gathered_distinct(o.and(v), s.skip(n));
    }
}

/// A list whose options can be read back stays such a list when a canonical
/// route is offered to it. The empty list is one.
pub proof fn law_list_stays_canonical(
    entries: Seq<Option<NdiscRouteInformation>>,
    info: NdiscRouteInformation,
)
    requires
        canonical_list(entries),
        info.canonical(),
    ensures
        canonical_list(offered(entries, info)),
        canonical_list(no_entries()),
{
    assert(prefixes_distinct(entries)) by {
        assert forall|i: int, j: int|
            0 <= i < j < entries.len() && (#[trigger] entries[i]) is Some && (
            #[trigger] entries[j]) is Some implies !entries[i]->0.agrees(entries[j]->0) by {}
    }
    let same = |e: Option<NdiscRouteInformation>| has_prefix_of(e, info);
    let free = |e: Option<NdiscRouteInformation>| e is None;
    let lasting = |e: Option<NdiscRouteInformation>| is_lasting(e);
    lemma_first_index(entries, same);
    lemma_first_index(entries, free);
    lemma_first_index(entries, lasting);
    lemma_place_in(entries, info);
    law_list_prefixes_stay_distinct(entries, info);
    if let Some(p) = place_in(entries, info) {
        let after = offered(entries, info);
        if first_index(entries, same) is Some {
            assert(is_first(entries, same, p));
        } else if first_index(entries, free) is Some {
            assert(is_first(entries, free, p));
        } else {
            assert(is_first(entries, lasting, p));
        }
        assert forall|i: int, j: int|
            0 <= i < j < after.len() && (#[trigger] after[j]) is Some implies (
        #[trigger] after[i]) is Some && !after[i]->0.agrees(after[j]->0) by {
            let _ = entries[i];
            let _ = entries[j];
            if i == p {
            } else if j == p {
                if entries[i] is None {
                    assert(free(entries[i]));
                    if entries[p] is Some {
                        assert(entries[i] is Some);
                    }
                }
            } else {
                assert(entries[j] is Some);
            }
            assert(after[i] is Some);
            assert(!after[i]->0.agrees(after[j]->0));
        }
    }
}

/// A withdrawal finds a place in every list that does not consist of
/// withdrawals of other routes.
pub proof fn law_withdrawal_is_kept(
    entries: Seq<Option<NdiscRouteInformation>>,
    info: NdiscRouteInformation,
    i: int,
)
    requires
        info.valid(),
        info.route_lifetime.micros == 0,
        0 <= i < entries.len(),
        entries[i] is None || is_lasting(entries[i]) || has_prefix_of(entries[i], info),
    ensures
        place_in(entries, info) is Some,
        offered(entries, info).contains(Some(info)),
{
    let same = |e: Option<NdiscRouteInformation>| has_prefix_of(e, info);
    let free = |e: Option<NdiscRouteInformation>| e is None;
    let lasting = |e: Option<NdiscRouteInformation>| is_lasting(e);
    if first_index(entries, same) is None {
        lemma_no_first(entries, same);
        assert(!same(entries[i]));
        if first_index(entries, free) is None {
            lemma_no_first(entries, free);
            assert(!free(entries[i]));
            if first_index(entries, lasting) is None {
                lemma_no_first(entries, lasting);
                assert(!lasting(entries[i]));
            } else {
                assert(is_first(entries, lasting, first_index(entries, lasting)->0));
            }
        } else {
            assert(is_first(entries, free, first_index(entries, free)->0));
        }
    } else {
        assert(is_first(entries, same, first_index(entries, same)->0));
    }
    let p = place_in(entries, info)->0;
    assert(offered(entries, info)[p] == Some(info));
}

/// An address that is set as the target or the destination of a message is read
/// back, and nothing else of the message changes.
pub proof fn law_address_is_read_back(s: Seq<u8>, at: int, a: Ipv6Address)
    requires
        0 <= at,
        at + 16 <= s.len(),
    ensures
        address_at(splice(s, at, be_bytes(a.bits as nat, 16)), at) == a,
        splice(s, at, be_bytes(a.bits as nat, 16)).take(at) == s.take(at),
        splice(s, at, be_bytes(a.bits as nat, 16)).skip(at + 16) == s.skip(at + 16),
{
    let t = splice(s, at, be_bytes(a.bits as nat, 16));
    lemma_be_bytes_len(a.bits as nat, 16);
    assert(t.subrange(at, at + 16) =~= be_bytes(a.bits as nat, 16));
    assert(t.take(at) =~= s.take(at));
    assert(t.skip(at + 16) =~= s.skip(at + 16));
    lemma_address_field(t, at, a);
}

/// A length of time that is set in a message is read back in whole milliseconds,
/// as far as it fits.
pub proof fn law_millis_are_read_back(s: Seq<u8>, at: int, d: Duration)
    requires
        0 <= at,
        at + 4 <= s.len(),
    ensures
        millis_at(splice(s, at, be_bytes(millis_field(d) as nat, 4)), at).micros == d.micros / 1000
            % 0x1_0000_0000 * 1000,
{
    let t = splice(s, at, be_bytes(millis_field(d) as nat, 4));
    lemma_be_bytes_len(millis_field(d) as nat, 4);
    assert(t.subrange(at, at + 4) =~= be_bytes(millis_field(d) as nat, 4));
    reveal_with_fuel(pow256, 5);
    lemma_value_of_bytes(millis_field(d) as nat, 4);
}

/// A router lifetime that is set in a message is read back in whole seconds, as
/// far as it fits.
pub proof fn law_lifetime_is_read_back(s: Seq<u8>, d: Duration)
    requires
        8 <= s.len(),
    ensures
        be_value(splice(s, 6, be_bytes(lifetime_field(d) as nat, 2)).subrange(6, 8)) == d.micros
            / 1_000_000 % 0x1_0000,
{
    let t = splice(s, 6, be_bytes(lifetime_field(d) as nat, 2));
    lemma_be_bytes_len(lifetime_field(d) as nat, 2);
    assert(t.subrange(6, 8) =~= be_bytes(lifetime_field(d) as nat, 2));
    reveal_with_fuel(pow256, 3);
    lemma_value_of_bytes(lifetime_field(d) as nat, 2);
}

/// The entries of a list after some routes were offered to it in turn.
pub open spec fn offered_all(
    entries: Seq<Option<NdiscRouteInformation>>,
    infos: Seq<NdiscRouteInformation>,
) -> Seq<Option<NdiscRouteInformation>>
    decreases infos.len(),
{
    if infos.len() == 0 {
        entries
    } else {
        offered(offered_all(entries, infos.drop_last()), infos.last())
    }
}

/// Offering a route and then others is offering all of them.
proof fn lemma_offered_first(
    entries: Seq<Option<NdiscRouteInformation>>,
    info: NdiscRouteInformation,
    infos: Seq<NdiscRouteInformation>,
)
    ensures
        offered_all(entries, seq![info] + infos) == offered_all(offered(entries, info), infos),
    decreases infos.len(),
{
    let all = seq![info] + infos;
    if infos.len() == 0 {
        assert(all.drop_last() =~= Seq::<NdiscRouteInformation>::empty());
        assert(offered_all(entries, all.drop_last()) == entries);
        assert(all.last() == info);
    } else {
        lemma_offered_first(entries, info, infos.drop_last());
        assert(all.drop_last() =~= seq![info] + infos.drop_last());
        assert(all.last() == infos.last());
    }
}

/// The list that options make is that of the routes that they carry.
proof fn lemma_gathered_routes(o: Options, s: Seq<u8>)
    ensures
        match (o.gathered(s), carried_routes(s)) {
            (Some(r), Some(infos)) => r.route_info == offered_all(o.route_info, infos),
            (None, None) => true,
            _ => false,
        },
    decreases s.len(),
{
    if s.len() > 0 && has_option(s) {
        let n = option_len(s) as int;
        let v = OptionView::parsed(s.take(n));
        lemma_gathered_routes(o.and(v), s.skip(n));
        if let (Some(OptionView::RouteInformation(r)), Some(rest)) = (v, carried_routes(s.skip(n))) {
            lemma_offered_first(o.route_info, r, rest);
        }
    }
}

/// The routes of a Router Advertisement that was read are those that its options
/// carry, offered to an empty list in turn.
pub proof fn law_parsed_routes_are_those_carried(s: Seq<u8>)
    ensures
        ReprView::parsed(s) matches Some(ReprView::RouterAdvert { route_info, .. }) ==> {
            &&& carried_routes(payload_of(s)) is Some
            &&& route_info == offered_all(no_entries(), carried_routes(payload_of(s))->0)
        },
{
    if has_header(s) {
        lemma_gathered_routes(Options::none(), payload_of(s));
    }
}

} // verus!
