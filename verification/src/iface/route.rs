//! The routing table.
//!
//! The table holds routes that the application configured and routes that were
//! learned from routers. An index beside the public routes, ordered by prefix
//! and router, records which slot of the table is which, so that an
//! application's route is never taken for a learned one merely because the two
//! look alike.

use vstd::prelude::*;
use crate::collections::{as_slice, insert, push, remove, Elements};
use crate::config::IFACE_MAX_ROUTE_COUNT;
use crate::iface::ownership::{
    can_join, candidates_distinct, lemma_chosen, lemma_joined_valid, lemma_learned_slot,
    lemma_prefix_valid, lemma_rebuilt_valid,
};
use crate::time::Instant;
use crate::wire::ip::{IpAddress, IpCidr, Ipv4Address, Ipv4Cidr, Ipv6Address, Ipv6Cidr};
use crate::wire::ndiscoption::NdiscRoutePreference;

verus! {

/// The routing table has no room for another route.
#[derive(Debug, Clone, Copy, PartialEq, Eq, Structural)]
pub struct RouteTableFull;

impl RouteTableFull {
    /// The message for a user.
    pub fn message(&self) -> (r: &'static str)
        ensures
            r@ == "Route table full"@,
    {
        "Route table full"
    }
}

/// A prefix of addresses that should be routed via a router.
#[derive(Debug, Clone, Copy, PartialEq, Eq, Structural)]
pub struct Route {
    pub cidr: IpCidr,
    pub via_router: IpAddress,
    /// `None` means "forever".
    pub preferred_until: Option<Instant>,
    /// `None` means "forever".
    pub expires_at: Option<Instant>,
}

/// What tells one IPv6 route from another: its prefix and its router.
pub type Identity = (Ipv6Cidr, Ipv6Address);

impl Route {
    /// The prefix and the router, if both are of IPv6.
    pub open spec fn identity(self) -> Option<Identity> {
        match (self.cidr, self.via_router) {
            (IpCidr::Ipv6(cidr), IpAddress::Ipv6(via_router)) => Some((cidr, via_router)),
            _ => None,
        }
    }

    /// The prefix and the router, if both are of IPv6.
    fn ipv6_identity(&self) -> (r: Option<Identity>)
        ensures
            r == self.identity(),
    {
        match (self.cidr, self.via_router) {
            (IpCidr::Ipv6(cidr), IpAddress::Ipv6(via_router)) => Some((cidr, via_router)),
            _ => None,
        }
    }

    /// The prefix `0.0.0.0/0`.
    pub open spec fn ipv4_default() -> IpCidr {
        IpCidr::Ipv4(Ipv4Cidr { address: Ipv4Address { bits: 0 }, prefix_len: 0 })
    }

    /// The prefix `::/0`.
    pub open spec fn ipv6_default() -> IpCidr {
        IpCidr::Ipv6(Ipv6Cidr { address: Ipv6Address { bits: 0 }, prefix_len: 0 })
    }

    /// A route to `0.0.0.0/0` via the gateway, with no expiry.
    pub fn new_ipv4_gateway(gateway: Ipv4Address) -> (r: Route)
        ensures
            r == (Route {
                cidr: Route::ipv4_default(),
                via_router: IpAddress::Ipv4(gateway),
                preferred_until: None,
                expires_at: None,
            }),
    {
        Route {
            cidr: IpCidr::Ipv4(Ipv4Cidr { address: Ipv4Address { bits: 0 }, prefix_len: 0 }),
            via_router: IpAddress::Ipv4(gateway),
            preferred_until: None,
            expires_at: None,
        }
    }

    /// A route to `::/0` via the gateway, with no expiry.
    pub fn new_ipv6_gateway(gateway: Ipv6Address) -> (r: Route)
        ensures
            r == (Route {
                cidr: Route::ipv6_default(),
                via_router: IpAddress::Ipv6(gateway),
                preferred_until: None,
                expires_at: None,
            }),
    {
        Route {
            cidr: IpCidr::Ipv6(Ipv6Cidr { address: Ipv6Address { bits: 0 }, prefix_len: 0 }),
            via_router: IpAddress::Ipv6(gateway),
            preferred_until: None,
            expires_at: None,
        }
    }

    /// Whether the route is a default route of IPv4.
    pub fn is_ipv4_gateway(&self) -> (r: bool)
        ensures
            r == (self.cidr == Route::ipv4_default()),
    {
        match self.cidr {
            IpCidr::Ipv4(c) => c.address.bits == 0 && c.prefix_len == 0,
            IpCidr::Ipv6(_) => false,
        }
    }

    /// Whether the route is a default route of IPv6.
    pub fn is_ipv6_gateway(&self) -> (r: bool)
        ensures
            r == (self.cidr == Route::ipv6_default()),
    {
        match self.cidr {
            IpCidr::Ipv4(_) => false,
            IpCidr::Ipv6(c) => c.address.bits == 0 && c.prefix_len == 0,
        }
    }

    /// Whether the route leads to `addr` and has not expired at `now`.
    pub open spec fn leads_to(self, addr: IpAddress, now: Instant) -> bool {
        &&& self.expires_at matches Some(t) ==> now.micros <= t.micros
        &&& self.cidr.contains(addr)
    }
}

/// A route that was learned from a router.
#[derive(Debug, Clone, Copy, PartialEq, Eq, Structural)]
pub struct LearnedRoute {
    pub cidr: Ipv6Cidr,
    pub via_router: Ipv6Address,
    pub valid_until: Option<Instant>,
    pub preference: NdiscRoutePreference,
    pub order: u32,
}

/// What the table knows of a learned route beside the route itself.
#[derive(Debug, Clone, Copy, PartialEq, Eq, Structural)]
pub struct Learned {
    pub preference: NdiscRoutePreference,
    pub order: u32,
}

/// A slot of the routing table: a public route, and whether it was learned.
pub struct Slot {
    pub route: Route,
    pub learned: Option<Learned>,
}

impl LearnedRoute {
    /// The prefix and the router.
    pub open spec fn identity(self) -> Identity {
        (self.cidr, self.via_router)
    }

    /// The public form of the route.
    pub open spec fn public(self) -> Route {
        Route {
            cidr: IpCidr::Ipv6(self.cidr),
            via_router: IpAddress::Ipv6(self.via_router),
            preferred_until: None,
            expires_at: self.valid_until,
        }
    }

    /// The slot that the route takes in a table.
    pub open spec fn slot(self) -> Slot {
        Slot {
            route: self.public(),
            learned: Some(Learned { preference: self.preference, order: self.order }),
        }
    }

    /// The public form of the route.
    pub fn as_interface_route(&self) -> (r: Route)
        ensures
            r == self.public(),
    {
        Route {
            cidr: IpCidr::Ipv6(self.cidr),
            via_router: IpAddress::Ipv6(self.via_router),
            preferred_until: None,
            expires_at: self.valid_until,
        }
    }
}

/// Who put a route into the table.
#[derive(Debug, Clone, Copy, PartialEq, Eq, Structural)]
pub enum RouteOwnership {
    Configured,
    Learned { valid_until: Option<Instant>, preference: NdiscRoutePreference, order: u32 },
}

/// The owner of the slot of an IPv6 route.
#[derive(Debug, Clone, Copy, PartialEq, Eq, Structural)]
pub struct IndexedRoute {
    pub cidr: Ipv6Cidr,
    pub via_router: Ipv6Address,
    pub slot: u32,
    pub ownership: RouteOwnership,
}

impl IndexedRoute {
    /// The prefix and the router.
    pub open spec fn identity(self) -> Identity {
        (self.cidr, self.via_router)
    }
}

/// The order of the index: by address, then prefix length, then router.
pub open spec fn identity_before(a: Identity, b: Identity) -> bool {
    ||| a.0.address.bits < b.0.address.bits
    ||| a.0.address.bits == b.0.address.bits && a.0.prefix_len < b.0.prefix_len
    ||| a.0.address.bits == b.0.address.bits && a.0.prefix_len == b.0.prefix_len && a.1.bits
        < b.1.bits
}

/// Whether `a` comes before `b` in the index.
pub(crate) fn comes_before(a: &Identity, b: &Identity) -> (r: bool)
    ensures
        r == identity_before(*a, *b),
{
    if a.0.address.bits != b.0.address.bits {
        a.0.address.bits < b.0.address.bits
    } else if a.0.prefix_len != b.0.prefix_len {
        a.0.prefix_len < b.0.prefix_len
    } else {
        a.1.bits < b.1.bits
    }
}

/// Whether the entries are in the order of the index, those of one identity by
/// slot.
pub open spec fn sorted(index: Seq<IndexedRoute>) -> bool {
    forall|a: int, b: int|
        0 <= a < b < index.len() ==> {
            ||| identity_before(#[trigger] index[a].identity(), #[trigger] index[b].identity())
            ||| index[a].identity() == index[b].identity() && index[a].slot < index[b].slot
        }
}

/// The number of entries that come before every entry of the identity `id`,
/// or, with `past`, before every entry that comes behind it.
fn partition_point(index: &[IndexedRoute], id: &Identity, past: bool) -> (r: usize)
    requires
        sorted(index@),
    ensures
        r <= index@.len(),
        forall|k: int|
            0 <= k < r ==> (identity_before(#[trigger] index@[k].identity(), *id) || past
                && index@[k].identity() == *id),
        forall|k: int|
            r <= k < index@.len() ==> (identity_before(*id, #[trigger] index@[k].identity())
                || !past && index@[k].identity() == *id),
{
    let mut lo: usize = 0;
    let mut hi: usize = index.len();
    while lo < hi
        invariant
            lo <= hi <= index@.len(),
            sorted(index@),
            forall|k: int|
                0 <= k < lo ==> (identity_before(#[trigger] index@[k].identity(), *id) || past
                    && index@[k].identity() == *id),
            forall|k: int|
                hi <= k < index@.len() ==> (identity_before(*id, #[trigger] index@[k].identity())
                    || !past && index@[k].identity() == *id),
        decreases hi - lo,
    {
        let mid: usize = lo + (hi - lo) / 2;
        let at: Identity = (index[mid].cidr, index[mid].via_router);
        let below = if past {
            !comes_before(id, &at)
        } else {
            comes_before(&at, id)
        };
        assert(at == index@[mid as int].identity());
        if below {
            lo = mid + 1;
        } else {
            hi = mid;
        }
    }
    lo
}

/// The positions of the entries of one identity: from the first number to
/// before the second.
fn identity_range(index: &[IndexedRoute], id: &Identity) -> (r: (usize, usize))
    requires
        sorted(index@),
    ensures
        r.0 <= r.1 <= index@.len(),
        forall|k: int|
            0 <= k < index@.len() ==> (#[trigger] index@[k].identity() == *id <==> r.0 <= k < r.1),
{
    let start = partition_point(index, id, false);
    let end = partition_point(index, id, true);
    assert(start <= end) by {
        if end < start {
            assert(identity_before(index@[end as int].identity(), *id) || false);
            assert(identity_before(*id, index@[end as int].identity()));
        }
    }
    (start, end)
}

/// The public routes of a table.
pub uninterp spec fn route_elements(v: heapless::Vec<Route, IFACE_MAX_ROUTE_COUNT>) -> Seq<Route>;

/// The entries of an index.
pub uninterp spec fn index_elements(v: heapless::Vec<IndexedRoute, IFACE_MAX_ROUTE_COUNT>) -> Seq<
    IndexedRoute,
>;

impl Elements<Route> for heapless::Vec<Route, IFACE_MAX_ROUTE_COUNT> {
    open spec fn elements(&self) -> Seq<Route> {
        route_elements(*self)
    }
}

impl Elements<IndexedRoute> for heapless::Vec<IndexedRoute, IFACE_MAX_ROUTE_COUNT> {
    open spec fn elements(&self) -> Seq<IndexedRoute> {
        index_elements(*self)
    }
}

/// A vector of routes: `heapless::Vec::new`. The contract claims that it is
/// empty.
#[verifier::external_body]
fn no_routes() -> (v: heapless::Vec<Route, IFACE_MAX_ROUTE_COUNT>)
    ensures
        route_elements(v) == Seq::<Route>::empty(),
{
    heapless::Vec::new()
}

/// A vector of index entries: `heapless::Vec::new`. The contract claims that it
/// is empty.
#[verifier::external_body]
fn no_entries() -> (v: heapless::Vec<IndexedRoute, IFACE_MAX_ROUTE_COUNT>)
    ensures
        index_elements(v) == Seq::<IndexedRoute>::empty(),
{
    heapless::Vec::new()
}

/// The public routes of some slots.
pub open spec fn routes_of(slots: Seq<Slot>) -> Seq<Route> {
    slots.map_values(|s: Slot| s.route)
}

/// Whether the slot `i` is the only one with the route's identity.
pub open spec fn identity_unique(routes: Seq<Route>, i: int) -> bool {
    forall|j: int|
        0 <= j < routes.len() && j != i ==> (#[trigger] routes[j]).identity()
            != routes[i].identity()
}

/// Whether a table can hold the slots: there are not too many, and each learned
/// one has the form that a learned route has and shares its prefix and router
/// with no other slot.
pub open spec fn valid_slots(slots: Seq<Slot>) -> bool {
    &&& slots.len() <= IFACE_MAX_ROUTE_COUNT
    &&& forall|i: int|
        0 <= i < slots.len() && (#[trigger] slots[i]).learned is Some ==> {
            &&& slots[i].route.identity() is Some
            &&& slots[i].route.preferred_until is None
            &&& forall|j: int|
                0 <= j < slots.len() && j != i ==> (#[trigger] slots[j]).route.identity()
                    != slots[i].route.identity()
        }
}

/// Whether some configured slot has the identity.
pub open spec fn configured_has(slots: Seq<Slot>, id: Identity) -> bool {
    exists|i: int|
        0 <= i < slots.len() && (#[trigger] slots[i]).learned is None && slots[i].route.identity()
            == Some(id)
}

/// Whether some learned slot has the identity.
pub open spec fn learned_has(slots: Seq<Slot>, id: Identity) -> bool {
    exists|i: int|
        0 <= i < slots.len() && (#[trigger] slots[i]).learned is Some && slots[i].route.identity()
            == Some(id)
}

/// Whether the route is, as it stands, one of the learned ones.
pub open spec fn learned_as(slots: Seq<Slot>, route: Route, l: Learned) -> bool {
    exists|i: int|
        0 <= i < slots.len() && (#[trigger] slots[i]).route == route && slots[i].learned == Some(l)
}

/// What the table knows of a learned route with exactly these fields.
pub open spec fn learned_part(slots: Seq<Slot>, route: Route) -> Option<Learned> {
    if exists|l: Learned| learned_as(slots, route, l) {
        Some(choose|l: Learned| learned_as(slots, route, l))
    } else {
        None
    }
}

/// The slots of a table whose public routes the application has replaced: a
/// route is learned if it is, unchanged, one that was learned before, and no
/// other route has its prefix and router.
pub open spec fn rebuilt(slots: Seq<Slot>, routes: Seq<Route>) -> Seq<Slot> {
    Seq::new(
        routes.len(),
        |j: int|
            Slot {
                route: routes[j],
                learned: if identity_unique(routes, j) {
                    learned_part(slots, routes[j])
                } else {
                    None
                },
            },
    )
}

/// The number of configured slots.
pub open spec fn configured_count(slots: Seq<Slot>) -> nat
    decreases slots.len(),
{
    if slots.len() == 0 {
        0
    } else {
        configured_count(slots.drop_last()) + if slots.last().learned is None {
            1nat
        } else {
            0nat
        }
    }
}

/// The candidates that the table takes: the first `room` of those that no
/// configured route stands in for.
pub open spec fn chosen(slots: Seq<Slot>, candidates: Seq<Option<LearnedRoute>>, room: nat) -> Seq<
    LearnedRoute,
>
    decreases candidates.len(),
{
    if candidates.len() == 0 {
        Seq::empty()
    } else {
        let rest = chosen(slots, candidates.drop_last(), room);
        match candidates.last() {
            Some(c) if rest.len() < room && !configured_has(slots, c.identity()) => rest.push(c),
            _ => rest,
        }
    }
}

/// Whether one of the routes has the identity.
pub open spec fn offers(cs: Seq<LearnedRoute>, id: Identity) -> bool {
    exists|k: int| 0 <= k < cs.len() && (#[trigger] cs[k]).identity() == id
}

/// The route with the identity, if there is one.
pub open spec fn offered(cs: Seq<LearnedRoute>, id: Identity) -> Option<LearnedRoute> {
    if offers(cs, id) {
        Some(cs[choose|k: int| 0 <= k < cs.len() && (#[trigger] cs[k]).identity() == id])
    } else {
        None
    }
}

/// What becomes of a slot: a configured one stays as it is, a learned one is
/// brought up to date or, if it is not chosen, dropped.
pub open spec fn refreshed(s: Slot, cs: Seq<LearnedRoute>) -> Option<Slot> {
    if s.learned is None {
        Some(s)
    } else {
        match s.route.identity() {
            Some(id) => match offered(cs, id) {
                Some(c) => Some(c.slot()),
                None => None,
            },
            None => None,
        }
    }
}

/// The slots that stay, in their order.
pub open spec fn kept(slots: Seq<Slot>, cs: Seq<LearnedRoute>) -> Seq<Slot>
    decreases slots.len(),
{
    if slots.len() == 0 {
        Seq::empty()
    } else {
        match refreshed(slots.last(), cs) {
            Some(s) => kept(slots.drop_last(), cs).push(s),
            None => kept(slots.drop_last(), cs),
        }
    }
}

/// The slots of the chosen routes that were not in the table, in their order.
pub open spec fn added(slots: Seq<Slot>, cs: Seq<LearnedRoute>) -> Seq<Slot>
    decreases cs.len(),
{
    if cs.len() == 0 {
        Seq::empty()
    } else if learned_has(slots, cs.last().identity()) {
        added(slots, cs.drop_last())
    } else {
        added(slots, cs.drop_last()).push(cs.last().slot())
    }
}

/// The number of learned routes that a table has room for.
pub open spec fn learned_room(slots: Seq<Slot>) -> nat {
    (IFACE_MAX_ROUTE_COUNT - configured_count(slots)) as nat
}

/// Whether the candidates are the first of `count` that are asked for: all of
/// them, or as many as it takes to use up the room for learned routes.
pub open spec fn asked_while_room(
    slots: Seq<Slot>,
    candidates: Seq<Option<LearnedRoute>>,
    count: nat,
) -> bool {
    let room = learned_room(slots);
    &&& candidates.len() <= count
    &&& candidates.len() < count ==> chosen(slots, candidates, room).len() >= room
    &&& candidates.len() > 0 ==> chosen(slots, candidates.drop_last(), room).len() < room
}

/// The slots of a table that was reconciled with candidates.
pub open spec fn reconciled(slots: Seq<Slot>, candidates: Seq<Option<LearnedRoute>>) -> Seq<Slot> {
    let cs = chosen(slots, candidates, learned_room(slots));
    kept(slots, cs) + added(slots, cs)
}

/// Whether no two candidates have the same identity.
pub open spec fn identities_distinct(cs: Seq<LearnedRoute>) -> bool {
    forall|i: int, j: int|
        0 <= i < j < cs.len() ==> (#[trigger] cs[i]).identity() != (#[trigger] cs[j]).identity()
}

/// The index entry of slot `i`.
pub open spec fn entry_of(s: Slot, i: int) -> IndexedRoute {
    IndexedRoute {
        cidr: (s.route.identity()->0).0,
        via_router: (s.route.identity()->0).1,
        slot: i as u32,
        ownership: match s.learned {
            None => RouteOwnership::Configured,
            Some(l) => RouteOwnership::Learned {
                valid_until: s.route.expires_at,
                preference: l.preference,
                order: l.order,
            },
        },
    }
}

/// Whether the index holds the entries of the slots of IPv6 routes, in order.
pub open spec fn indexes(index: Seq<IndexedRoute>, slots: Seq<Slot>) -> bool {
    &&& sorted(index)
    &&& forall|k: int|
        0 <= k < index.len() ==> {
            let i = (#[trigger] index[k]).slot as int;
            &&& 0 <= i < slots.len()
            &&& slots[i].route.identity() is Some
            &&& index[k] == entry_of(slots[i], i)
        }
    &&& forall|i: int|
        0 <= i < slots.len() && (#[trigger] slots[i]).route.identity() is Some
            ==> slot_indexed(index, i)
}

/// Whether the index has an entry for slot `i`.
pub open spec fn slot_indexed(index: Seq<IndexedRoute>, i: int) -> bool {
    exists|k: int| 0 <= k < index.len() && (#[trigger] index[k]).slot == i
}

/// The owner of the entries of one identity, if there are any. Either all of
/// them are configured or there is a single one, which is learned.
fn find_owner(index: &[IndexedRoute], id: &Identity, Ghost(slots): Ghost<Seq<Slot>>) -> (r: Option<
    IndexedRoute,
>)
    requires
        indexes(index@, slots),
        valid_slots(slots),
    ensures
        match r {
            Some(e) => {
                &&& e.identity() == *id
                &&& 0 <= e.slot < slots.len()
                &&& slots[e.slot as int].route.identity() == Some(*id)
                &&& e == entry_of(slots[e.slot as int], e.slot as int)
                &&& e.ownership is Learned ==> learned_has(slots, *id) && !configured_has(
                    slots,
                    *id,
                )
                &&& e.ownership is Configured ==> configured_has(slots, *id) && !learned_has(
                    slots,
                    *id,
                )
            },
            None => forall|i: int|
                0 <= i < slots.len() ==> (#[trigger] slots[i]).route.identity() != Some(*id),
        },
{
    let range = identity_range(index, id);
    if range.0 == range.1 {
        assert forall|i: int| 0 <= i < slots.len() implies (#[trigger] slots[i]).route.identity()
            != Some(*id) by {
            if slots[i].route.identity() == Some(*id) {
                assert(slot_indexed(index@, i));
                let k = choose|k: int| 0 <= k < index@.len() && (#[trigger] index@[k]).slot == i;
                assert(index@[k].identity() == *id);
            }
        }
        return None;
    }
    let e = index[range.0];
    assert(e.identity() == *id);
    Some(e)
}

/// What the table knows of a learned route with exactly these fields.
fn find_learned(index: &[IndexedRoute], route: &Route, Ghost(slots): Ghost<Seq<Slot>>) -> (r:
    Option<LearnedRoute>)
    requires
        indexes(index@, slots),
        valid_slots(slots),
    ensures
        match learned_part(slots, *route) {
            Some(l) => r matches Some(c) && c.slot() == (Slot { route: *route, learned: Some(l) }),
            None => r is None,
        },
{
    let id = match route.ipv6_identity() {
        Some(id) => id,
        None => {
            return None;
        },
    };
    match find_owner(index, &id, Ghost(slots)) {
        Some(
            IndexedRoute {
                slot,
                ownership: RouteOwnership::Learned { valid_until, preference, order },
                ..
            },
        ) if route.preferred_until.is_none() && route.expires_at == valid_until => {
            proof {
                assert(slots[slot as int].route == *route);
                assert(learned_as(slots, *route, Learned { preference, order }));
            }
            Some(LearnedRoute { cidr: id.0, via_router: id.1, valid_until, preference, order })
        },
        _ => None,
    }
}

/// Whether the two routes have the same identity, or neither has one.
fn same_identity(a: &Route, b: &Route) -> (r: bool)
    ensures
        r == (a.identity() == b.identity()),
{
    match (a.ipv6_identity(), b.ipv6_identity()) {
        (Some(x), Some(y)) => x.0 == y.0 && x.1 == y.1,
        (None, None) => true,
        _ => false,
    }
}

/// Whether the slot `i` is the only one with the route's identity.
fn is_identity_unique(routes: &[Route], i: usize) -> (r: bool)
    requires
        i < routes@.len(),
    ensures
        r == identity_unique(routes@, i as int),
{
    let mut j: usize = 0;
    while j < routes.len()
        invariant
            i < routes@.len(),
            j <= routes@.len(),
            forall|k: int|
                0 <= k < j && k != i ==> (#[trigger] routes@[k]).identity()
                    != routes@[i as int].identity(),
        decreases routes@.len() - j,
    {
        if j != i && same_identity(&routes[j], &routes[i]) {
            return false;
        }
        j = j + 1;
    }
    true
}

/// Whether a slot has a route to exactly this prefix.
pub open spec fn has_route_to(slots: Seq<Slot>, cidr: IpCidr) -> bool {
    exists|i: int| 0 <= i < slots.len() && (#[trigger] slots[i]).route.cidr == cidr
}

/// Whether slot `i` is the first with a route to exactly this prefix.
pub open spec fn is_first_to(slots: Seq<Slot>, cidr: IpCidr, i: int) -> bool {
    &&& 0 <= i < slots.len()
    &&& slots[i].route.cidr == cidr
    &&& forall|j: int| 0 <= j < i ==> (#[trigger] slots[j]).route.cidr != cidr
}

/// The first route to exactly this prefix.
pub open spec fn first_route_to(slots: Seq<Slot>, cidr: IpCidr) -> Option<Route> {
    if has_route_to(slots, cidr) {
        Some(slots[choose|i: int| is_first_to(slots, cidr, i)].route)
    } else {
        None
    }
}

/// The slots after the first route to exactly this prefix has left.
pub open spec fn without_route_to(slots: Seq<Slot>, cidr: IpCidr) -> Seq<Slot> {
    if has_route_to(slots, cidr) {
        rebuilt(slots, routes_of(slots).remove(choose|i: int| is_first_to(slots, cidr, i)))
    } else {
        slots
    }
}

/// The slots after a route was appended by the application.
pub open spec fn with_route(slots: Seq<Slot>, route: Route) -> Seq<Slot> {
    rebuilt(slots, routes_of(slots).push(route))
}

/// Whether route `i` is the one to take to `addr`: of the routes that lead
/// there it is the last of the most specific ones.
pub open spec fn is_best_route(routes: Seq<Route>, addr: IpAddress, now: Instant, i: int) -> bool {
    &&& 0 <= i < routes.len()
    &&& routes[i].leads_to(addr, now)
    &&& forall|j: int|
        0 <= j < routes.len() && (#[trigger] routes[j]).leads_to(addr, now) ==> {
            ||| routes[j].cidr.len_of_prefix() < routes[i].cidr.len_of_prefix()
            ||| routes[j].cidr.len_of_prefix() == routes[i].cidr.len_of_prefix() && j <= i
        }
}

/// One slot fewer is left where there is a route to the prefix.
proof fn lemma_without_route_len(slots: Seq<Slot>, cidr: IpCidr)
    requires
        valid_slots(slots),
    ensures
        has_route_to(slots, cidr) ==> without_route_to(slots, cidr).len() == slots.len() - 1,
        !has_route_to(slots, cidr) ==> without_route_to(slots, cidr) == slots,
{
    if has_route_to(slots, cidr) {
        lemma_first_to(slots, cidr);
    }
}

/// Where some route leads to exactly this prefix, one is the first.
proof fn lemma_first_to(slots: Seq<Slot>, cidr: IpCidr)
    requires
        has_route_to(slots, cidr),
    ensures
        is_first_to(slots, cidr, choose|i: int| is_first_to(slots, cidr, i)),
    decreases slots.len(),
{
    let i = choose|i: int| 0 <= i < slots.len() && (#[trigger] slots[i]).route.cidr == cidr;
    let some = slots.take(i);
    if has_route_to(some, cidr) {
        lemma_first_to(some, cidr);
        let j = choose|j: int| is_first_to(some, cidr, j);
        assert(is_first_to(slots, cidr, j)) by {
            assert forall|k: int| 0 <= k < j implies (#[trigger] slots[k]).route.cidr != cidr by {
                assert(some[k] == slots[k]);
            }
        }
    } else {
        assert(is_first_to(slots, cidr, i)) by {
            assert forall|k: int| 0 <= k < i implies (#[trigger] slots[k]).route.cidr != cidr by {
                assert(some[k] == slots[k]);
            }
        }
    }
}

/// The position of the first default route of IPv6 or of IPv4.
fn first_default(routes: &[Route], ipv6: bool, Ghost(slots): Ghost<Seq<Slot>>) -> (r: Option<usize>)
    requires
        routes@ == routes_of(slots),
    ensures
        ({
            let cidr = if ipv6 {
                Route::ipv6_default()
            } else {
                Route::ipv4_default()
            };
            match r {
                Some(i) => {
                    &&& has_route_to(slots, cidr)
                    &&& i == (choose|i: int| is_first_to(slots, cidr, i))
                    &&& i < slots.len()
                },
                None => !has_route_to(slots, cidr),
            }
        }),
{
    let ghost cidr = if ipv6 {
        Route::ipv6_default()
    } else {
        Route::ipv4_default()
    };
    let mut i: usize = 0;
    while i < routes.len()
        invariant
            i <= routes@.len(),
            routes@ == routes_of(slots),
            cidr == if ipv6 {
                Route::ipv6_default()
            } else {
                Route::ipv4_default()
            },
            forall|k: int| 0 <= k < i ==> (#[trigger] slots[k]).route.cidr != cidr,
        decreases routes@.len() - i,
    {
        let found = if ipv6 {
            routes[i].is_ipv6_gateway()
        } else {
            routes[i].is_ipv4_gateway()
        };
        if found {
            proof {
                assert(slots[i as int].route.cidr == cidr);
                lemma_first_to(slots, cidr);
                let j = choose|j: int| is_first_to(slots, cidr, j);
                assert(slots[j].route.cidr == cidr);
            }
            return Some(i);
        }
        i = i + 1;
    }
    None
}

/// The position of the route with the identity.
fn position_of(cs: &Vec<LearnedRoute>, id: &Identity) -> (r: Option<usize>)
    ensures
        match r {
            Some(k) => k < cs@.len() && cs@[k as int].identity() == *id,
            None => !offers(cs@, *id),
        },
{
    let mut k: usize = 0;
    while k < cs.len()
        invariant
            k <= cs@.len(),
            forall|m: int| 0 <= m < k ==> (#[trigger] cs@[m]).identity() != *id,
        decreases cs@.len() - k,
    {
        if cs[k].cidr == id.0 && cs[k].via_router == id.1 {
            return Some(k);
        }
        k = k + 1;
    }
    None
}

/// A routing table.
pub struct Routes {
    storage: heapless::Vec<Route, IFACE_MAX_ROUTE_COUNT>,
    index: heapless::Vec<IndexedRoute, IFACE_MAX_ROUTE_COUNT>,
    slots: Ghost<Seq<Slot>>,
}

impl View for Routes {
    type V = Seq<Slot>;

    closed spec fn view(&self) -> Seq<Slot> {
        self.slots@
    }
}

impl Routes {
    /// Whether the index fits the routes.
    pub closed spec fn wf(&self) -> bool {
        &&& self.storage.elements() == routes_of(self@)
        &&& indexes(self.index.elements(), self@)
        &&& valid_slots(self@)
    }

    /// A table never holds more routes than it has room for, and the prefix and
    /// router of a learned route are those of no other route.
    pub proof fn law_slots_are_valid(&self)
        requires
            self.wf(),
        ensures
            valid_slots(self@),
    {
    }

    /// A slot is learned if its route is one that was learned.
    pub(crate) proof fn lemma_learned_at(&self, i: int)
        requires
            self.wf(),
            0 <= i < self@.len(),
        ensures
            learned_part(self@, self@[i].route) == self@[i].learned,
    {
        lemma_learned_slot(self@, i);
    }

    /// Creates an empty routing table.
    pub fn new() -> (r: Routes)
        ensures
            r.wf(),
            r@ == Seq::<Slot>::empty(),
    {
        let r = Routes { storage: no_routes(), index: no_entries(), slots: Ghost(Seq::empty()) };
        assert(routes_of(r@) =~= Seq::<Route>::empty());
        r
    }

    /// The public routes.
    pub fn iter(&self) -> (r: &[Route])
        requires
            self.wf(),
        ensures
            r@ == routes_of(self@),
    {
        as_slice(&self.storage)
    }

    /// What the table knows of a learned route with exactly these fields.
    pub fn learned(&self, route: &Route) -> (r: Option<LearnedRoute>)
        requires
            self.wf(),
        ensures
            match learned_part(self@, *route) {
                Some(l) => r matches Some(c) && c.slot() == (Slot {
                    route: *route,
                    learned: Some(l),
                }),
                None => r is None,
            },
    {
        find_learned(as_slice(&self.index), route, Ghost(self@))
    }

    /// Appends a slot.
    fn append(&mut self, route: Route, learned: Option<Learned>)
        requires
            old(self).wf(),
            valid_slots(old(self)@.push(Slot { route, learned })),
        ensures
            final(self).wf(),
            final(self)@ == old(self)@.push(Slot { route, learned }),
    {
        let ghost before = self@;
        let ghost after = self@.push(Slot { route, learned });
        let slot: usize = as_slice(&self.storage).len();
        match route.ipv6_identity() {
            Some(id) => {
                let at: usize = partition_point(as_slice(&self.index), &id, true);
                let entry = IndexedRoute {
                    cidr: id.0,
                    via_router: id.1,
                    slot: slot as u32,
                    ownership: match learned {
                        None => RouteOwnership::Configured,
                        Some(l) => RouteOwnership::Learned {
                            valid_until: route.expires_at,
                            preference: l.preference,
                            order: l.order,
                        },
                    },
                };
                let ghost index = self.index.elements();
                proof {
                    lemma_index_len(index, before);
                }
                let _ = insert(&mut self.index, at, entry);
                proof {
                    lemma_insert(index, before, Slot { route, learned }, at as int);
                }
            },
            None => {
                assert(indexes(self.index.elements(), after)) by {
                    assert forall|i: int|
                        0 <= i < after.len() && (
                        #[trigger] after[i]).route.identity() is Some implies slot_indexed(
                        self.index.elements(),
                        i,
                    ) by {
                        assert(before[i] == after[i]);
                    }
                }
            },
        }
        let _ = push(&mut self.storage, route);
        self.slots = Ghost(after);
        assert(self.storage.elements() =~= routes_of(after));
    }

    /// Builds the index anew after the public routes have changed.
    fn rebuild_route_index(&mut self)
        requires
            indexes(old(self).index.elements(), old(self)@),
            valid_slots(old(self)@),
        ensures
            final(self).wf(),
            final(self)@ == rebuilt(old(self)@, old(self).storage.elements()),
    {
        let ghost slots = self@;
        let storage = as_slice(&self.storage);
        let index = as_slice(&self.index);
        let ghost target = rebuilt(slots, storage@);
        proof {
            lemma_rebuilt_valid(slots, storage@);
        }
        let mut next = Routes::new();
        let mut j: usize = 0;
        assert(target.take(0) =~= next@);
        while j < storage.len()
            invariant
                j <= storage@.len(),
                indexes(index@, slots),
                valid_slots(slots),
                target == rebuilt(slots, storage@),
                valid_slots(target),
                next.wf(),
                next@ == target.take(j as int),
            decreases storage@.len() - j,
        {
            let learned = if is_identity_unique(storage, j) {
                match find_learned(index, &storage[j], Ghost(slots)) {
                    Some(c) => Some(Learned { preference: c.preference, order: c.order }),
                    None => None,
                }
            } else {
                None
            };
            proof {
                assert(next@.push(Slot { route: storage@[j as int], learned })
                    =~= target.take(j + 1));
                lemma_prefix_valid(target, j + 1);
            }
            next.append(storage[j], learned);
            j = j + 1;
        }
        assert(target.take(j as int) =~= target);
        *self = next;
    }

    /// Lets the application edit the public routes.
    pub fn update<F: FnOnce(&mut heapless::Vec<Route, IFACE_MAX_ROUTE_COUNT>)>(&mut self, f: F)
        requires
            old(self).wf(),
            forall|v: &mut heapless::Vec<Route, IFACE_MAX_ROUTE_COUNT>|
                (*v).elements() == routes_of(old(self)@) ==> #[trigger] call_requires(f, (v,)),
        ensures
            final(self).wf(),
            exists|v: &mut heapless::Vec<Route, IFACE_MAX_ROUTE_COUNT>|
                (*v).elements() == routes_of(old(self)@) && #[trigger] call_ensures(f, (v,), ())
                    && final(self)@ == rebuilt(old(self)@, (*final(v)).elements()),
    {
        f(&mut self.storage);
        self.rebuild_route_index();
    }

    /// Reconciles the learned routes of the table with the candidates
    /// `candidate_at(0)`, `candidate_at(1)` and so on, which come from the most
    /// to the least useful and have distinct identities. No further candidate is
    /// asked for once there is no more room, and none if there is none at all.
    pub fn reconcile_learned<F: Fn(usize) -> Option<LearnedRoute>>(
        &mut self,
        candidate_count: usize,
        candidate_at: F,
    )
        requires
            old(self).wf(),
            learned_room(old(self)@) > 0 ==> forall|i: usize|
                i < candidate_count ==> #[trigger] call_requires(candidate_at, (i,)),
            forall|i: usize, j: usize, a: LearnedRoute, b: LearnedRoute|
                i < j < candidate_count && #[trigger] call_ensures(candidate_at, (i,), Some(a))
                    && #[trigger] call_ensures(candidate_at, (j,), Some(b)) ==> a.identity()
                    != b.identity(),
        ensures
            final(self).wf(),
            exists|candidates: Seq<Option<LearnedRoute>>|
                asked_while_room(old(self)@, candidates, candidate_count as nat)
                    && (forall|i: usize|
                    i < candidates.len() ==> #[trigger] call_ensures(
                        candidate_at,
                        (i,),
                        candidates[i as int],
                    )) && final(self)@ == #[trigger] reconciled(old(self)@, candidates),
    {
        let ghost slots = self@;
        let storage = as_slice(&self.storage);
        let index = as_slice(&self.index);

        let mut configured: usize = 0;
        let mut j: usize = 0;
        assert(slots.take(0) =~= Seq::<Slot>::empty());
        while j < storage.len()
            invariant
                j <= storage@.len(),
                storage@ == routes_of(slots),
                indexes(index@, slots),
                valid_slots(slots),
                configured == configured_count(slots.take(j as int)),
                configured <= j,
            decreases storage@.len() - j,
        {
            assert(slots.take(j + 1).drop_last() =~= slots.take(j as int));
            proof {
                lemma_learned_slot(slots, j as int);
            }
            if find_learned(index, &storage[j], Ghost(slots)).is_none() {
                configured = configured + 1;
            }
            j = j + 1;
        }
        assert(slots.take(j as int) =~= slots);
        let room: usize = IFACE_MAX_ROUTE_COUNT - configured;

        let ghost mut candidates: Seq<Option<LearnedRoute>> = Seq::empty();
        let mut cs: Vec<LearnedRoute> = Vec::new();
        let mut i: usize = 0;
        while i < candidate_count && cs.len() < room
            invariant
                i <= candidate_count,
                candidates.len() == i,
                i > 0 ==> chosen(slots, candidates.drop_last(), room as nat).len() < room,
                indexes(index@, slots),
                valid_slots(slots),
                room == learned_room(slots),
                cs@ == chosen(slots, candidates, room as nat),
                cs@.len() <= room,
                room > 0 ==> forall|i: usize|
                    i < candidate_count ==> #[trigger] call_requires(candidate_at, (i,)),
                forall|k: usize|
                    k < i ==> #[trigger] call_ensures(candidate_at, (k,), candidates[k as int]),
            decreases candidate_count - i,
        {
            let c = candidate_at(i);
            let ghost before = candidates;
            proof {
                candidates = candidates.push(c);
                assert(candidates.drop_last() =~= before);
            }
            if let Some(route) = c {
                let id: Identity = (route.cidr, route.via_router);
                match find_owner(index, &id, Ghost(slots)) {
                    Some(IndexedRoute { ownership: RouteOwnership::Configured, .. }) => {},
                    _ => {
                        cs.push(route);
                    },
                }
            }
            i = i + 1;
        }
        proof {
            assert(candidates_distinct(candidates)) by {
                assert forall|a: int, b: int|
                    0 <= a < b < candidates.len() && candidates[a] is Some && candidates[b] is Some implies (
                #[trigger] candidates[a])->0.identity() != (
                #[trigger] candidates[b])->0.identity() by {
                    let x = candidates[a]->0;
                    let y = candidates[b]->0;
                    assert(call_ensures(candidate_at, (a as usize,), Some(x)));
                    assert(call_ensures(candidate_at, (b as usize,), Some(y)));
                }
            }
            lemma_chosen(slots, candidates, room as nat);
        }

        let mut next = Routes::new();
        let mut j: usize = 0;
        proof {
            assert(kept(slots.take(0), cs@) =~= Seq::<Slot>::empty());
        }
        while j < storage.len()
            invariant
                j <= storage@.len(),
                storage@ == routes_of(slots),
                indexes(index@, slots),
                valid_slots(slots),
                can_join(slots, cs@),
                next.wf(),
                next@ == kept(slots.take(j as int), cs@),
            decreases storage@.len() - j,
        {
            proof {
                assert(slots.take(j + 1).drop_last() =~= slots.take(j as int));
                lemma_learned_slot(slots, j as int);
                lemma_joined_valid(slots, cs@, j + 1, 0);
                assert(added(slots, cs@.take(0)) =~= Seq::<Slot>::empty());
                assert(kept(slots.take(j + 1), cs@) + added(slots, cs@.take(0)) =~= kept(
                    slots.take(j + 1),
                    cs@,
                ));
            }
            let route = storage[j];
            match find_learned(index, &route, Ghost(slots)) {
                None => {
                    next.append(route, None);
                },
                Some(l) => {
                    let id: Identity = (l.cidr, l.via_router);
                    assert(Some(id) == slots[j as int].route.identity());
                    if let Some(k) = position_of(&cs, &id) {
                        let c = cs[k];
                        assert(offered(cs@, id) == Some(c));
                        next.append(
                            c.as_interface_route(),
                            Some(Learned { preference: c.preference, order: c.order }),
                        );
                    }
                },
            }
            j = j + 1;
        }
        assert(slots.take(j as int) =~= slots);
        let mut k: usize = 0;
        proof {
            assert(added(slots, cs@.take(0)) =~= Seq::<Slot>::empty());
            assert(next@ =~= kept(slots, cs@) + added(slots, cs@.take(0)));
        }
        while k < cs.len()
            invariant
                k <= cs@.len(),
                indexes(index@, slots),
                valid_slots(slots),
                can_join(slots, cs@),
                next.wf(),
                next@ == kept(slots, cs@) + added(slots, cs@.take(k as int)),
            decreases cs@.len() - k,
        {
            let c = cs[k];
            let id: Identity = (c.cidr, c.via_router);
            proof {
                assert(cs@.take(k + 1).drop_last() =~= cs@.take(k as int));
                assert(slots.take(slots.len() as int) =~= slots);
                lemma_joined_valid(slots, cs@, slots.len() as int, k + 1);
            }
            let owner = find_owner(index, &id, Ghost(slots));
            if owner.is_none() {
                proof {
                    assert(next@.push(c.slot()) =~= kept(slots, cs@) + added(
                        slots,
                        cs@.take(k + 1),
                    ));
                }
                next.append(
                    c.as_interface_route(),
                    Some(Learned { preference: c.preference, order: c.order }),
                );
            } else {
                assert(!configured_has(slots, cs@[k as int].identity()));
            }
            k = k + 1;
        }
        assert(cs@.take(k as int) =~= cs@);
        *self = next;
        proof {
            assert(self@ == reconciled(slots, candidates));
        }
    }

    /// Adds a default route of IPv4 in place of the one that the table holds,
    /// if any, which is returned.
    pub fn add_default_ipv4_route(&mut self, gateway: Ipv4Address) -> (r: Result<
        Option<Route>,
        RouteTableFull,
    >)
        requires
            old(self).wf(),
        ensures
            final(self).wf(),
            match r {
                Ok(previous) => {
                    &&& previous == first_route_to(old(self)@, Route::ipv4_default())
                    &&& final(self)@ == with_route(
                        without_route_to(old(self)@, Route::ipv4_default()),
                        Route {
                            cidr: Route::ipv4_default(),
                            via_router: IpAddress::Ipv4(gateway),
                            preferred_until: None,
                            expires_at: None,
                        },
                    )
                },
                Err(RouteTableFull) => final(self)@ == old(self)@,
            },
            r is Err <==> old(self)@.len() == IFACE_MAX_ROUTE_COUNT && !has_route_to(
                old(self)@,
                Route::ipv4_default(),
            ),
    {
        let previous = self.remove_default_ipv4_route();
        proof {
            lemma_without_route_len(old(self)@, Route::ipv4_default());
        }
        match push(&mut self.storage, Route::new_ipv4_gateway(gateway)) {
            Ok(_) => {
                self.rebuild_route_index();
                Ok(previous)
            },
            Err(_) => Err(RouteTableFull),
        }
    }

    /// Adds a default route of IPv6 in place of the one that the table holds,
    /// if any, which is returned.
    pub fn add_default_ipv6_route(&mut self, gateway: Ipv6Address) -> (r: Result<
        Option<Route>,
        RouteTableFull,
    >)
        requires
            old(self).wf(),
        ensures
            final(self).wf(),
            match r {
                Ok(previous) => {
                    &&& previous == first_route_to(old(self)@, Route::ipv6_default())
                    &&& final(self)@ == with_route(
                        without_route_to(old(self)@, Route::ipv6_default()),
                        Route {
                            cidr: Route::ipv6_default(),
                            via_router: IpAddress::Ipv6(gateway),
                            preferred_until: None,
                            expires_at: None,
                        },
                    )
                },
                Err(RouteTableFull) => final(self)@ == old(self)@,
            },
            r is Err <==> old(self)@.len() == IFACE_MAX_ROUTE_COUNT && !has_route_to(
                old(self)@,
                Route::ipv6_default(),
            ),
    {
        let previous = self.remove_default_ipv6_route();
        proof {
            lemma_without_route_len(old(self)@, Route::ipv6_default());
        }
        match push(&mut self.storage, Route::new_ipv6_gateway(gateway)) {
            Ok(_) => {
                self.rebuild_route_index();
                Ok(previous)
            },
            Err(_) => Err(RouteTableFull),
        }
    }

    /// The first default route of IPv4.
    pub fn get_default_ipv4_route(&self) -> (r: Option<Route>)
        requires
            self.wf(),
        ensures
            r == first_route_to(self@, Route::ipv4_default()),
            r matches Some(route) ==> exists|i: int|
                is_first_to(self@, Route::ipv4_default(), i) && route == (
                #[trigger] self@[i]).route,
    {
        let storage = as_slice(&self.storage);
        match first_default(storage, false, Ghost(self@)) {
            Some(i) => Some(storage[i]),
            None => None,
        }
    }

    /// The first default route of IPv6.
    pub fn get_default_ipv6_route(&self) -> (r: Option<Route>)
        requires
            self.wf(),
        ensures
            r == first_route_to(self@, Route::ipv6_default()),
            r matches Some(route) ==> exists|i: int|
                is_first_to(self@, Route::ipv6_default(), i) && route == (
                #[trigger] self@[i]).route,
    {
        let storage = as_slice(&self.storage);
        match first_default(storage, true, Ghost(self@)) {
            Some(i) => Some(storage[i]),
            None => None,
        }
    }

    /// Removes the first default route of IPv4 and returns it.
    pub fn remove_default_ipv4_route(&mut self) -> (r: Option<Route>)
        requires
            old(self).wf(),
        ensures
            final(self).wf(),
            r == first_route_to(old(self)@, Route::ipv4_default()),
            final(self)@ == without_route_to(old(self)@, Route::ipv4_default()),
    {
        match first_default(as_slice(&self.storage), false, Ghost(self@)) {
            Some(i) => {
                let removed = remove(&mut self.storage, i);
                self.rebuild_route_index();
                Some(removed)
            },
            None => None,
        }
    }

    /// Removes the first default route of IPv6 and returns it.
    pub fn remove_default_ipv6_route(&mut self) -> (r: Option<Route>)
        requires
            old(self).wf(),
        ensures
            final(self).wf(),
            r == first_route_to(old(self)@, Route::ipv6_default()),
            final(self)@ == without_route_to(old(self)@, Route::ipv6_default()),
    {
        match first_default(as_slice(&self.storage), true, Ghost(self@)) {
            Some(i) => {
                let removed = remove(&mut self.storage, i);
                self.rebuild_route_index();
                Some(removed)
            },
            None => None,
        }
    }

    /// The router via which `addr` is reached: that of the most specific route
    /// that leads there and has not expired, and of the last such route if
    /// there are several.
    pub fn lookup(&self, addr: &IpAddress, timestamp: Instant) -> (r: Option<IpAddress>)
        requires
            self.wf(),
            addr.unicast(),
        ensures
            match r {
                Some(router) => exists|i: int|
                    is_best_route(routes_of(self@), *addr, timestamp, i) && router
                        == #[trigger] routes_of(self@)[i].via_router,
                None => forall|i: int|
                    0 <= i < self@.len() ==> !(#[trigger] self@[i]).route.leads_to(
                        *addr,
                        timestamp,
                    ),
            },
    {
        let storage = as_slice(&self.storage);
        let ghost routes = routes_of(self@);
        let mut best: Option<usize> = None;
        let mut i: usize = 0;
        while i < storage.len()
            invariant
                i <= storage@.len(),
                storage@ == routes,
                match best {
                    Some(b) => b < i && is_best_route(
                        routes.take(i as int),
                        *addr,
                        timestamp,
                        b as int,
                    ),
                    None => forall|k: int|
                        0 <= k < i ==> !(#[trigger] routes[k]).leads_to(*addr, timestamp),
                },
            decreases storage@.len() - i,
        {
            let route = storage[i];
            let expired = match route.expires_at {
                Some(t) => timestamp.micros > t.micros,
                None => false,
            };
            let ghost next = routes.take(i + 1);
            let ghost now = routes.take(i as int);
            assert(next[i as int] == route);
            assert(forall|k: int| 0 <= k < i ==> now[k] == #[trigger] next[k]);
            if !expired && route.cidr.contains_addr(addr) {
                match best {
                    Some(b) if storage[b].cidr.prefix_len() > route.cidr.prefix_len() => {
                        assert(is_best_route(next, *addr, timestamp, b as int));
                    },
                    _ => {
                        best = Some(i);
                        assert(is_best_route(next, *addr, timestamp, i as int));
                    },
                }
            } else if let Some(b) = best {
                assert(is_best_route(next, *addr, timestamp, b as int));
            }
            i = i + 1;
        }
        assert(routes.take(i as int) =~= routes);
        match best {
            Some(b) => Some(storage[b].via_router),
            None => {
                assert forall|k: int| 0 <= k < self@.len() implies !(
                #[trigger] self@[k]).route.leads_to(*addr, timestamp) by {
                    assert(routes[k] == self@[k].route);
                }
                None
            },
        }
    }
}

/// No slot has two entries, so there are no more entries than slots.
proof fn lemma_index_len(index: Seq<IndexedRoute>, slots: Seq<Slot>)
    requires
        indexes(index, slots),
    ensures
        index.len() <= slots.len(),
{
    let places = index.map_values(|e: IndexedRoute| e.slot as int);
    assert(places.no_duplicates()) by {
        assert forall|a: int, b: int| 0 <= a < b < places.len() implies places[a] != places[b] by {
            let _ = index[a].identity();
            let _ = index[b].identity();
        }
    }
    places.unique_seq_to_set();
    let range = vstd::set_lib::set_int_range(0, slots.len() as int);
    vstd::set_lib::lemma_int_range(0, slots.len() as int);
    assert(places.to_set().subset_of(range)) by {
        assert forall|x: int| places.to_set().contains(x) implies range.contains(x) by {
            let k = choose|k: int| 0 <= k < places.len() && places[k] == x;
            assert(places[k] == index[k].slot as int);
        }
    }
    vstd::set_lib::lemma_len_subset(places.to_set(), range);
}

/// Inserting the entry of an appended slot behind the entries of its identity
/// keeps the index in order.
proof fn lemma_insert(index: Seq<IndexedRoute>, slots: Seq<Slot>, s: Slot, at: int)
    requires
        indexes(index, slots),
        slots.len() < IFACE_MAX_ROUTE_COUNT,
        s.route.identity() is Some,
        0 <= at <= index.len(),
        forall|k: int|
            0 <= k < at ==> (identity_before(
                #[trigger] index[k].identity(),
                s.route.identity()->0,
            ) || index[k].identity() == s.route.identity()->0),
        forall|k: int|
            at <= k < index.len() ==> identity_before(
                s.route.identity()->0,
                #[trigger] index[k].identity(),
            ),
    ensures
        indexes(index.insert(at, entry_of(s, slots.len() as int)), slots.push(s)),
{
    let n = slots.len() as int;
    let e = entry_of(s, n);
    let after = index.insert(at, e);
    let all = slots.push(s);
    assert forall|a: int, b: int| 0 <= a < b < after.len() implies {
        ||| identity_before(#[trigger] after[a].identity(), #[trigger] after[b].identity())
        ||| after[a].identity() == after[b].identity() && after[a].slot < after[b].slot
    } by {
        let x = if a < at { a } else { a - 1 };
        let y = if b < at { b } else { b - 1 };
        if a != at {
            assert(after[a] == index[x]);
            let _ = index[x].identity();
        }
        if b != at {
            assert(after[b] == index[y]);
            let _ = index[y].identity();
        }
    }
    assert forall|k: int| 0 <= k < after.len() implies {
        let i = (#[trigger] after[k]).slot as int;
        &&& 0 <= i < all.len()
        &&& all[i].route.identity() is Some
        &&& after[k] == entry_of(all[i], i)
    } by {
        if k != at {
            let x = if k < at { k } else { k - 1 };
            assert(after[k] == index[x]);
        }
    }
    assert forall|i: int|
        0 <= i < all.len() && (#[trigger] all[i]).route.identity() is Some implies slot_indexed(
        after,
        i,
    ) by {
        if i == n {
            assert(after[at].slot == n);
        } else {
            assert(all[i] == slots[i]);
            assert(slot_indexed(index, i));
            let k = choose|k: int| 0 <= k < index.len() && (#[trigger] index[k]).slot == i;
            let x = if k < at { k } else { k + 1 };
            assert(after[x] == index[k]);
        }
    }
}

} // verus!
