//! Stateless address autoconfiguration.
//!
//! The state collects the prefixes and the routes of all router advertisements
//! and decides when to solicit them.

use core::cmp::Ordering;
use vstd::prelude::*;
use crate::collections::{
    as_mut_slice, as_slice, has_key, insert, keys_distinct, lemma_push_key, lemma_with_value,
    lemma_without_key, map_entries, map_get_mut, map_insert, map_remove, remove, retain, with_value,
    without_key, Elements, Entries, Key,
};
use crate::config::{IFACE_MAX_PREFIX_COUNT, IFACE_MAX_ROUTE_COUNT};
use crate::iface::properties::{
    law_advertisement_ends_discovery, law_advertisement_keeps_other_routers,
    law_advertisement_leaves_no_expired_route, law_drawn_order_is_the_newest, none_expired,
    others_held,
};
use crate::iface::route::{comes_before, identity_before, Identity, LearnedRoute};
use crate::sequences::{in_order, lemma_filter_all, lemma_filter_positions, sort_by};
use crate::time::{Duration, Instant};
use crate::wire::ip::{Ipv6Address, Ipv6Cidr};
use crate::wire::ndiscoption::{
    all_valid, NdiscPrefixInformation, NdiscRouteInformation, NdiscRouteInformationList,
    NdiscRoutePreference,
};

verus! {

/// The number of solicitations that are sent before giving up.
pub const MAX_RTR_SOLICITATIONS: u8 = 3;

/// The number of learned routes that are retained. They share the bound of the
/// routing table.
pub const SLAAC_ROUTE_CANDIDATE_COUNT: usize = IFACE_MAX_ROUTE_COUNT;

/// The order of a route that was withdrawn and is about to be removed.
pub const WITHDRAWN: u32 = 0xffff_ffff;

/// The time between two solicitations.
pub fn rtr_solicitation_interval() -> (r: Duration)
    ensures
        r.micros == 4_000_000,
{
    Duration::from_secs(4)
}

/// The phases of router solicitation.
#[derive(Debug, Clone, Copy, PartialEq, Eq, Structural)]
pub enum Phase {
    Start,
    Discovering,
    Maintaining,
    Stopped,
}

/// A route received in router advertisements.
#[derive(Debug, Clone, Copy, PartialEq, Eq, Structural)]
pub struct Route {
    /// The prefix to route.
    pub cidr: Ipv6Cidr,
    /// The router that advertised the route.
    pub via_router: Ipv6Address,
    /// When the route expires. `None` means never.
    pub valid_until: Option<Instant>,
    /// The advertised preference.
    pub preference: NdiscRoutePreference,
    /// The place of the route in the order of arrival.
    pub order: u32,
}

impl Route {
    /// The prefix and the router.
    pub open spec fn identity(self) -> Identity {
        (self.cidr, self.via_router)
    }

    /// Whether the route has not expired.
    pub open spec fn valid_at(self, now: Instant) -> bool {
        self.valid_until matches Some(t) ==> t.micros > now.micros
    }

    /// Whether the route was withdrawn.
    pub open spec fn withdrawn(self) -> bool {
        self.order == WITHDRAWN
    }

    /// Whether the route serves less well than another: its prefix is shorter;
    /// or, that being equal, its preference is weaker; or, that being equal
    /// too, it arrived later.
    pub open spec fn less_useful(self, other: Route) -> bool {
        ||| self.cidr.prefix_len < other.cidr.prefix_len
        ||| self.cidr.prefix_len == other.cidr.prefix_len && self.preference.rank_of()
            < other.preference.rank_of()
        ||| self.cidr.prefix_len == other.cidr.prefix_len && self.preference.rank_of()
            == other.preference.rank_of() && self.order > other.order
    }

    /// Whether the route has the prefix and the router.
    pub fn same_route(&self, cidr: &Ipv6Cidr, via_router: &Ipv6Address) -> (r: bool)
        ensures
            r == (self.identity() == (*cidr, *via_router)),
    {
        self.cidr == *cidr && self.via_router == *via_router
    }

    /// Whether the route has not expired.
    pub fn is_valid(&self, now: Instant) -> (r: bool)
        ensures
            r == self.valid_at(now),
    {
        match self.valid_until {
            Some(t) => t.micros > now.micros,
            None => true,
        }
    }

    /// How the routes compare by prefix and router.
    pub fn identity_cmp(&self, other: &Route) -> (r: Ordering)
        ensures
            match r {
                Ordering::Less => identity_before(self.identity(), other.identity()),
                Ordering::Equal => self.identity() == other.identity(),
                Ordering::Greater => identity_before(other.identity(), self.identity()),
            },
    {
        let a: Identity = (self.cidr, self.via_router);
        let b: Identity = (other.cidr, other.via_router);
        if comes_before(&a, &b) {
            Ordering::Less
        } else if comes_before(&b, &a) {
            Ordering::Greater
        } else {
            Ordering::Equal
        }
    }

    /// Whether the route was withdrawn.
    fn is_withdrawn(&self) -> (r: bool)
        ensures
            r == self.withdrawn(),
    {
        self.order == WITHDRAWN
    }

    /// Whether the route serves less well than another.
    fn is_less_useful(&self, other: &Route) -> (r: bool)
        ensures
            r == self.less_useful(*other),
    {
        if self.cidr.prefix_len != other.cidr.prefix_len {
            self.cidr.prefix_len < other.cidr.prefix_len
        } else if self.preference.rank() != other.preference.rank() {
            self.preference.rank() < other.preference.rank()
        } else {
            self.order > other.order
        }
    }
}

/// Until when the addresses of a prefix may be used.
#[derive(Debug, Clone, Copy, PartialEq, Eq, Structural)]
pub struct PrefixInfo {
    pub preferred_until: Instant,
    pub valid_until: Instant,
}

impl PrefixInfo {
    /// What an option that arrives at `now` says of a prefix.
    pub open spec fn of_prefix(prefix: NdiscPrefixInformation, now: Instant) -> PrefixInfo {
        PrefixInfo {
            preferred_until: now.after(prefix.preferred_lifetime),
            valid_until: now.after(prefix.valid_lifetime),
        }
    }

    /// What an option that arrives at `now` says of a prefix.
    pub fn from_prefix(prefix: &NdiscPrefixInformation, now: Instant) -> (r: PrefixInfo)
        requires
            now.can_add(prefix.preferred_lifetime),
            now.can_add(prefix.valid_lifetime),
        ensures
            r == PrefixInfo::of_prefix(*prefix, now),
    {
        PrefixInfo {
            preferred_until: now + prefix.preferred_lifetime,
            valid_until: now + prefix.valid_lifetime,
        }
    }

    /// Whether the prefix is still valid.
    pub open spec fn valid_at(self, now: Instant) -> bool {
        self.valid_until.micros > now.micros
    }

    /// Whether the prefix is still valid.
    pub fn is_valid(&self, now: Instant) -> (r: bool)
        ensures
            r == self.valid_at(now),
    {
        self.valid_until.micros > now.micros
    }
}

/// The key under which a prefix is stored.
pub open spec fn key_of(cidr: Ipv6Cidr) -> Key {
    (cidr.prefix_len, cidr.address.bits)
}

/// The key under which a prefix is stored.
fn prefix_key(cidr: &Ipv6Cidr) -> (r: Key)
    ensures
        r == key_of(*cidr),
{
    (cidr.prefix_len, cidr.address.bits)
}

/// The routes that a state retains.
pub uninterp spec fn learned_elements(v: heapless::Vec<Route, SLAAC_ROUTE_CANDIDATE_COUNT>) -> Seq<
    Route,
>;

/// The prefixes that a state retains.
pub uninterp spec fn prefix_entries(
    m: heapless::LinearMap<Key, PrefixInfo, IFACE_MAX_PREFIX_COUNT>,
) -> Seq<(Key, PrefixInfo)>;

impl Elements<Route> for heapless::Vec<Route, SLAAC_ROUTE_CANDIDATE_COUNT> {
    open spec fn elements(&self) -> Seq<Route> {
        learned_elements(*self)
    }
}

impl Entries<PrefixInfo> for heapless::LinearMap<Key, PrefixInfo, IFACE_MAX_PREFIX_COUNT> {
    open spec fn entries(&self) -> Seq<(Key, PrefixInfo)> {
        prefix_entries(*self)
    }
}

/// A vector of learned routes: `heapless::Vec::new`. The contract claims that
/// it is empty.
#[verifier::external_body]
fn no_learned() -> (v: heapless::Vec<Route, SLAAC_ROUTE_CANDIDATE_COUNT>)
    ensures
        learned_elements(v) == Seq::<Route>::empty(),
{
    heapless::Vec::new()
}

/// A map of prefixes: `heapless::LinearMap::new`. The contract claims that it
/// is empty.
#[verifier::external_body]
fn no_prefixes() -> (m: heapless::LinearMap<Key, PrefixInfo, IFACE_MAX_PREFIX_COUNT>)
    ensures
        prefix_entries(m) == Seq::<(Key, PrefixInfo)>::empty(),
{
    heapless::LinearMap::new()
}

/// What a [`Slaac`] holds.
pub struct State {
    /// The prefixes, each under its key.
    pub prefixes: Seq<(Key, PrefixInfo)>,
    /// The learned routes.
    pub routes: Seq<Route>,
    /// The phase of router solicitation.
    pub phase: Phase,
    /// Whether addresses and routes need to be updated.
    pub sync_required: bool,
    /// When the next solicitation is due.
    pub retry_rs_at: Instant,
    /// The number of solicitations that are left to send.
    pub num_solicitations: u8,
    /// The order of the next route to arrive.
    pub next_route_order: u32,
}

/// Whether no two routes have the same prefix and router.
pub open spec fn identities_distinct(routes: Seq<Route>) -> bool {
    forall|i: int, j: int|
        0 <= i < j < routes.len() ==> (#[trigger] routes[i]).identity() != (
        #[trigger] routes[j]).identity()
}

/// Whether the routes are in the order of their prefixes and routers, none
/// occurring twice.
pub open spec fn identities_sorted(routes: Seq<Route>) -> bool {
    forall|i: int, j: int|
        0 <= i < j < routes.len() ==> identity_before(
            (#[trigger] routes[i]).identity(),
            (#[trigger] routes[j]).identity(),
        )
}

/// Whether no two of the routes that are not withdrawn arrived at the same
/// time, and all of them before the next.
pub open spec fn orders_distinct(routes: Seq<Route>, next: u32) -> bool {
    &&& forall|i: int|
        0 <= i < routes.len() ==> (#[trigger] routes[i]).withdrawn() || routes[i].order < next
    &&& forall|i: int, j: int|
        0 <= i < j < routes.len() && !(#[trigger] routes[i]).withdrawn() ==> routes[i].order != (
        #[trigger] routes[j]).order
}

/// Whether no route is withdrawn.
pub open spec fn none_withdrawn(routes: Seq<Route>) -> bool {
    forall|i: int| 0 <= i < routes.len() ==> !(#[trigger] routes[i]).withdrawn()
}

/// The routes that are not withdrawn.
pub open spec fn live(routes: Seq<Route>) -> Seq<Route> {
    routes.filter(|r: Route| !r.withdrawn())
}

/// The routes that have not expired.
pub open spec fn unexpired(routes: Seq<Route>, now: Instant) -> Seq<Route> {
    routes.filter(|r: Route| r.valid_at(now))
}

/// The number of routes that arrived before `order`.
pub open spec fn arrived_before(routes: Seq<Route>, order: u32) -> nat
    decreases routes.len(),
{
    if routes.len() == 0 {
        0
    } else {
        arrived_before(routes.drop_last(), order) + if routes.last().order < order {
            1nat
        } else {
            0nat
        }
    }
}

/// The routes with their orders counted from zero again: each route gets the
/// number of routes that arrived before it.
pub open spec fn rebased(routes: Seq<Route>) -> Seq<Route> {
    routes.map_values(
        |r: Route|
            if r.withdrawn() {
                r
            } else {
                Route { order: arrived_before(routes, r.order) as u32, ..r }
            },
    )
}

/// The state with an order to spare for a new route.
pub open spec fn with_spare_order(s: State) -> State {
    if s.next_route_order == u32::MAX {
        State {
            routes: rebased(s.routes),
            next_route_order: arrived_before(s.routes, WITHDRAWN) as u32,
            ..s
        }
    } else {
        s
    }
}

/// The number of routes that come before an identity.
pub open spec fn identities_before(routes: Seq<Route>, id: Identity) -> nat
    decreases routes.len(),
{
    if routes.len() == 0 {
        0
    } else {
        identities_before(routes.drop_last(), id) + if identity_before(
            routes.last().identity(),
            id,
        ) {
            1nat
        } else {
            0nat
        }
    }
}

/// The routes with another one at its place in their order.
pub open spec fn inserted(routes: Seq<Route>, route: Route) -> Seq<Route> {
    routes.insert(identities_before(routes, route.identity()) as int, route)
}

/// Whether some route has the identity.
pub open spec fn has_identity(routes: Seq<Route>, id: Identity) -> bool {
    exists|i: int| 0 <= i < routes.len() && (#[trigger] routes[i]).identity() == id
}

/// The position of the route with the identity, if there is one.
pub open spec fn identity_index(routes: Seq<Route>, id: Identity) -> int {
    choose|i: int| 0 <= i < routes.len() && (#[trigger] routes[i]).identity() == id
}

/// Whether the prefix of route `i` stays covered without it, once the incoming
/// route has joined: another route has the prefix.
pub open spec fn dispensable(routes: Seq<Route>, incoming: Route, i: int) -> bool {
    ||| routes[i].cidr == incoming.cidr
    ||| exists|j: int|
        0 <= j < routes.len() && j != i && (#[trigger] routes[j]).cidr == routes[i].cidr
}

/// Whether some route has the prefix.
pub open spec fn covers(routes: Seq<Route>, cidr: Ipv6Cidr) -> bool {
    exists|i: int| 0 <= i < routes.len() && (#[trigger] routes[i]).cidr == cidr
}

/// Whether route `i` is the first of the least useful routes, of all or only of
/// the dispensable ones.
pub open spec fn is_least_useful(
    routes: Seq<Route>,
    incoming: Route,
    only_dispensable: bool,
    i: int,
) -> bool {
    &&& 0 <= i < routes.len()
    &&& only_dispensable ==> dispensable(routes, incoming, i)
    &&& forall|j: int|
        0 <= j < routes.len() && (only_dispensable ==> dispensable(routes, incoming, j)) ==> {
            ||| routes[i].less_useful(#[trigger] routes[j])
            ||| !routes[j].less_useful(routes[i]) && i <= j
        }
}

/// Whether some route is dispensable.
pub open spec fn some_dispensable(routes: Seq<Route>, incoming: Route) -> bool {
    exists|i: int| 0 <= i < routes.len() && #[trigger] dispensable(routes, incoming, i)
}

/// The position of the route that leaves a full table for an incoming one.
///
/// A route that some other route can stand in for leaves before one that is
/// the last of its prefix. Of those, the least useful leaves: in any case if
/// the incoming route brings a new prefix, and otherwise only if it is less
/// useful than the incoming route.
pub open spec fn victim(routes: Seq<Route>, incoming: Route) -> Option<int> {
    let spare = some_dispensable(routes, incoming);
    let v = choose|i: int| is_least_useful(routes, incoming, spare, i);
    if routes.len() == 0 {
        None
    } else if spare && !covers(routes, incoming.cidr) || routes[v].less_useful(incoming) {
        Some(v)
    } else {
        None
    }
}

/// The state after a route that it holds was advertised again.
pub open spec fn route_refreshed(
    s: State,
    i: int,
    preference: NdiscRoutePreference,
    valid_until: Option<Instant>,
) -> State {
    let old = s.routes[i];
    if old.withdrawn() {
        let t = with_spare_order(s);
        State {
            routes: t.routes.update(
                i,
                Route { preference, valid_until, order: t.next_route_order, ..old },
            ),
            next_route_order: (t.next_route_order + 1) as u32,
            sync_required: true,
            ..t
        }
    } else {
        State {
            routes: s.routes.update(i, Route { preference, valid_until, ..old }),
            sync_required: s.sync_required || old.valid_until != valid_until || old.preference
                != preference,
            ..s
        }
    }
}

/// The state after a route that it did not hold was advertised.
pub open spec fn route_admitted(
    s: State,
    cidr: Ipv6Cidr,
    router: Ipv6Address,
    preference: NdiscRoutePreference,
    valid_until: Option<Instant>,
) -> State {
    let t = with_spare_order(State { routes: live(s.routes), ..s });
    let route = Route {
        cidr,
        via_router: router,
        valid_until,
        preference,
        order: t.next_route_order,
    };
    let u = State { next_route_order: (t.next_route_order + 1) as u32, ..t };
    if u.routes.len() < SLAAC_ROUTE_CANDIDATE_COUNT {
        State { routes: inserted(u.routes, route), sync_required: true, ..u }
    } else {
        match victim(u.routes, route) {
            Some(v) => State {
                routes: inserted(u.routes.remove(v), route),
                sync_required: true,
                ..u
            },
            None => u,
        }
    }
}

/// The state after a route was advertised.
pub open spec fn route_advertised(
    s: State,
    cidr: Ipv6Cidr,
    router: Ipv6Address,
    preference: NdiscRoutePreference,
    valid_until: Option<Instant>,
) -> State {
    if has_identity(s.routes, (cidr, router)) {
        route_refreshed(s, identity_index(s.routes, (cidr, router)), preference, valid_until)
    } else {
        route_admitted(s, cidr, router, preference, valid_until)
    }
}

/// Whether there is a route to withdraw.
pub open spec fn can_withdraw(s: State, id: Identity) -> bool {
    has_identity(s.routes, id) && !s.routes[identity_index(s.routes, id)].withdrawn()
}

/// The state after a route was withdrawn: the route is marked.
pub open spec fn route_withdrawn(s: State, id: Identity) -> State {
    if can_withdraw(s, id) {
        let i = identity_index(s.routes, id);
        State {
            routes: s.routes.update(i, Route { order: WITHDRAWN, ..s.routes[i] }),
            sync_required: true,
            ..s
        }
    } else {
        s
    }
}

/// The prefix of all addresses, `::/0`.
pub open spec fn ipv6_default() -> Ipv6Cidr {
    Ipv6Cidr { address: Ipv6Address { bits: 0 }, prefix_len: 0 }
}

/// Whether a prefix can be reached through a router: it is the prefix of all
/// addresses, or its address is neither link-local nor loopback nor unspecified
/// nor multicast.
pub open spec fn routable(cidr: Ipv6Cidr) -> bool {
    cidr.prefix_len == 0 || !cidr.address.link_local() && cidr.address.bits != 1
        && cidr.address.bits != 0 && !cidr.address.multicast()
}

/// The state without the routes that have expired.
pub open spec fn routes_pruned(s: State, now: Instant) -> State {
    let routes = unexpired(s.routes, now);
    State { routes, sync_required: s.sync_required || routes.len() != s.routes.len(), ..s }
}

/// The state after a prefix was advertised for autoconfiguration. One that is
/// link-local is ignored, as is a new one that there is no room for.
pub open spec fn prefix_added(
    s: State,
    cidr: Ipv6Cidr,
    prefix: NdiscPrefixInformation,
    now: Instant,
) -> State {
    let info = PrefixInfo::of_prefix(prefix, now);
    if cidr.address.link_local() {
        s
    } else if has_key(s.prefixes, key_of(cidr)) {
        State { prefixes: with_value(s.prefixes, key_of(cidr), info), ..s }
    } else if s.prefixes.len() < IFACE_MAX_PREFIX_COUNT {
        State { prefixes: s.prefixes.push((key_of(cidr), info)), sync_required: true, ..s }
    } else {
        s
    }
}

/// The state after a prefix was withdrawn.
pub open spec fn prefix_expired(s: State, cidr: Ipv6Cidr) -> State {
    let never = Instant { micros: 0 };
    if has_key(s.prefixes, key_of(cidr)) {
        State {
            prefixes: with_value(
                s.prefixes,
                key_of(cidr),
                PrefixInfo { preferred_until: never, valid_until: never },
            ),
            sync_required: true,
            ..s
        }
    } else {
        s
    }
}

/// Whether an option gives a prefix to form addresses from.
pub open spec fn configures(prefix: Option<NdiscPrefixInformation>) -> bool {
    prefix matches Some(p) && p.valid() && p.flags.addrconf
}

/// The state after the prefix of an advertisement was processed.
pub open spec fn prefix_processed(
    s: State,
    prefix: Option<NdiscPrefixInformation>,
    now: Instant,
) -> State {
    if configures(prefix) {
        let p = prefix->0;
        let cidr = Ipv6Cidr { address: p.prefix, prefix_len: p.prefix_len };
        if p.valid_lifetime.micros > 0 {
            prefix_added(s, cidr, p, now)
        } else {
            prefix_expired(s, cidr)
        }
    } else {
        s
    }
}

/// The state after the header of an advertisement was processed: a router
/// lifetime makes the source a default router, no lifetime withdraws it.
pub open spec fn header_processed(
    s: State,
    source: Ipv6Address,
    lifetime: Duration,
    preference: NdiscRoutePreference,
    now: Instant,
) -> State {
    if lifetime.micros > 0 {
        route_advertised(s, ipv6_default(), source, preference, Some(now.after(lifetime)))
    } else {
        route_withdrawn(s, (ipv6_default(), source))
    }
}

/// When a route that is advertised at `now` expires.
pub open spec fn route_deadline(info: NdiscRouteInformation, now: Instant) -> Option<Instant> {
    if info.route_lifetime == NdiscRouteInformation::infinite() {
        None
    } else {
        Some(now.after(info.route_lifetime))
    }
}

/// The state after one route of an advertisement was processed.
pub open spec fn info_processed(
    s: State,
    source: Ipv6Address,
    info: NdiscRouteInformation,
    now: Instant,
) -> State {
    let cidr = Ipv6Cidr { address: info.prefix, prefix_len: info.prefix_len };
    if !routable(cidr) {
        s
    } else if info.route_lifetime.micros > 0 {
        route_advertised(s, cidr, source, info.preference, route_deadline(info, now))
    } else {
        route_withdrawn(s, (cidr, source))
    }
}

/// The state after the routes of an advertisement were processed in turn.
pub open spec fn infos_processed(
    s: State,
    source: Ipv6Address,
    infos: Seq<NdiscRouteInformation>,
    now: Instant,
) -> State
    decreases infos.len(),
{
    if infos.len() == 0 {
        s
    } else {
        info_processed(
            infos_processed(s, source, infos.drop_last(), now),
            source,
            infos.last(),
            now,
        )
    }
}

/// The state after an advertisement: routes that have expired leave, then the
/// prefix, the header and the routes are processed, then the routes that were
/// withdrawn leave, and the discovery of routers has succeeded.
pub open spec fn advertisement_processed(
    s: State,
    source: Ipv6Address,
    lifetime: Duration,
    preference: NdiscRoutePreference,
    prefix: Option<NdiscPrefixInformation>,
    infos: Seq<NdiscRouteInformation>,
    now: Instant,
) -> State {
    let a = prefix_processed(routes_pruned(s, now), prefix, now);
    let b = header_processed(a, source, lifetime, preference, now);
    let c = infos_processed(b, source, infos, now);
    State {
        routes: live(c.routes),
        phase: if c.phase == Phase::Discovering {
            Phase::Maintaining
        } else {
            c.phase
        },
        ..c
    }
}

/// Whether the points in time that an advertisement sets can be represented.
pub open spec fn deadlines_fit(
    lifetime: Duration,
    prefix: Option<NdiscPrefixInformation>,
    infos: Seq<NdiscRouteInformation>,
    now: Instant,
) -> bool {
    &&& now.can_add(lifetime)
    &&& configures(prefix) && !prefix->0.prefix.link_local() ==> now.can_add(
        prefix->0.valid_lifetime,
    )
    &&& forall|i: int| 0 <= i < infos.len() ==> deadline_fits(#[trigger] infos[i], now)
}

/// Whether the point in time at which a route expires can be represented.
pub open spec fn deadline_fits(info: NdiscRouteInformation, now: Instant) -> bool {
    ||| info.route_lifetime == NdiscRouteInformation::infinite()
    ||| !routable(Ipv6Cidr { address: info.prefix, prefix_len: info.prefix_len })
    ||| now.can_add(info.route_lifetime)
}

/// Whether a prefix or a route has expired.
pub open spec fn something_expired(s: State, now: Instant) -> bool {
    ||| exists|i: int| 0 <= i < s.prefixes.len() && !(#[trigger] s.prefixes[i]).1.valid_at(now)
    ||| exists|i: int| 0 <= i < s.routes.len() && !(#[trigger] s.routes[i]).valid_at(now)
}

/// The prefixes after those of the first `n` that have expired were removed, one
/// after the other.
pub open spec fn prefixes_pruned(
    prefixes: Seq<(Key, PrefixInfo)>,
    n: nat,
    now: Instant,
) -> Seq<(Key, PrefixInfo)>
    decreases n,
{
    if n == 0 {
        prefixes
    } else {
        let rest = prefixes_pruned(prefixes, (n - 1) as nat, now);
        if prefixes[n - 1].1.valid_at(now) {
            rest
        } else {
            without_key(rest, prefixes[n - 1].0)
        }
    }
}

/// Whether a solicitation is due.
pub open spec fn solicitation_due(s: State, now: Instant) -> bool {
    (s.phase == Phase::Start || s.phase == Phase::Discovering) && s.retry_rs_at.micros
        <= now.micros
}

/// The state after a solicitation was sent.
pub open spec fn solicitation_sent(s: State, now: Instant) -> State {
    if !solicitation_due(s, now) {
        s
    } else if s.num_solicitations == 0 {
        State { phase: Phase::Stopped, ..s }
    } else {
        State {
            num_solicitations: (s.num_solicitations - 1) as u8,
            phase: Phase::Discovering,
            retry_rs_at: now.after(Duration { micros: 4_000_000 }),
            ..s
        }
    }
}

/// Whether a prefix or route that has not expired expires at `t`.
pub open spec fn is_deadline(s: State, now: Instant, t: Instant) -> bool {
    ||| exists|i: int|
        0 <= i < s.prefixes.len() && (#[trigger] s.prefixes[i]).1.valid_at(now)
            && s.prefixes[i].1.valid_until == t
    ||| exists|i: int|
        0 <= i < s.routes.len() && (#[trigger] s.routes[i]).valid_at(now)
            && s.routes[i].valid_until == Some(t)
}

/// Whether `t` is the first of the deadlines, or `None` if there is none.
pub open spec fn is_first_deadline(s: State, now: Instant, t: Option<Instant>) -> bool {
    match t {
        Some(t) => is_deadline(s, now, t) && forall|d: Instant| #[trigger]
            is_deadline(s, now, d) ==> t.micros <= d.micros,
        None => forall|d: Instant| !#[trigger] is_deadline(s, now, d),
    }
}

/// Whether `t` is when there is something to do next, or `None` if never.
pub open spec fn is_next_poll(s: State, now: Instant, t: Option<Instant>) -> bool {
    if s.sync_required || something_expired(s, now) {
        t == Some(now)
    } else {
        match s.phase {
            Phase::Start | Phase::Discovering => t == Some(s.retry_rs_at),
            Phase::Maintaining => is_first_deadline(s, now, t),
            Phase::Stopped => t is None,
        }
    }
}

/// The state after everything that has expired was removed.
pub open spec fn updated(s: State, now: Instant) -> State {
    State {
        prefixes: prefixes_pruned(s.prefixes, s.prefixes.len(), now),
        routes: unexpired(s.routes, now),
        sync_required: false,
        ..s
    }
}

/// Whether a learned route leads through the node.
pub open spec fn has_router(s: State, address: Ipv6Address) -> bool {
    exists|i: int| 0 <= i < s.routes.len() && (#[trigger] s.routes[i]).via_router == address
}

/// The state after a node was found to be no router.
pub open spec fn router_removed(s: State, address: Ipv6Address) -> State {
    State {
        routes: s.routes.filter(|r: Route| r.via_router != address),
        sync_required: s.sync_required || has_router(s, address),
        ..s
    }
}

/// Whether a solicitation must be sent.
pub open spec fn solicitation_required(s: State, now: Instant) -> bool {
    solicitation_due(s, now) && s.num_solicitations > 0
}

/// The order in which learned routes become public: from the most to the least
/// useful, and by prefix and router where two are alike.
pub open spec fn offered_before(a: Route, b: Route) -> bool {
    b.less_useful(a) || !a.less_useful(b) && identity_before(a.identity(), b.identity())
}

/// The learned route that a route stands for, unless it has expired.
pub open spec fn candidate(r: Route, now: Instant) -> Option<LearnedRoute> {
    if r.valid_at(now) {
        Some(
            LearnedRoute {
                cidr: r.cidr,
                via_router: r.via_router,
                valid_until: r.valid_until,
                preference: r.preference,
                order: r.order,
            },
        )
    } else {
        None
    }
}

/// Stateless address autoconfiguration.
#[derive(Debug)]
pub struct Slaac {
    prefix: heapless::LinearMap<Key, PrefixInfo, IFACE_MAX_PREFIX_COUNT>,
    routes: heapless::Vec<Route, SLAAC_ROUTE_CANDIDATE_COUNT>,
    /// The phase of router solicitation.
    pub phase: Phase,
    sync_required: bool,
    /// When the next solicitation is due.
    pub retry_rs_at: Instant,
    /// The number of solicitations that are left to send.
    pub num_solicitations: u8,
    /// The order of the next route to arrive.
    pub next_route_order: u32,
}

impl View for Slaac {
    type V = State;

    closed spec fn view(&self) -> State {
        State {
            prefixes: self.prefix.entries(),
            routes: self.routes.elements(),
            phase: self.phase,
            sync_required: self.sync_required,
            retry_rs_at: self.retry_rs_at,
            num_solicitations: self.num_solicitations,
            next_route_order: self.next_route_order,
        }
    }
}

/// Whether a state makes sense.
pub open spec fn valid_state(s: State) -> bool {
    &&& s.routes.len() <= SLAAC_ROUTE_CANDIDATE_COUNT
    &&& s.prefixes.len() <= IFACE_MAX_PREFIX_COUNT
    &&& identities_distinct(s.routes)
    &&& orders_distinct(s.routes, s.next_route_order)
    &&& keys_distinct(s.prefixes)
}

/// A later order has at least as many routes before it, and more if one of
/// them arrived in between.
proof fn lemma_arrived_before(routes: Seq<Route>, a: u32, b: u32)
    requires
        a <= b,
    ensures
        arrived_before(routes, a) <= arrived_before(routes, b) <= routes.len(),
        forall|i: int|
            0 <= i < routes.len() && a <= (#[trigger] routes[i]).order < b ==> arrived_before(
                routes,
                a,
            ) < arrived_before(routes, b),
    decreases routes.len(),
{
    if routes.len() > 0 {
        let first = routes.drop_last();
        lemma_arrived_before(first, a, b);
        assert forall|i: int|
            0 <= i < routes.len() && a <= (
            #[trigger] routes[i]).order < b implies arrived_before(routes, a) < arrived_before(
            routes,
            b,
        ) by {
            if i < first.len() {
                assert(first[i] == routes[i]);
            }
        }
    }
}

/// Counting the orders from zero again keeps them distinct and in order.
pub(crate) proof fn lemma_rebased(routes: Seq<Route>, next: u32)
    requires
        routes.len() <= SLAAC_ROUTE_CANDIDATE_COUNT,
        orders_distinct(routes, next),
    ensures
        arrived_before(routes, WITHDRAWN) <= SLAAC_ROUTE_CANDIDATE_COUNT,
        orders_distinct(rebased(routes), arrived_before(routes, WITHDRAWN) as u32),
        forall|i: int, j: int|
            0 <= i < routes.len() && 0 <= j < routes.len() ==> (
            #[trigger] routes[i].order < #[trigger] routes[j].order <==> rebased(routes)[i].order
                < rebased(routes)[j].order),
{
    let after = rebased(routes);
    let count = arrived_before(routes, WITHDRAWN);
    lemma_arrived_before(routes, WITHDRAWN, WITHDRAWN);
    assert forall|i: int| 0 <= i < routes.len() implies {
        &&& (#[trigger] after[i]).withdrawn() <==> routes[i].withdrawn()
        &&& !after[i].withdrawn() ==> after[i].order == arrived_before(routes, routes[i].order)
            && after[i].order < count
    } by {
        lemma_arrived_before(routes, routes[i].order, WITHDRAWN);
    }
    assert forall|i: int, j: int| 0 <= i < routes.len() && 0 <= j < routes.len() implies (
    #[trigger] routes[i].order < #[trigger] routes[j].order <==> after[i].order
        < after[j].order) by {
        assert(after[i].withdrawn() <==> routes[i].withdrawn());
        assert(after[j].withdrawn() <==> routes[j].withdrawn());
        if routes[i].order <= routes[j].order {
            lemma_arrived_before(routes, routes[i].order, routes[j].order);
        } else {
            lemma_arrived_before(routes, routes[j].order, routes[i].order);
        }
    }
    assert forall|i: int, j: int|
        0 <= i < j < after.len() && !(#[trigger] after[i]).withdrawn() implies after[i].order != (
    #[trigger] after[j]).order by {
        assert(routes[i].order != routes[j].order);
        if routes[i].order < routes[j].order {
            assert(after[i].order < after[j].order);
        } else {
            assert(routes[j].order < routes[i].order);
            assert(after[j].order < after[i].order);
        }
    }
}

/// Making room for another order keeps everything but the orders.
pub(crate) proof fn lemma_with_spare_order(s: State)
    requires
        s.routes.len() <= SLAAC_ROUTE_CANDIDATE_COUNT,
        orders_distinct(s.routes, s.next_route_order),
    ensures
        with_spare_order(s).next_route_order < u32::MAX,
        with_spare_order(s).routes.len() == s.routes.len(),
        orders_distinct(with_spare_order(s).routes, with_spare_order(s).next_route_order),
        forall|i: int|
            0 <= i < s.routes.len() ==> {
                let r = #[trigger] with_spare_order(s).routes[i];
                &&& r == Route { order: r.order, ..s.routes[i] }
                &&& r.withdrawn() <==> s.routes[i].withdrawn()
            },
{
    if s.next_route_order == u32::MAX {
        lemma_rebased(s.routes, s.next_route_order);
        assert forall|i: int| 0 <= i < s.routes.len() implies {
            let r = #[trigger] with_spare_order(s).routes[i];
            &&& r == Route { order: r.order, ..s.routes[i] }
            &&& r.withdrawn() <==> s.routes[i].withdrawn()
        } by {
            lemma_arrived_before(s.routes, s.routes[i].order, WITHDRAWN);
        }
    }
}

/// The number of routes that arrived before `order`.
fn count_arrived_before(routes: &[Route], order: u32) -> (r: u32)
    requires
        routes@.len() <= SLAAC_ROUTE_CANDIDATE_COUNT,
    ensures
        r == arrived_before(routes@, order),
        r <= routes@.len(),
{
    let mut count: u32 = 0;
    let mut i: usize = 0;
    assert(routes@.take(0) =~= Seq::<Route>::empty());
    while i < routes.len()
        invariant
            i <= routes@.len(),
            routes@.len() <= SLAAC_ROUTE_CANDIDATE_COUNT,
            count == arrived_before(routes@.take(i as int), order),
            count <= i,
        decreases routes@.len() - i,
    {
        assert(routes@.take(i + 1).drop_last() =~= routes@.take(i as int));
        if routes[i].order < order {
            count = count + 1;
        }
        i = i + 1;
    }
    assert(routes@.take(i as int) =~= routes@);
    count
}

/// Counts the orders from zero again.
fn rebase(routes: &mut [Route])
    requires
        old(routes)@.len() <= SLAAC_ROUTE_CANDIDATE_COUNT,
    ensures
        final(routes)@ == rebased(old(routes)@),
{
    let ghost start = routes@;
    let mut orders: Vec<u32> = Vec::new();
    let mut i: usize = 0;
    while i < routes.len()
        invariant
            i <= routes@.len(),
            routes@ == start,
            start.len() <= SLAAC_ROUTE_CANDIDATE_COUNT,
            orders@.len() == i,
            forall|k: int|
                0 <= k < i ==> #[trigger] orders@[k] == arrived_before(start, start[k].order),
        decreases routes@.len() - i,
    {
        orders.push(count_arrived_before(routes, routes[i].order));
        i = i + 1;
    }
    let mut i: usize = 0;
    while i < routes.len()
        invariant
            i <= routes@.len(),
            routes@.len() == start.len(),
            orders@.len() == start.len(),
            forall|k: int|
                0 <= k < start.len() ==> #[trigger] orders@[k] == arrived_before(
                    start,
                    start[k].order,
                ),
            forall|k: int| 0 <= k < i ==> #[trigger] routes@[k] == rebased(start)[k],
            forall|k: int| i <= k < start.len() ==> #[trigger] routes@[k] == start[k],
        decreases routes@.len() - i,
    {
        if !routes[i].is_withdrawn() {
            let route = routes[i];
            routes[i] = Route { order: orders[i], ..route };
        }
        i = i + 1;
    }
    assert(routes@ =~= rebased(start));
}

/// The number of routes before the first that does not come before `id`.
proof fn lemma_identities_before(routes: Seq<Route>, id: Identity, p: int)
    requires
        0 <= p <= routes.len(),
        forall|k: int| 0 <= k < p ==> identity_before((#[trigger] routes[k]).identity(), id),
        forall|k: int|
            p <= k < routes.len() ==> !identity_before((#[trigger] routes[k]).identity(), id),
    ensures
        identities_before(routes, id) == p,
    decreases routes.len(),
{
    if routes.len() > 0 {
        let first = routes.drop_last();
        assert forall|k: int| 0 <= k < first.len() implies first[k] == #[trigger] routes[k] by {}
        if p == routes.len() {
            lemma_identities_before(first, id, p - 1);
            assert(identity_before(routes[p - 1].identity(), id));
        } else {
            lemma_identities_before(first, id, p);
            assert(!identity_before(routes[routes.len() - 1].identity(), id));
        }
    }
}

/// Looks for a route by prefix and router: `Ok` with its position or, if there
/// is none, `Err` with the position at which it belongs.
fn find_route(routes: &[Route], id: &Identity) -> (r: Result<usize, usize>)
    requires
        identities_sorted(routes@),
    ensures
        match r {
            Ok(i) => {
                &&& i < routes@.len()
                &&& has_identity(routes@, *id)
                &&& i == identity_index(routes@, *id)
                &&& routes@[i as int].identity() == *id
            },
            Err(p) => {
                &&& !has_identity(routes@, *id)
                &&& p == identities_before(routes@, *id)
                &&& p <= routes@.len()
                &&& forall|k: int|
                    0 <= k < p ==> identity_before((#[trigger] routes@[k]).identity(), *id)
                &&& forall|k: int|
                    p <= k < routes@.len() ==> identity_before(
                        *id,
                        (#[trigger] routes@[k]).identity(),
                    )
            },
        },
{
    let mut lo: usize = 0;
    let mut hi: usize = routes.len();
    while lo < hi
        invariant
            lo <= hi <= routes@.len(),
            identities_sorted(routes@),
            forall|k: int| 0 <= k < lo ==> identity_before((#[trigger] routes@[k]).identity(), *id),
            forall|k: int|
                hi <= k < routes@.len() ==> identity_before(
                    *id,
                    (#[trigger] routes@[k]).identity(),
                ),
        decreases hi - lo,
    {
        let mid: usize = lo + (hi - lo) / 2;
        let at: Identity = (routes[mid].cidr, routes[mid].via_router);
        assert(at == routes@[mid as int].identity());
        if comes_before(&at, id) {
            lo = mid + 1;
        } else if comes_before(id, &at) {
            hi = mid;
        } else {
            proof {
                let i = identity_index(routes@, *id);
                assert(routes@[mid as int].identity() == *id);
                assert(routes@[i].identity() == *id);
            }
            return Ok(mid);
        }
    }
    proof {
        lemma_identities_before(routes@, *id, lo as int);
    }
    Err(lo)
}

/// The position of the route that leaves a full table for an incoming one.
fn full_route_victim(routes: &[Route], incoming: &Route) -> (r: Option<usize>)
    requires
        identities_sorted(routes@),
    ensures
        match r {
            Some(v) => victim(routes@, *incoming) == Some(v as int) && v < routes@.len(),
            None => victim(routes@, *incoming) is None,
        },
{
    let mut covered = false;
    let mut worst: Option<usize> = None;
    let mut worst_dispensable: Option<usize> = None;
    let mut i: usize = 0;
    while i < routes.len()
        invariant
            i <= routes@.len(),
            identities_sorted(routes@),
            covered <==> exists|k: int|
                0 <= k < i && (#[trigger] routes@[k]).cidr == incoming.cidr,
            least_so_far(routes@, *incoming, false, i as int, worst),
            least_so_far(routes@, *incoming, true, i as int, worst_dispensable),
        decreases routes@.len() - i,
    {
        let cidr = routes[i].cidr;
        if cidr == incoming.cidr {
            covered = true;
        }
        // Routes of one prefix are adjacent.
        let repeated = (i > 0 && routes[i - 1].cidr == cidr) || (i + 1 < routes.len() && routes[i
            + 1].cidr == cidr);
        proof {
            if exists|j: int|
                0 <= j < routes@.len() && j != i && (#[trigger] routes@[j]).cidr == cidr {
                lemma_adjacent(routes@, i as int);
            }
            if i > 0 && routes@[i - 1].cidr == cidr {
                assert(dispensable(routes@, *incoming, i as int));
            }
            if i + 1 < routes@.len() && routes@[i + 1].cidr == cidr {
                assert(dispensable(routes@, *incoming, i as int));
            }
        }
        worst = less_useful_index(routes, worst, i);
        if repeated || cidr == incoming.cidr {
            worst_dispensable = less_useful_index(routes, worst_dispensable, i);
        }
        i = i + 1;
    }
    match worst_dispensable {
        Some(v) => {
            proof {
                assert(is_least_useful(routes@, *incoming, true, v as int));
                lemma_least_useful_once(routes@, *incoming, true, v as int);
            }
            if !covered || routes[v].is_less_useful(incoming) {
                Some(v)
            } else {
                None
            }
        },
        None => match worst {
            Some(v) => {
                proof {
                    assert(is_least_useful(routes@, *incoming, false, v as int));
                    lemma_least_useful_once(routes@, *incoming, false, v as int);
                }
                if routes[v].is_less_useful(incoming) {
                    Some(v)
                } else {
                    None
                }
            },
            None => None,
        },
    }
}

/// Whether `best` is the first of the least useful among the first `n` routes
/// that qualify.
spec fn least_so_far(
    routes: Seq<Route>,
    incoming: Route,
    only_dispensable: bool,
    n: int,
    best: Option<usize>,
) -> bool {
    match best {
        Some(b) => {
            &&& b < n
            &&& only_dispensable ==> dispensable(routes, incoming, b as int)
            &&& forall|j: int|
                0 <= j < n && (only_dispensable ==> dispensable(routes, incoming, j)) ==> {
                    ||| routes[b as int].less_useful(#[trigger] routes[j])
                    ||| !routes[j].less_useful(routes[b as int]) && b <= j
                }
        },
        None => n == 0 || only_dispensable && forall|j: int|
            0 <= j < n ==> !#[trigger] dispensable(routes, incoming, j),
    }
}

/// Of two routes, the less useful one, and the first if they are alike.
fn less_useful_index(routes: &[Route], current: Option<usize>, candidate: usize) -> (r: Option<
    usize,
>)
    requires
        candidate < routes@.len(),
        current matches Some(c) ==> c < routes@.len(),
    ensures
        r == match current {
            Some(c) if !routes@[candidate as int].less_useful(routes@[c as int]) => Some(c),
            _ => Some(candidate),
        },
{
    match current {
        Some(c) if !routes[candidate].is_less_useful(&routes[c]) => Some(c),
        _ => Some(candidate),
    }
}

/// In sorted routes, a route of the same prefix is next to each that has one.
proof fn lemma_adjacent(routes: Seq<Route>, i: int)
    requires
        identities_sorted(routes),
        0 <= i < routes.len(),
        exists|j: int|
            0 <= j < routes.len() && j != i && (#[trigger] routes[j]).cidr == routes[i].cidr,
    ensures
        i > 0 && routes[i - 1].cidr == routes[i].cidr || i + 1 < routes.len() && routes[i + 1].cidr
            == routes[i].cidr,
{
    let j = choose|j: int|
        0 <= j < routes.len() && j != i && (#[trigger] routes[j]).cidr == routes[i].cidr;
    if j < i {
        if j < i - 1 {
            assert(identity_before(routes[j].identity(), routes[i - 1].identity()));
            assert(identity_before(routes[i - 1].identity(), routes[i].identity()));
        }
    } else {
        if i + 1 < j {
            assert(identity_before(routes[i].identity(), routes[i + 1].identity()));
            assert(identity_before(routes[i + 1].identity(), routes[j].identity()));
        }
    }
}

/// There is one first least useful route.
proof fn lemma_least_useful_once(
    routes: Seq<Route>,
    incoming: Route,
    only_dispensable: bool,
    v: int,
)
    requires
        is_least_useful(routes, incoming, only_dispensable, v),
    ensures
        v == (choose|i: int| is_least_useful(routes, incoming, only_dispensable, i)),
{
    let w = choose|i: int| is_least_useful(routes, incoming, only_dispensable, i);
    assert(is_least_useful(routes, incoming, only_dispensable, w));
    assert(routes[v].less_useful(routes[w]) || !routes[w].less_useful(routes[v]) && v <= w);
    assert(routes[w].less_useful(routes[v]) || !routes[v].less_useful(routes[w]) && w <= v);
}

/// Removing routes keeps the others in order and distinct.
pub(crate) proof fn lemma_filtered(routes: Seq<Route>, keep: spec_fn(Route) -> bool, next: u32)
    requires
        orders_distinct(routes, next),
    ensures
        routes.filter(keep).len() <= routes.len(),
        orders_distinct(routes.filter(keep), next),
        identities_distinct(routes) ==> identities_distinct(routes.filter(keep)),
        identities_sorted(routes) ==> identities_sorted(routes.filter(keep)),
        none_withdrawn(routes) ==> none_withdrawn(routes.filter(keep)),
        forall|i: int|
            0 <= i < routes.filter(keep).len() ==> keep(#[trigger] routes.filter(keep)[i]),
        forall|id: Identity|
            !has_identity(routes, id) ==> !#[trigger] has_identity(routes.filter(keep), id),
{
    let some = routes.filter(keep);
    let at = lemma_filter_positions(routes, keep);
    assert(some.len() <= routes.len()) by {
        routes.lemma_filter_len(keep);
    }
    assert forall|i: int, j: int| 0 <= i < j < some.len() && !(
    #[trigger] some[i]).withdrawn() implies some[i].order != (#[trigger] some[j]).order by {
        assert(at[i] < at[j]);
        assert(routes[at[i]] == some[i] && routes[at[j]] == some[j]);
    }
    assert forall|i: int| 0 <= i < some.len() implies (#[trigger] some[i]).withdrawn()
        || some[i].order < next by {
        assert(routes[at[i]] == some[i]);
    }
    if identities_distinct(routes) {
        assert forall|i: int, j: int| 0 <= i < j < some.len() implies (
        #[trigger] some[i]).identity() != (#[trigger] some[j]).identity() by {
            assert(at[i] < at[j]);
            assert(routes[at[i]] == some[i] && routes[at[j]] == some[j]);
        }
    }
    if identities_sorted(routes) {
        assert forall|i: int, j: int| 0 <= i < j < some.len() implies identity_before(
            (#[trigger] some[i]).identity(),
            (#[trigger] some[j]).identity(),
        ) by {
            assert(at[i] < at[j]);
            assert(routes[at[i]] == some[i] && routes[at[j]] == some[j]);
        }
    }
    if none_withdrawn(routes) {
        assert forall|i: int| 0 <= i < some.len() implies !(#[trigger] some[i]).withdrawn() by {
            assert(routes[at[i]] == some[i]);
        }
    }
    assert forall|i: int| 0 <= i < some.len() implies keep(#[trigger] some[i]) by {
        assert(keep(routes[at[i]]));
    }
    assert forall|id: Identity| !has_identity(routes, id) implies !#[trigger] has_identity(
        some,
        id,
    ) by {
        if has_identity(some, id) {
            let i = choose|i: int| 0 <= i < some.len() && (#[trigger] some[i]).identity() == id;
            assert(routes[at[i]].identity() == id);
        }
    }
}

/// Routes in strict order are distinct.
proof fn lemma_sorted_distinct(routes: Seq<Route>)
    requires
        identities_sorted(routes),
    ensures
        identities_distinct(routes),
{
    assert forall|i: int, j: int| 0 <= i < j < routes.len() implies (
    #[trigger] routes[i]).identity() != (#[trigger] routes[j]).identity() by {
        assert(identity_before(routes[i].identity(), routes[j].identity()));
    }
}

/// Inserting a route at its place keeps the routes in order.
proof fn lemma_inserted(routes: Seq<Route>, route: Route, p: int, next: u32)
    requires
        identities_sorted(routes),
        orders_distinct(routes, route.order),
        !route.withdrawn(),
        route.order < next,
        0 <= p <= routes.len(),
        forall|k: int|
            0 <= k < p ==> identity_before((#[trigger] routes[k]).identity(), route.identity()),
        forall|k: int|
            p <= k < routes.len() ==> identity_before(
                route.identity(),
                (#[trigger] routes[k]).identity(),
            ),
    ensures
        identities_sorted(routes.insert(p, route)),
        orders_distinct(routes.insert(p, route), next),
        none_withdrawn(routes) ==> none_withdrawn(routes.insert(p, route)),
{
    let all = routes.insert(p, route);
    assert forall|i: int| 0 <= i < all.len() && i != p implies (#[trigger] all[i]) == routes[if i < p {
        i
    } else {
        i - 1
    }] by {}
    assert forall|i: int, j: int| 0 <= i < j < all.len() implies identity_before(
        (#[trigger] all[i]).identity(),
        (#[trigger] all[j]).identity(),
    ) by {
        let x = if i < p { i } else { i - 1 };
        let y = if j < p { j } else { j - 1 };
        if i != p {
            assert(all[i] == routes[x]);
        }
        if j != p {
            assert(all[j] == routes[y]);
        }
        if i != p && j != p {
            assert(identity_before(routes[x].identity(), routes[y].identity()));
        }
    }
    assert forall|i: int, j: int| 0 <= i < j < all.len() && !(
    #[trigger] all[i]).withdrawn() implies all[i].order != (#[trigger] all[j]).order by {
        let x = if i < p { i } else { i - 1 };
        let y = if j < p { j } else { j - 1 };
        if i != p {
            assert(all[i] == routes[x]);
        }
        if j != p {
            assert(all[j] == routes[y]);
        }
    }
}

/// Removing a route keeps the others in order.
proof fn lemma_removed(routes: Seq<Route>, v: int, next: u32)
    requires
        identities_sorted(routes),
        orders_distinct(routes, next),
        0 <= v < routes.len(),
    ensures
        identities_sorted(routes.remove(v)),
        orders_distinct(routes.remove(v), next),
        none_withdrawn(routes) ==> none_withdrawn(routes.remove(v)),
        forall|id: Identity|
            !has_identity(routes, id) ==> !#[trigger] has_identity(routes.remove(v), id),
{
    let some = routes.remove(v);
    assert forall|i: int| 0 <= i < some.len() implies (#[trigger] some[i]) == routes[if i < v {
        i
    } else {
        i + 1
    }] by {}
    assert forall|i: int, j: int| 0 <= i < j < some.len() && !(
    #[trigger] some[i]).withdrawn() implies some[i].order != (#[trigger] some[j]).order by {
        let x = if i < v { i } else { i + 1 };
        let y = if j < v { j } else { j + 1 };
        assert(some[i] == routes[x] && some[j] == routes[y]);
    }
    assert forall|id: Identity| !has_identity(routes, id) implies !#[trigger] has_identity(
        some,
        id,
    ) by {
        if has_identity(some, id) {
            let i = choose|i: int| 0 <= i < some.len() && (#[trigger] some[i]).identity() == id;
            assert(routes[if i < v { i } else { i + 1 }].identity() == id);
        }
    }
}

impl Slaac {
    /// Whether the state makes sense.
    pub open spec fn wf(&self) -> bool {
        valid_state(self@)
    }

    /// The state before any advertisement.
    pub fn new() -> (r: Slaac)
        ensures
            r.wf(),
            identities_sorted(r@.routes),
            none_withdrawn(r@.routes),
            r@ == (State {
                prefixes: Seq::empty(),
                routes: Seq::empty(),
                phase: Phase::Start,
                sync_required: false,
                retry_rs_at: Instant { micros: 0 },
                num_solicitations: MAX_RTR_SOLICITATIONS,
                next_route_order: 0,
            }),
    {
        Slaac {
            prefix: no_prefixes(),
            routes: no_learned(),
            phase: Phase::Start,
            sync_required: false,
            retry_rs_at: Instant::zero(),
            num_solicitations: MAX_RTR_SOLICITATIONS,
            next_route_order: 0,
        }
    }

    /// Takes the order of a new route: it comes behind those of all routes that
    /// are not withdrawn. The routes stay where they are, and in the same order
    /// of arrival.
    pub fn take_route_order(&mut self) -> (r: u32)
        requires
            old(self).wf(),
        ensures
            final(self).wf(),
            identities_sorted(old(self)@.routes) ==> identities_sorted(final(self)@.routes),
            r == with_spare_order(old(self)@).next_route_order,
            final(self)@ == (State {
                next_route_order: (r + 1) as u32,
                ..with_spare_order(old(self)@)
            }),
            r < u32::MAX,
            final(self)@.routes.len() == old(self)@.routes.len(),
            forall|i: int|
                0 <= i < old(self)@.routes.len() ==> {
                    let route = #[trigger] final(self)@.routes[i];
                    &&& route == Route { order: route.order, ..old(self)@.routes[i] }
                    &&& route.withdrawn() <==> old(self)@.routes[i].withdrawn()
                    &&& !route.withdrawn() ==> route.order < r
                },
            forall|i: int, j: int|
                0 <= i < old(self)@.routes.len() && 0 <= j < old(self)@.routes.len() ==> ((
                #[trigger] final(self)@.routes[i]).order < (
                #[trigger] final(self)@.routes[j]).order <==> old(self)@.routes[i].order < old(
                    self,
                )@.routes[j].order),
    {
        proof {
            lemma_with_spare_order(self@);
            lemma_same_identities(self@.routes, with_spare_order(self@).routes);
            law_drawn_order_is_the_newest(self@);
        }
        if self.next_route_order == u32::MAX {
            // The counter must not wrap and make a new route look older than
            // those retained.
            let next = count_arrived_before(as_slice(&self.routes), WITHDRAWN);
            rebase(as_mut_slice(&mut self.routes));
            self.next_route_order = next;
        }
        let order = self.next_route_order;
        self.next_route_order = order + 1;
        order
    }

    /// Removes the routes that were withdrawn.
    fn remove_withdrawn_routes(&mut self)
        ensures
            final(self)@ == (State { routes: live(old(self)@.routes), ..old(self)@ }),
    {
        let ghost before = self@.routes;
        let is_live = |r: &Route| -> (keep: bool)
            ensures
                keep == !r.withdrawn(),
        {
            !r.is_withdrawn()
        };
        retain(&mut self.routes, is_live);
        assert(self@.routes == live(before));
    }

    /// Inserts a route that is not there yet at its place.
    fn insert_route_by_identity(&mut self, route: Route)
        requires
            identities_sorted(old(self)@.routes),
            orders_distinct(old(self)@.routes, route.order),
            old(self)@.routes.len() < SLAAC_ROUTE_CANDIDATE_COUNT,
            !has_identity(old(self)@.routes, route.identity()),
            !route.withdrawn(),
            route.order < old(self)@.next_route_order,
        ensures
            final(self)@ == (State { routes: inserted(old(self)@.routes, route), ..old(self)@ }),
            final(self)@.routes.len() == old(self)@.routes.len() + 1,
            identities_sorted(final(self)@.routes),
            orders_distinct(final(self)@.routes, old(self)@.next_route_order),
            none_withdrawn(old(self)@.routes) ==> none_withdrawn(final(self)@.routes),
    {
        let id: Identity = (route.cidr, route.via_router);
        match find_route(as_slice(&self.routes), &id) {
            Ok(_) => {},
            Err(p) => {
                proof {
                    lemma_inserted(self@.routes, route, p as int, self@.next_route_order);
                }
                let _ = insert(&mut self.routes, p, route);
            },
        }
    }

    /// Records a route that was advertised.
    pub fn add_route(
        &mut self,
        cidr: &Ipv6Cidr,
        router: &Ipv6Address,
        preference: NdiscRoutePreference,
        valid_until: Option<Instant>,
    )
        requires
            old(self).wf(),
            identities_sorted(old(self)@.routes),
        ensures
            final(self)@ == route_advertised(old(self)@, *cidr, *router, preference, valid_until),
            final(self).wf(),
            identities_sorted(final(self)@.routes),
            none_withdrawn(old(self)@.routes) ==> none_withdrawn(final(self)@.routes),
    {
        let ghost start = self@;
        let id: Identity = (*cidr, *router);
        match find_route(as_slice(&self.routes), &id) {
            Ok(index) => {
                let old_route = as_slice(&self.routes)[index];
                if old_route.is_withdrawn() {
                    // A route that is advertised after it was withdrawn is a
                    // new arrival.
                    proof {
                        lemma_with_spare_order(start);
                    }
                    let order = self.take_route_order();
                    let ghost spare = self@;
                    let slot = as_mut_slice(&mut self.routes);
                    slot[index] = Route { valid_until, preference, order, ..old_route };
                    self.sync_required = true;
                    proof {
                        lemma_updated(
                            spare.routes,
                            index as int,
                            self@.routes[index as int],
                            spare.next_route_order,
                        );
                    }
                } else {
                    let changed = old_route.valid_until != valid_until || old_route.preference
                        != preference;
                    let slot = as_mut_slice(&mut self.routes);
                    slot[index] = Route { valid_until, preference, ..old_route };
                    if changed {
                        self.sync_required = true;
                    }
                    proof {
                        lemma_updated(
                            start.routes,
                            index as int,
                            self@.routes[index as int],
                            start.next_route_order,
                        );
                    }
                }
            },
            Err(_) => {
                self.remove_withdrawn_routes();
                let ghost purged = self@;
                proof {
                    let keep = |r: Route| !r.withdrawn();
                    lemma_filtered(start.routes, keep, start.next_route_order);
                    lemma_with_spare_order(purged);
                    lemma_same_identities(purged.routes, with_spare_order(purged).routes);
                    assert(!has_identity(start.routes.filter(keep), id));
                    assert(!has_identity(purged.routes, id));
                }
                let order = self.take_route_order();
                let route = Route {
                    cidr: *cidr,
                    via_router: *router,
                    valid_until,
                    preference,
                    order,
                };
                let ghost spare = self@;
                assert(!has_identity(spare.routes, route.identity()));
                if as_slice(&self.routes).len() < SLAAC_ROUTE_CANDIDATE_COUNT {
                    self.insert_route_by_identity(route);
                    self.sync_required = true;
                } else {
                    match full_route_victim(as_slice(&self.routes), &route) {
                        Some(v) => {
                            proof {
                                lemma_removed(spare.routes, v as int, order);
                            }
                            let _ = remove(&mut self.routes, v);
                            assert(!has_identity(self@.routes, route.identity()));
                            self.insert_route_by_identity(route);
                            self.sync_required = true;
                        },
                        None => {
                            assert(orders_distinct(spare.routes, spare.next_route_order));
                        },
                    }
                }
            },
        }
        proof {
            lemma_sorted_distinct(self@.routes);
        }
    }

    /// Marks a route as withdrawn, and tells whether there was one.
    pub fn expire_route(&mut self, cidr: &Ipv6Cidr, via_router: &Ipv6Address) -> (r: bool)
        requires
            old(self).wf(),
            identities_sorted(old(self)@.routes),
        ensures
            r == can_withdraw(old(self)@, (*cidr, *via_router)),
            final(self)@ == route_withdrawn(old(self)@, (*cidr, *via_router)),
            final(self).wf(),
            identities_sorted(final(self)@.routes),
            !r ==> final(self)@ == old(self)@,
    {
        let ghost start = self@;
        let id: Identity = (*cidr, *via_router);
        match find_route(as_slice(&self.routes), &id) {
            Ok(index) => {
                let old_route = as_slice(&self.routes)[index];
                if old_route.is_withdrawn() {
                    return false;
                }
                let slot = as_mut_slice(&mut self.routes);
                slot[index] = Route { order: WITHDRAWN, ..old_route };
                self.sync_required = true;
                proof {
                    lemma_updated(
                        start.routes,
                        index as int,
                        self@.routes[index as int],
                        start.next_route_order,
                    );
                    lemma_sorted_distinct(self@.routes);
                }
                true
            },
            Err(_) => false,
        }
    }

    /// Records a prefix that was advertised for autoconfiguration.
    fn add_prefix(&mut self, cidr: &Ipv6Cidr, prefix: &NdiscPrefixInformation, now: Instant)
        requires
            old(self).wf(),
            !cidr.address.link_local() ==> now.can_add(prefix.preferred_lifetime) && now.can_add(
                prefix.valid_lifetime,
            ),
        ensures
            final(self)@ == prefix_added(old(self)@, *cidr, *prefix, now),
            final(self).wf(),
    {
        if cidr.address.is_link_local() {
            return;
        }
        let info = PrefixInfo::from_prefix(prefix, now);
        let key = prefix_key(cidr);
        proof {
            if has_key(self@.prefixes, key) {
                lemma_with_value(self@.prefixes, key, info);
            }
        }
        match map_insert(&mut self.prefix, key, info) {
            Ok(None) => {
                self.sync_required = true;
            },
            _ => {},
        }
    }

    /// Ends the validity of a prefix.
    fn expire_prefix(&mut self, cidr: &Ipv6Cidr)
        requires
            old(self).wf(),
        ensures
            final(self)@ == prefix_expired(old(self)@, *cidr),
            final(self).wf(),
    {
        let key = prefix_key(cidr);
        let never = PrefixInfo { preferred_until: Instant::zero(), valid_until: Instant::zero() };
        proof {
            if has_key(self@.prefixes, key) {
                lemma_with_value(self@.prefixes, key, never);
            }
        }
        match map_get_mut(&mut self.prefix, &key) {
            Some(info) => {
                *info = never;
                self.sync_required = true;
            },
            None => {},
        }
    }

    /// Processes the prefix of an advertisement.
    fn process_prefix(&mut self, prefix: NdiscPrefixInformation, now: Instant)
        requires
            old(self).wf(),
            prefix.valid(),
            prefix.flags.addrconf && !prefix.prefix.link_local() ==> now.can_add(
                prefix.valid_lifetime,
            ),
        ensures
            final(self)@ == prefix_processed(old(self)@, Some(prefix), now),
            final(self).wf(),
    {
        if !prefix.flags.addrconf {
            return;
        }
        let cidr = Ipv6Cidr::new(prefix.prefix, prefix.prefix_len);
        if prefix.valid_lifetime.micros > 0 {
            self.add_prefix(&cidr, &prefix, now);
        } else {
            self.expire_prefix(&cidr);
        }
    }

    /// Whether a prefix can be reached through a router.
    fn is_routable_prefix(cidr: &Ipv6Cidr) -> (r: bool)
        ensures
            r == routable(*cidr),
    {
        cidr.prefix_len == 0 || !cidr.address.is_link_local() && !cidr.address.is_loopback()
            && !cidr.address.is_unspecified() && !cidr.address.is_multicast()
    }

    /// Removes the routes that have expired.
    fn prune_routes(&mut self, now: Instant)
        requires
            old(self).wf(),
        ensures
            final(self)@ == (State {
                routes: unexpired(old(self)@.routes, now),
                ..old(self)@
            }),
            final(self).wf(),
            identities_sorted(old(self)@.routes) ==> identities_sorted(final(self)@.routes),
            none_withdrawn(old(self)@.routes) ==> none_withdrawn(final(self)@.routes),
    {
        let ghost before = self@.routes;
        let is_unexpired = |r: &Route| -> (keep: bool)
            ensures
                keep == r.valid_at(now),
        {
            r.is_valid(now)
        };
        retain(&mut self.routes, is_unexpired);
        proof {
            assert(self@.routes == unexpired(before, now));
            lemma_filtered(before, |r: Route| r.valid_at(now), self@.next_route_order);
        }
    }

    /// Processes an advertisement: the lifetime and preference of its source as
    /// a default router, its prefix, and its routes.
    pub fn process_advertisement(
        &mut self,
        source: &Ipv6Address,
        router_lifetime: Duration,
        router_preference: NdiscRoutePreference,
        prefix: Option<NdiscPrefixInformation>,
        route_info: NdiscRouteInformationList,
        now: Instant,
    )
        requires
            old(self).wf(),
            identities_sorted(old(self)@.routes),
            none_withdrawn(old(self)@.routes),
            all_valid(route_info@),
            deadlines_fit(router_lifetime, prefix, route_info@, now),
        ensures
            final(self)@ == advertisement_processed(
                old(self)@,
                *source,
                router_lifetime,
                router_preference,
                prefix,
                route_info@,
                now,
            ),
            final(self).wf(),
            identities_sorted(final(self)@.routes),
            none_withdrawn(final(self)@.routes),
            none_expired(final(self)@.routes, now),
            others_held(final(self)@.routes, old(self)@.routes, *source),
            final(self)@.phase == if old(self)@.phase == Phase::Discovering {
                Phase::Maintaining
            } else {
                old(self)@.phase
            },
    {
        let ghost start = self@;
        proof {
            law_advertisement_leaves_no_expired_route(
                start,
                *source,
                router_lifetime,
                router_preference,
                prefix,
                route_info@,
                now,
            );
            law_advertisement_keeps_other_routers(
                start,
                *source,
                router_lifetime,
                router_preference,
                prefix,
                route_info@,
                now,
            );
            law_advertisement_ends_discovery(
                start,
                *source,
                router_lifetime,
                router_preference,
                prefix,
                route_info@,
                now,
            );
        }
        let previous_count = as_slice(&self.routes).len();
        self.prune_routes(now);
        if as_slice(&self.routes).len() != previous_count {
            self.sync_required = true;
        }
        assert(self@ == routes_pruned(start, now));

        if let Some(p) = prefix {
            if p.is_valid_prefix_info() {
                self.process_prefix(p, now);
            }
        }
        let ghost a = prefix_processed(routes_pruned(start, now), prefix, now);
        assert(self@ == a);

        let default_cidr = Ipv6Cidr::new(Ipv6Address::unspecified(), 0);
        let mut has_withdrawn_routes = false;
        if router_lifetime.micros > 0 {
            self.add_route(&default_cidr, source, router_preference, Some(now + router_lifetime));
        } else {
            has_withdrawn_routes = self.expire_route(&default_cidr, source);
        }
        let ghost b = header_processed(a, *source, router_lifetime, router_preference, now);
        assert(self@ == b);

        let infos = route_info.iter();
        let mut i: usize = 0;
        assert(infos@.take(0) =~= Seq::<NdiscRouteInformation>::empty());
        while i < infos.len()
            invariant
                i <= infos@.len(),
                infos@ == route_info@,
                all_valid(infos@),
                deadlines_fit(router_lifetime, prefix, infos@, now),
                self@ == infos_processed(b, *source, infos@.take(i as int), now),
                self.wf(),
                identities_sorted(self@.routes),
                !has_withdrawn_routes ==> none_withdrawn(self@.routes),
            decreases infos@.len() - i,
        {
            proof {
                assert(infos@.take(i + 1).drop_last() =~= infos@.take(i as int));
                assert(infos@.take(i + 1).last() == infos@[i as int]);
            }
            let info = infos[i];
            let cidr = Ipv6Cidr::new(info.prefix, info.prefix_len);
            if Slaac::is_routable_prefix(&cidr) {
                if info.route_lifetime.micros > 0 {
                    let valid_until = if info.has_infinite_lifetime() {
                        None
                    } else {
                        Some(now + info.route_lifetime)
                    };
                    self.add_route(&cidr, source, info.preference, valid_until);
                } else {
                    let withdrawn = self.expire_route(&cidr, source);
                    has_withdrawn_routes = has_withdrawn_routes || withdrawn;
                }
            }
            i = i + 1;
        }
        assert(infos@.take(i as int) =~= infos@);
        let ghost c = self@;
        if has_withdrawn_routes {
            self.remove_withdrawn_routes();
        } else {
            proof {
                lemma_filter_all(c.routes, |r: Route| !r.withdrawn());
            }
        }
        proof {
            lemma_filtered(c.routes, |r: Route| !r.withdrawn(), c.next_route_order);
            assert(self@.routes == live(c.routes));
        }
        if self.phase == Phase::Discovering {
            self.phase = Phase::Maintaining;
        }
    }

    /// Whether an advertisement has changed prefixes or routes since they were
    /// last brought into use.
    pub fn has_ra_update(&self) -> (r: bool)
        ensures
            r == self@.sync_required,
    {
        self.sync_required
    }

    /// The prefixes.
    pub fn prefix(&self) -> (r: Vec<(Ipv6Cidr, PrefixInfo)>)
        ensures
            r@.len() == self@.prefixes.len(),
            forall|i: int|
                0 <= i < r@.len() ==> (key_of((#[trigger] r@[i]).0), r@[i].1)
                    == self@.prefixes[i],
    {
        let entries = map_entries(&self.prefix);
        let mut r: Vec<(Ipv6Cidr, PrefixInfo)> = Vec::new();
        let mut i: usize = 0;
        while i < entries.len()
            invariant
                i <= entries@.len(),
                entries@ == self@.prefixes,
                r@.len() == i,
                forall|k: int|
                    0 <= k < i ==> (key_of((#[trigger] r@[k]).0), r@[k].1) == self@.prefixes[k],
            decreases entries@.len() - i,
        {
            let (key, info) = entries[i];
            let cidr = Ipv6Cidr { address: Ipv6Address { bits: key.1 }, prefix_len: key.0 };
            r.push((cidr, info));
            i = i + 1;
        }
        r
    }

    /// The learned routes.
    pub fn routes(&self) -> (r: &[Route])
        ensures
            r@ == self@.routes,
    {
        as_slice(&self.routes)
    }

    /// The number of learned routes.
    pub fn learned_route_count(&self) -> (r: usize)
        ensures
            r == self@.routes.len(),
    {
        as_slice(&self.routes).len()
    }

    /// The learned route at a position, unless it has expired.
    pub fn learned_route_at(&self, index: usize, now: Instant) -> (r: Option<LearnedRoute>)
        ensures
            r == if index < self@.routes.len() {
                candidate(self@.routes[index as int], now)
            } else {
                None
            },
    {
        let routes = as_slice(&self.routes);
        if index >= routes.len() {
            return None;
        }
        let route = routes[index];
        if !route.is_valid(now) {
            return None;
        }
        Some(
            LearnedRoute {
                cidr: route.cidr,
                via_router: route.via_router,
                valid_until: route.valid_until,
                preference: route.preference,
                order: route.order,
            },
        )
    }

    /// Sorts the learned routes from the most to the least useful.
    pub fn sort_learned_routes_by_usefulness(&mut self)
        requires
            old(self).wf(),
        ensures
            final(self)@ == (State { routes: final(self)@.routes, ..old(self)@ }),
            final(self)@.routes.to_multiset() == old(self)@.routes.to_multiset(),
            in_order(final(self)@.routes, |a: Route, b: Route| offered_before(a, b)),
            final(self).wf(),
    {
        let ghost before = |a: Route, b: Route| offered_before(a, b);
        let is_before = |a: &Route, b: &Route| -> (r: bool)
            ensures
                r == offered_before(*a, *b),
        {
            b.is_less_useful(a) || !a.is_less_useful(b) && comes_before(
                &(a.cidr, a.via_router),
                &(b.cidr, b.via_router),
            )
        };
        let ghost start = self@.routes;
        sort_by(as_mut_slice(&mut self.routes), is_before, Ghost(before));
        proof {
            lemma_permuted(start, self@.routes, self@.next_route_order);
        }
    }

    /// Sorts the learned routes by prefix and router.
    pub fn restore_learned_route_identity_order(&mut self)
        requires
            old(self).wf(),
        ensures
            final(self)@ == (State { routes: final(self)@.routes, ..old(self)@ }),
            final(self)@.routes.to_multiset() == old(self)@.routes.to_multiset(),
            identities_sorted(final(self)@.routes),
            final(self).wf(),
    {
        let ghost before = |a: Route, b: Route| identity_before(a.identity(), b.identity());
        let is_before = |a: &Route, b: &Route| -> (r: bool)
            ensures
                r == identity_before(a.identity(), b.identity()),
        { comes_before(&(a.cidr, a.via_router), &(b.cidr, b.via_router)) };
        let ghost start = self@.routes;
        sort_by(as_mut_slice(&mut self.routes), is_before, Ghost(before));
        proof {
            lemma_permuted(start, self@.routes, self@.next_route_order);
            let routes = self@.routes;
            assert forall|i: int, j: int| 0 <= i < j < routes.len() implies identity_before(
                (#[trigger] routes[i]).identity(),
                (#[trigger] routes[j]).identity(),
            ) by {
                assert(!before(routes[j], routes[i]));
            }
        }
    }

    /// Removes every learned route through a node that is no longer a router,
    /// and tells whether there was one.
    pub fn remove_router(&mut self, address: &Ipv6Address) -> (r: bool)
        requires
            old(self).wf(),
        ensures
            r == has_router(old(self)@, *address),
            final(self)@ == router_removed(old(self)@, *address),
            final(self).wf(),
            identities_sorted(old(self)@.routes) ==> identities_sorted(final(self)@.routes),
            none_withdrawn(old(self)@.routes) ==> none_withdrawn(final(self)@.routes),
    {
        let ghost before = self@.routes;
        let old_len = as_slice(&self.routes).len();
        let router = *address;
        let is_elsewhere = |r: &Route| -> (keep: bool)
            ensures
                keep == (r.via_router != router),
        { r.via_router != router };
        retain(&mut self.routes, is_elsewhere);
        let removed = as_slice(&self.routes).len() != old_len;
        proof {
            let keep = |r: Route| r.via_router != *address;
            assert(self@.routes == before.filter(keep));
            lemma_filtered(before, keep, self@.next_route_order);
            let at = lemma_filter_positions(before, keep);
            if exists|i: int|
                0 <= i < before.len() && (#[trigger] before[i]).via_router == *address {
                let i = choose|i: int|
                    0 <= i < before.len() && (#[trigger] before[i]).via_router == *address;
                lemma_filter_drops(before, keep, i);
            } else {
                lemma_filter_all(before, keep);
            }
        }
        if removed {
            self.sync_required = true;
        }
        removed
    }

    /// Whether prefixes or routes have to be brought into use or taken out of
    /// it.
    pub fn sync_required(&self, now: Instant) -> (r: bool)
        ensures
            r == (self@.sync_required || something_expired(self@, now)),
    {
        if self.sync_required {
            return true;
        }
        let entries = map_entries(&self.prefix);
        let mut i: usize = 0;
        while i < entries.len()
            invariant
                i <= entries@.len(),
                entries@ == self@.prefixes,
                forall|k: int| 0 <= k < i ==> (#[trigger] self@.prefixes[k]).1.valid_at(now),
            decreases entries@.len() - i,
        {
            if !entries[i].1.is_valid(now) {
                assert(!self@.prefixes[i as int].1.valid_at(now));
                return true;
            }
            i = i + 1;
        }
        let routes = as_slice(&self.routes);
        let mut i: usize = 0;
        while i < routes.len()
            invariant
                i <= routes@.len(),
                routes@ == self@.routes,
                forall|k: int| 0 <= k < i ==> (#[trigger] self@.routes[k]).valid_at(now),
            decreases routes@.len() - i,
        {
            if !routes[i].is_valid(now) {
                assert(!self@.routes[i as int].valid_at(now));
                return true;
            }
            i = i + 1;
        }
        false
    }

    /// Removes the prefixes and routes that have expired, once all have been
    /// brought into use or taken out of it.
    pub fn update_slaac_state(&mut self, now: Instant)
        requires
            old(self).wf(),
        ensures
            final(self)@ == updated(old(self)@, now),
            final(self).wf(),
            identities_sorted(old(self)@.routes) ==> identities_sorted(final(self)@.routes),
            none_withdrawn(old(self)@.routes) ==> none_withdrawn(final(self)@.routes),
    {
        let ghost start = self@;
        let entries = map_entries(&self.prefix);
        let mut i: usize = 0;
        while i < entries.len()
            invariant
                i <= entries@.len(),
                entries@ == start.prefixes,
                valid_state(start),
                self@ == (State {
                    prefixes: prefixes_pruned(start.prefixes, i as nat, now),
                    ..start
                }),
                valid_state(self@),
            decreases entries@.len() - i,
        {
            let (key, info) = entries[i];
            if !info.is_valid(now) {
                proof {
                    lemma_without_key(self@.prefixes, key);
                }
                let _ = map_remove(&mut self.prefix, &key);
            }
            i = i + 1;
        }
        self.prune_routes(now);
        self.sync_required = false;
    }

    /// Whether a solicitation must be sent.
    pub fn rs_required(&self, now: Instant) -> (r: bool)
        ensures
            r == solicitation_required(self@, now),
    {
        match self.phase {
            Phase::Start | Phase::Discovering => self.retry_rs_at.micros <= now.micros
                && self.num_solicitations > 0,
            _ => false,
        }
    }

    /// Takes note that a solicitation was sent.
    pub fn rs_sent(&mut self, now: Instant)
        requires
            solicitation_due(old(self)@, now) && old(self)@.num_solicitations > 0 ==> now.can_add(
                Duration { micros: 4_000_000 },
            ),
        ensures
            final(self)@ == solicitation_sent(old(self)@, now),
    {
        match self.phase {
            Phase::Start | Phase::Discovering => {
                if self.retry_rs_at.micros <= now.micros {
                    if self.num_solicitations == 0 {
                        self.phase = Phase::Stopped;
                    } else {
                        self.num_solicitations = self.num_solicitations - 1;
                        self.phase = Phase::Discovering;
                        self.retry_rs_at = now + rtr_solicitation_interval();
                    }
                }
            },
            _ => {},
        }
    }

    /// When there is something to do next.
    pub fn poll_at(&self, now: Instant) -> (r: Option<Instant>)
        ensures
            is_next_poll(self@, now, r),
    {
        if self.sync_required(now) {
            return Some(now);
        }
        match self.phase {
            Phase::Start | Phase::Discovering => Some(self.retry_rs_at),
            Phase::Maintaining => self.first_deadline(now),
            Phase::Stopped => None,
        }
    }

    /// The first of the deadlines.
    fn first_deadline(&self, now: Instant) -> (r: Option<Instant>)
        ensures
            is_first_deadline(self@, now, r),
    {
        let mut first: Option<Instant> = None;
        let entries = map_entries(&self.prefix);
        let mut i: usize = 0;
        while i < entries.len()
            invariant
                i <= entries@.len(),
                entries@ == self@.prefixes,
                match first {
                    Some(t) => is_deadline(self@, now, t),
                    None => true,
                },
                forall|k: int|
                    0 <= k < i && (#[trigger] self@.prefixes[k]).1.valid_at(now) ==> (
                    first matches Some(t) && t.micros <= self@.prefixes[k].1.valid_until.micros),
            decreases entries@.len() - i,
        {
            let info = entries[i].1;
            if info.is_valid(now) {
                assert(self@.prefixes[i as int].1 == info);
                assert(is_deadline(self@, now, info.valid_until));
                first = earlier(first, info.valid_until);
            }
            i = i + 1;
        }
        let routes = as_slice(&self.routes);
        let mut i: usize = 0;
        while i < routes.len()
            invariant
                i <= routes@.len(),
                routes@ == self@.routes,
                match first {
                    Some(t) => is_deadline(self@, now, t),
                    None => true,
                },
                forall|k: int|
                    0 <= k < self@.prefixes.len() && (#[trigger] self@.prefixes[k]).1.valid_at(now)
                        ==> (first matches Some(t) && t.micros
                        <= self@.prefixes[k].1.valid_until.micros),
                forall|k: int|
                    0 <= k < i && (#[trigger] self@.routes[k]).valid_at(now)
                        && self@.routes[k].valid_until is Some ==> (first matches Some(t)
                        && t.micros <= self@.routes[k].valid_until->0.micros),
            decreases routes@.len() - i,
        {
            let route = routes[i];
            if route.is_valid(now) {
                if let Some(t) = route.valid_until {
                    assert(self@.routes[i as int] == route);
                    assert(is_deadline(self@, now, t));
                    first = earlier(first, t);
                }
            }
            i = i + 1;
        }
        first
    }
}

/// The earlier of two points in time.
fn earlier(a: Option<Instant>, b: Instant) -> (r: Option<Instant>)
    ensures
        r == match a {
            Some(t) if t.micros <= b.micros => Some(t),
            _ => Some(b),
        },
{
    match a {
        Some(t) if t.micros <= b.micros => Some(t),
        _ => Some(b),
    }
}

/// A filter that drops an element leaves fewer.
pub(crate) proof fn lemma_filter_drops(routes: Seq<Route>, keep: spec_fn(Route) -> bool, i: int)
    requires
        0 <= i < routes.len(),
        !keep(routes[i]),
    ensures
        routes.filter(keep).len() < routes.len(),
    decreases routes.len(),
{
    reveal(Seq::filter);
    let first = routes.drop_last();
    if i < first.len() {
        assert(first[i] == routes[i]);
        lemma_filter_drops(first, keep, i);
    } else {
        first.lemma_filter_len(keep);
    }
}

/// Another order of the routes leaves their prefixes and routers distinct.
pub(crate) proof fn lemma_permuted_identities(a: Seq<Route>, b: Seq<Route>)
    requires
        identities_distinct(a),
        a.to_multiset() == b.to_multiset(),
    ensures
        identities_distinct(b),
{
    broadcast use vstd::seq_lib::group_to_multiset_ensures;

    assert(a.no_duplicates()) by {
        assert forall|i: int, j: int| 0 <= i < j < a.len() implies a[i] != a[j] by {
            assert(a[i].identity() != a[j].identity());
        }
    }
    a.lemma_multiset_has_no_duplicates();
    assert forall|x: Route| b.to_multiset().contains(x) implies b.to_multiset().count(x) == 1 by {
        assert(a.to_multiset().contains(x));
    }
    b.lemma_multiset_has_no_duplicates_conv();
    assert forall|i: int| 0 <= i < b.len() implies a.contains(#[trigger] b[i]) by {
        assert(b.contains(b[i]));
        assert(b.to_multiset().count(b[i]) > 0);
    }
    assert forall|i: int, j: int| 0 <= i < j < b.len() implies (#[trigger] b[i]).identity() != (
    #[trigger] b[j]).identity() by {
        assert(b[i] != b[j]);
        let x = choose|x: int| 0 <= x < a.len() && a[x] == b[i];
        let y = choose|y: int| 0 <= y < a.len() && a[y] == b[j];
        assert(a.contains(b[i]) && a.contains(b[j]));
        if x < y {
            assert(a[x].identity() != a[y].identity());
        } else {
            assert(a[y].identity() != a[x].identity());
        }
    }
}

/// Another order of the routes leaves them distinct.
proof fn lemma_permuted(a: Seq<Route>, b: Seq<Route>, next: u32)
    requires
        identities_distinct(a),
        orders_distinct(a, next),
        a.to_multiset() == b.to_multiset(),
    ensures
        a.len() == b.len(),
        identities_distinct(b),
        orders_distinct(b, next),
        none_withdrawn(a) ==> none_withdrawn(b),
{
    broadcast use vstd::seq_lib::group_to_multiset_ensures;

    assert(a.len() == a.to_multiset().len());
    assert(b.len() == b.to_multiset().len());
    assert(a.no_duplicates()) by {
        assert forall|i: int, j: int| 0 <= i < j < a.len() implies a[i] != a[j] by {
            assert(a[i].identity() != a[j].identity());
        }
    }
    a.lemma_multiset_has_no_duplicates();
    assert forall|x: Route| b.to_multiset().contains(x) implies b.to_multiset().count(x) == 1 by {
        assert(a.to_multiset().contains(x));
    }
    b.lemma_multiset_has_no_duplicates_conv();
    assert forall|i: int| 0 <= i < b.len() implies a.contains(#[trigger] b[i]) by {
        assert(b.contains(b[i]));
        assert(b.to_multiset().count(b[i]) > 0);
    }
    assert forall|i: int, j: int| 0 <= i < j < b.len() implies (#[trigger] b[i]).identity() != (
    #[trigger] b[j]).identity() by {
        assert(b[i] != b[j]);
        let x = choose|x: int| 0 <= x < a.len() && a[x] == b[i];
        let y = choose|y: int| 0 <= y < a.len() && a[y] == b[j];
        assert(a.contains(b[i]) && a.contains(b[j]));
        if x < y {
            assert(a[x].identity() != a[y].identity());
        } else {
            assert(a[y].identity() != a[x].identity());
        }
    }
    assert forall|i: int| 0 <= i < b.len() implies (#[trigger] b[i]).withdrawn() || b[i].order
        < next by {
        let x = choose|x: int| 0 <= x < a.len() && a[x] == b[i];
        assert(a.contains(b[i]));
        assert(a[x].withdrawn() || a[x].order < next);
    }
    assert forall|i: int, j: int| 0 <= i < j < b.len() && !(
    #[trigger] b[i]).withdrawn() implies b[i].order != (#[trigger] b[j]).order by {
        assert(b[i] != b[j]);
        let x = choose|x: int| 0 <= x < a.len() && a[x] == b[i];
        let y = choose|y: int| 0 <= y < a.len() && a[y] == b[j];
        assert(a.contains(b[i]) && a.contains(b[j]));
        if x < y {
            assert(a[x].order != a[y].order);
        } else {
            assert(a[y].withdrawn() || a[y].order != a[x].order);
        }
    }
    if none_withdrawn(a) {
        assert forall|i: int| 0 <= i < b.len() implies !(#[trigger] b[i]).withdrawn() by {
            let x = choose|x: int| 0 <= x < a.len() && a[x] == b[i];
            assert(a.contains(b[i]));
            assert(!a[x].withdrawn());
        }
    }
}

/// Changing a route but for its prefix and router keeps the routes in order.
proof fn lemma_updated(routes: Seq<Route>, i: int, route: Route, next: u32)
    requires
        identities_sorted(routes),
        0 <= i < routes.len(),
        route.identity() == routes[i].identity(),
        forall|k: int|
            0 <= k < routes.len() ==> (#[trigger] routes[k]).withdrawn() || routes[k].order < next,
        forall|k: int, m: int|
            0 <= k < m < routes.len() && !(#[trigger] routes[k]).withdrawn() ==> routes[k].order
                != (#[trigger] routes[m]).order,
        route.withdrawn() || route.order < next,
        !route.withdrawn() ==> forall|k: int|
            0 <= k < routes.len() && k != i ==> (#[trigger] routes[k]).order != route.order,
    ensures
        identities_sorted(routes.update(i, route)),
        orders_distinct(routes.update(i, route), next),
        none_withdrawn(routes) && !route.withdrawn() ==> none_withdrawn(routes.update(i, route)),
{
    let all = routes.update(i, route);
    assert forall|a: int, b: int| 0 <= a < b < all.len() implies identity_before(
        (#[trigger] all[a]).identity(),
        (#[trigger] all[b]).identity(),
    ) by {
        assert(identity_before(routes[a].identity(), routes[b].identity()));
    }
    assert forall|a: int, b: int| 0 <= a < b < all.len() && !(
    #[trigger] all[a]).withdrawn() implies all[a].order != (#[trigger] all[b]).order by {
        let _ = routes[a].order;
        let _ = routes[b].order;
        assert(routes[a].withdrawn() || routes[a].order < next);
        assert(routes[b].withdrawn() || routes[b].order < next);
    }
    assert forall|a: int| 0 <= a < all.len() implies (#[trigger] all[a]).withdrawn() || all[a].order
        < next by {
        assert(routes[a].withdrawn() || routes[a].order < next);
    }
}

/// Routes with the same prefixes and routers are in the same order.
proof fn lemma_same_identities(a: Seq<Route>, b: Seq<Route>)
    requires
        a.len() == b.len(),
        forall|i: int| 0 <= i < a.len() ==> (#[trigger] b[i]).identity() == a[i].identity(),
    ensures
        identities_sorted(a) ==> identities_sorted(b),
        identities_distinct(a) ==> identities_distinct(b),
        forall|id: Identity| has_identity(b, id) ==> #[trigger] has_identity(a, id),
{
    assert forall|id: Identity| has_identity(b, id) implies #[trigger] has_identity(a, id) by {
        let i = choose|i: int| 0 <= i < b.len() && (#[trigger] b[i]).identity() == id;
        assert(a[i].identity() == id);
    }
}

/// Routes in order split into those before and those behind a new one.
proof fn lemma_identities_split(routes: Seq<Route>, id: Identity)
    requires
        identities_sorted(routes),
        !has_identity(routes, id),
    ensures
        identities_before(routes, id) <= routes.len(),
        forall|k: int|
            0 <= k < identities_before(routes, id) ==> identity_before(
                (#[trigger] routes[k]).identity(),
                id,
            ),
        forall|k: int|
            identities_before(routes, id) <= k < routes.len() ==> identity_before(
                id,
                (#[trigger] routes[k]).identity(),
            ),
    decreases routes.len(),
{
    if routes.len() > 0 {
        let first = routes.drop_last();
        let n = routes.len() - 1;
        assert forall|k: int| 0 <= k < n implies first[k] == #[trigger] routes[k] by {}
        assert(identities_sorted(first)) by {
            assert forall|i: int, j: int| 0 <= i < j < first.len() implies identity_before(
                (#[trigger] first[i]).identity(),
                (#[trigger] first[j]).identity(),
            ) by {
                assert(identity_before(routes[i].identity(), routes[j].identity()));
            }
        }
        assert(!has_identity(first, id)) by {
            if has_identity(first, id) {
                let i = choose|i: int|
                    0 <= i < first.len() && (#[trigger] first[i]).identity() == id;
                assert(routes[i].identity() == id);
            }
        }
        lemma_identities_split(first, id);
        let m = identities_before(first, id) as int;
        assert(routes[n].identity() != id);
        if identity_before(routes[n].identity(), id) {
            if m < n {
                assert(identity_before(id, first[m].identity()));
                assert(identity_before(routes[m].identity(), routes[n].identity()));
            }
        }
        assert forall|k: int| 0 <= k < identities_before(routes, id) implies identity_before(
            (#[trigger] routes[k]).identity(),
            id,
        ) by {
            if k < n {
                assert(first[k] == routes[k]);
            }
        }
        assert forall|k: int|
            identities_before(routes, id) <= k < routes.len() implies identity_before(
            id,
            (#[trigger] routes[k]).identity(),
        ) by {
            if k < n {
                assert(first[k] == routes[k]);
            }
        }
    }
}

/// Among the first routes, one that qualifies is the least useful, if any does.
proof fn lemma_least_so_far(
    routes: Seq<Route>,
    incoming: Route,
    only_dispensable: bool,
    n: int,
) -> (best: Option<usize>)
    requires
        0 <= n <= routes.len() <= SLAAC_ROUTE_CANDIDATE_COUNT,
    ensures
        least_so_far(routes, incoming, only_dispensable, n, best),
    decreases n,
{
    if n == 0 {
        None
    } else {
        let k = (n - 1) as usize;
        let best = lemma_least_so_far(routes, incoming, only_dispensable, n - 1);
        if only_dispensable && !dispensable(routes, incoming, k as int) {
            best
        } else {
            match best {
                Some(b) if !routes[k as int].less_useful(routes[b as int]) => Some(b),
                _ => Some(k),
            }
        }
    }
}

/// Some route is the least useful of those that may leave.
pub(crate) proof fn lemma_least_useful_exists(routes: Seq<Route>, incoming: Route)
    requires
        0 < routes.len() <= SLAAC_ROUTE_CANDIDATE_COUNT,
    ensures
        exists|i: int|
            is_least_useful(routes, incoming, some_dispensable(routes, incoming), i),
{
    let spare = some_dispensable(routes, incoming);
    let best = lemma_least_so_far(routes, incoming, spare, routes.len() as int);
    if spare {
        let i = choose|i: int| 0 <= i < routes.len() && #[trigger] dispensable(routes, incoming, i);
        assert(dispensable(routes, incoming, i));
    }
    assert(is_least_useful(routes, incoming, spare, best->0 as int));
}

/// The route that leaves is one of the routes, and the least useful of those
/// that may leave.
pub(crate) proof fn lemma_victim(routes: Seq<Route>, incoming: Route)
    requires
        routes.len() <= SLAAC_ROUTE_CANDIDATE_COUNT,
    ensures
        victim(routes, incoming) matches Some(v) ==> is_least_useful(
            routes,
            incoming,
            some_dispensable(routes, incoming),
            v,
        ),
{
    if routes.len() > 0 {
        let spare = some_dispensable(routes, incoming);
        let best = lemma_least_so_far(routes, incoming, spare, routes.len() as int);
        if spare {
            let i = choose|i: int|
                0 <= i < routes.len() && #[trigger] dispensable(routes, incoming, i);
            assert(dispensable(routes, incoming, i));
        }
        assert(is_least_useful(routes, incoming, spare, best->0 as int));
    }
}

/// Advertising a route keeps the state valid and in order.
pub(crate) proof fn lemma_route_advertised(
    s: State,
    cidr: Ipv6Cidr,
    router: Ipv6Address,
    preference: NdiscRoutePreference,
    valid_until: Option<Instant>,
)
    requires
        valid_state(s),
        identities_sorted(s.routes),
    ensures
        valid_state(route_advertised(s, cidr, router, preference, valid_until)),
        identities_sorted(route_advertised(s, cidr, router, preference, valid_until).routes),
{
    let id: Identity = (cidr, router);
    let r = route_advertised(s, cidr, router, preference, valid_until);
    if has_identity(s.routes, id) {
        let i = identity_index(s.routes, id);
        assert(s.routes[i].identity() == id);
        lemma_with_spare_order(s);
        let t = if s.routes[i].withdrawn() {
            with_spare_order(s)
        } else {
            s
        };
        lemma_same_identities(s.routes, t.routes);
        lemma_updated(t.routes, i, r.routes[i], r.next_route_order);
    } else {
        let purged = State { routes: live(s.routes), ..s };
        lemma_filtered(s.routes, |r: Route| !r.withdrawn(), s.next_route_order);
        assert(!has_identity(purged.routes, id));
        lemma_with_spare_order(purged);
        let t = with_spare_order(purged);
        lemma_same_identities(purged.routes, t.routes);
        assert(!has_identity(t.routes, id));
        let order = t.next_route_order;
        let route = Route { cidr, via_router: router, valid_until, preference, order };
        if t.routes.len() < SLAAC_ROUTE_CANDIDATE_COUNT {
            lemma_identities_split(t.routes, id);
            lemma_inserted(
                t.routes,
                route,
                identities_before(t.routes, id) as int,
                r.next_route_order,
            );
        } else {
            lemma_victim(t.routes, route);
            if let Some(v) = victim(t.routes, route) {
                let rest = t.routes.remove(v);
                lemma_removed(t.routes, v, order);
                assert(!has_identity(rest, id));
                lemma_identities_split(rest, id);
                lemma_inserted(
                    rest,
                    route,
                    identities_before(rest, id) as int,
                    r.next_route_order,
                );
            }
        }
    }
    lemma_sorted_distinct(r.routes);
}

/// Withdrawing a route keeps the state valid and in order.
pub(crate) proof fn lemma_route_withdrawn(s: State, id: Identity)
    requires
        valid_state(s),
        identities_sorted(s.routes),
    ensures
        valid_state(route_withdrawn(s, id)),
        identities_sorted(route_withdrawn(s, id).routes),
        has_identity(route_withdrawn(s, id).routes, id) ==> route_withdrawn(
            s,
            id,
        ).routes[identity_index(route_withdrawn(s, id).routes, id)].withdrawn(),
{
    let t = route_withdrawn(s, id);
    if has_identity(s.routes, id) {
        let i = identity_index(s.routes, id);
        assert(s.routes[i].identity() == id);
        if !s.routes[i].withdrawn() {
            lemma_updated(s.routes, i, t.routes[i], s.next_route_order);
            lemma_sorted_distinct(t.routes);
        }
        assert(t.routes[i].identity() == id && t.routes[i].withdrawn());
        let k = identity_index(t.routes, id);
        assert(t.routes[k].identity() == id);
        if i < k {
            assert(t.routes[i].identity() != t.routes[k].identity());
        } else if k < i {
            assert(t.routes[k].identity() != t.routes[i].identity());
        }
    }
}

/// Processing the routes of an advertisement in turn keeps the state valid and
/// in order.
pub(crate) proof fn lemma_infos_processed(
    s: State,
    source: Ipv6Address,
    infos: Seq<NdiscRouteInformation>,
    now: Instant,
)
    requires
        valid_state(s),
        identities_sorted(s.routes),
    ensures
        valid_state(infos_processed(s, source, infos, now)),
        identities_sorted(infos_processed(s, source, infos, now).routes),
    decreases infos.len(),
{
    if infos.len() > 0 {
        lemma_infos_processed(s, source, infos.drop_last(), now);
        let t = infos_processed(s, source, infos.drop_last(), now);
        let info = infos.last();
        let cidr = Ipv6Cidr { address: info.prefix, prefix_len: info.prefix_len };
        lemma_route_advertised(t, cidr, source, info.preference, route_deadline(info, now));
        lemma_route_withdrawn(t, (cidr, source));
    }
}

/// Processing the prefix of an advertisement keeps the state valid and in order.
pub(crate) proof fn lemma_prefix_processed(
    s: State,
    prefix: Option<NdiscPrefixInformation>,
    now: Instant,
)
    requires
        valid_state(s),
        identities_sorted(s.routes),
    ensures
        valid_state(prefix_processed(routes_pruned(s, now), prefix, now)),
        identities_sorted(prefix_processed(routes_pruned(s, now), prefix, now).routes),
{
    let p = routes_pruned(s, now);
    lemma_filtered(s.routes, |r: Route| r.valid_at(now), s.next_route_order);
    if configures(prefix) {
        let x = prefix->0;
        let key = key_of(Ipv6Cidr { address: x.prefix, prefix_len: x.prefix_len });
        let never = Instant { micros: 0 };
        if has_key(p.prefixes, key) {
            lemma_with_value(p.prefixes, key, PrefixInfo::of_prefix(x, now));
            lemma_with_value(
                p.prefixes,
                key,
                PrefixInfo { preferred_until: never, valid_until: never },
            );
        } else {
            lemma_push_key(p.prefixes, key, PrefixInfo::of_prefix(x, now));
        }
    }
}

/// What comes before the routes of an advertisement keeps the state valid and
/// in order.
pub(crate) proof fn lemma_header_processed(
    s: State,
    source: Ipv6Address,
    lifetime: Duration,
    preference: NdiscRoutePreference,
    prefix: Option<NdiscPrefixInformation>,
    now: Instant,
)
    requires
        valid_state(s),
        identities_sorted(s.routes),
    ensures
        ({
            let a = prefix_processed(routes_pruned(s, now), prefix, now);
            let b = header_processed(a, source, lifetime, preference, now);
            valid_state(b) && identities_sorted(b.routes)
        }),
{
    let a = prefix_processed(routes_pruned(s, now), prefix, now);
    lemma_prefix_processed(s, prefix, now);
    lemma_route_advertised(a, ipv6_default(), source, preference, Some(now.after(lifetime)));
    lemma_route_withdrawn(a, (ipv6_default(), source));
}

} // verus!
