//! The choice of a route among configured and learned ones, and the public
//! table that the choice is made from.

use vstd::prelude::*;
use crate::iface::ownership::law_no_candidate_beyond_the_room;
use crate::iface::route::{
    asked_while_room, identity_before, reconciled, routes_of, LearnedRoute, Route as InterfaceRoute, Routes, Slot,
};
use crate::iface::slaac::{
    candidate, identities_sorted, offered_before, Route, Slaac,
};
use crate::sequences::in_order;
use crate::time::Instant;
use crate::wire::ip::{IpAddress, Ipv6Address};

verus! {

/// The route that was chosen.
#[derive(Debug, Clone, Copy, PartialEq, Eq, Structural)]
pub enum SelectedRoute {
    Configured(InterfaceRoute),
    Learned(LearnedRoute),
}

/// The outcome of a choice among configured and learned routes.
#[derive(Debug, Clone, Copy, PartialEq, Eq, Structural)]
pub struct RouteSelection {
    /// The router to hand a packet to.
    pub next_hop: Option<IpAddress>,
    /// The route that was chosen.
    pub selected: Option<SelectedRoute>,
    /// Whether the route leads through a router that cannot be reached.
    pub selected_is_unreachable: bool,
}

impl SelectedRoute {
    /// The router of the route.
    pub open spec fn router(self) -> IpAddress {
        match self {
            SelectedRoute::Configured(route) => route.via_router,
            SelectedRoute::Learned(route) => IpAddress::Ipv6(route.via_router),
        }
    }
}

impl LearnedRoute {
    /// Whether the route has not expired.
    pub open spec fn valid_at(self, now: Instant) -> bool {
        self.valid_until matches Some(t) ==> t.micros > now.micros
    }

    /// Whether the route is to be chosen rather than another one: its prefix is
    /// longer; or, that being equal, its preference is stronger; or, that being
    /// equal too, it arrived earlier.
    pub open spec fn better(self, other: LearnedRoute) -> bool {
        ||| self.cidr.prefix_len > other.cidr.prefix_len
        ||| self.cidr.prefix_len == other.cidr.prefix_len && self.preference.rank_of()
            > other.preference.rank_of()
        ||| self.cidr.prefix_len == other.cidr.prefix_len && self.preference.rank_of()
            == other.preference.rank_of() && self.order < other.order
    }

    /// Whether the route has not expired.
    fn is_valid(&self, now: Instant) -> (r: bool)
        ensures
            r == self.valid_at(now),
    {
        match self.valid_until {
            Some(t) => t.micros > now.micros,
            None => true,
        }
    }

    /// Whether the route is to be chosen rather than another one.
    fn is_better(&self, other: &LearnedRoute) -> (r: bool)
        ensures
            r == self.better(*other),
    {
        if self.cidr.prefix_len != other.cidr.prefix_len {
            self.cidr.prefix_len > other.cidr.prefix_len
        } else if self.preference.rank() != other.preference.rank() {
            self.preference.rank() > other.preference.rank()
        } else {
            self.order < other.order
        }
    }
}

/// The learned route that a slot holds.
pub open spec fn learned_in(slot: Slot) -> LearnedRoute {
    let id = slot.route.identity()->0;
    LearnedRoute {
        cidr: id.0,
        via_router: id.1,
        valid_until: slot.route.expires_at,
        preference: slot.learned->0.preference,
        order: slot.learned->0.order,
    }
}

/// Whether a slot holds a configured route that leads to the destination.
pub open spec fn configured_leads(slot: Slot, destination: Ipv6Address, now: Instant) -> bool {
    slot.learned is None && slot.route.leads_to(IpAddress::Ipv6(destination), now)
}

/// Whether a slot holds a learned route that leads to the destination.
pub open spec fn learned_leads(slot: Slot, destination: Ipv6Address, now: Instant) -> bool {
    slot.learned is Some && learned_in(slot).valid_at(now) && slot.route.cidr.contains(
        IpAddress::Ipv6(destination),
    )
}

/// Whether slot `i` holds the best configured route to the destination: the
/// last of those with the longest prefix.
pub open spec fn is_best_configured(
    slots: Seq<Slot>,
    destination: Ipv6Address,
    now: Instant,
    i: int,
) -> bool {
    &&& 0 <= i < slots.len()
    &&& configured_leads(slots[i], destination, now)
    &&& forall|j: int|
        0 <= j < slots.len() && configured_leads(#[trigger] slots[j], destination, now) ==> {
            ||| slots[j].route.cidr.len_of_prefix() < slots[i].route.cidr.len_of_prefix()
            ||| slots[j].route.cidr.len_of_prefix() == slots[i].route.cidr.len_of_prefix() && j
                <= i
        }
}

/// Whether slot `i` holds the best learned route to the destination, leaving
/// out those whose slots are skipped.
pub open spec fn is_best_learned(
    slots: Seq<Slot>,
    destination: Ipv6Address,
    now: Instant,
    skipped: Seq<bool>,
    i: int,
) -> bool {
    &&& 0 <= i < slots.len()
    &&& learned_leads(slots[i], destination, now)
    &&& !skipped[i]
    &&& forall|j: int|
        0 <= j < slots.len() && learned_leads(#[trigger] slots[j], destination, now) && !skipped[j]
            ==> {
            ||| learned_in(slots[i]).better(learned_in(slots[j]))
            ||| !learned_in(slots[j]).better(learned_in(slots[i])) && i <= j
        }
}

/// The best configured route to the destination.
pub open spec fn best_configured(
    slots: Seq<Slot>,
    destination: Ipv6Address,
    now: Instant,
) -> Option<InterfaceRoute> {
    if exists|i: int| is_best_configured(slots, destination, now, i) {
        Some(slots[choose|i: int| is_best_configured(slots, destination, now, i)].route)
    } else {
        None
    }
}

/// The best learned route to the destination, leaving out those whose slots are
/// skipped.
pub open spec fn best_learned(
    slots: Seq<Slot>,
    destination: Ipv6Address,
    now: Instant,
    skipped: Seq<bool>,
) -> Option<LearnedRoute> {
    if exists|i: int| is_best_learned(slots, destination, now, skipped, i) {
        Some(
            learned_in(slots[choose|i: int| is_best_learned(slots, destination, now, skipped, i)]),
        )
    } else {
        None
    }
}

/// Whether a learned route that has not expired leads through the node.
pub open spec fn learned_through(slots: Seq<Slot>, address: Ipv6Address, now: Instant) -> bool {
    exists|i: int|
        0 <= i < slots.len() && (#[trigger] slots[i]).learned is Some && learned_in(
            slots[i],
        ).valid_at(now) && learned_in(slots[i]).via_router == address
}

/// No slot skipped.
pub open spec fn none_skipped(slots: Seq<Slot>) -> Seq<bool> {
    Seq::new(slots.len(), |i: int| false)
}

/// The choice between the best configured route, the best learned one, and the
/// best learned one through a router that can be reached.
///
/// A configured route wins unless a learned one with a longer prefix can be
/// used. A learned route through a router that cannot be reached is chosen only
/// where there is nothing else.
pub open spec fn selection(
    configured: Option<InterfaceRoute>,
    learned: Option<LearnedRoute>,
    reachable: Option<LearnedRoute>,
) -> RouteSelection {
    let usable = match (configured, reachable) {
        (Some(c), Some(l)) if l.cidr.prefix_len > c.cidr.len_of_prefix() => Some(
            SelectedRoute::Learned(l),
        ),
        (Some(c), _) => Some(SelectedRoute::Configured(c)),
        (None, Some(l)) => Some(SelectedRoute::Learned(l)),
        (None, None) => None,
    };
    let selected = match (usable, learned) {
        (Some(s), _) => Some(s),
        (None, Some(l)) => Some(SelectedRoute::Learned(l)),
        (None, None) => None,
    };
    RouteSelection {
        next_hop: match selected {
            Some(s) => Some(s.router()),
            None => None,
        },
        selected,
        selected_is_unreachable: usable is None && learned is Some,
    }
}

/// The choice of a route to a destination from the slots of a table, given which
/// of them lead through routers that cannot be reached.
pub open spec fn routed(
    slots: Seq<Slot>,
    destination: Ipv6Address,
    now: Instant,
    unreachable: Seq<bool>,
) -> RouteSelection {
    selection(
        best_configured(slots, destination, now),
        best_learned(slots, destination, now, none_skipped(slots)),
        best_learned(slots, destination, now, unreachable),
    )
}

/// Whether a learned route that was passed over would be chosen, were its
/// router to be reached again.
pub open spec fn worth_probing(selection: RouteSelection, route: LearnedRoute) -> bool {
    match selection.selected {
        None => false,
        Some(SelectedRoute::Configured(c)) => c.via_router != IpAddress::Ipv6(route.via_router) && (
        selection.selected_is_unreachable || route.cidr.prefix_len > c.cidr.len_of_prefix()),
        Some(SelectedRoute::Learned(l)) => l.via_router != route.via_router && (
        selection.selected_is_unreachable || route.better(l)),
    }
}

/// The routers of the learned routes to the destination that are worth probing,
/// in the order of the table.
pub open spec fn probes(
    slots: Seq<Slot>,
    destination: Ipv6Address,
    now: Instant,
    selection: RouteSelection,
) -> Seq<Ipv6Address>
    decreases slots.len(),
{
    if slots.len() == 0 {
        Seq::empty()
    } else {
        let rest = probes(slots.drop_last(), destination, now, selection);
        let s = slots.last();
        if learned_leads(s, destination, now) && worth_probing(selection, learned_in(s)) {
            rest.push(learned_in(s).via_router)
        } else {
            rest
        }
    }
}

/// Chooses between the best configured route, the best learned one, and the
/// best learned one through a router that can be reached.
pub fn select_route(
    configured: Option<InterfaceRoute>,
    learned: Option<LearnedRoute>,
    reachable: Option<LearnedRoute>,
) -> (r: RouteSelection)
    ensures
        r == selection(configured, learned, reachable),
{
    let usable = match (configured, reachable) {
        (Some(c), Some(l)) if l.cidr.prefix_len > c.cidr.prefix_len() => Some(
            SelectedRoute::Learned(l),
        ),
        (Some(c), _) => Some(SelectedRoute::Configured(c)),
        (None, Some(l)) => Some(SelectedRoute::Learned(l)),
        (None, None) => None,
    };
    let selected_is_unreachable = usable.is_none() && learned.is_some();
    let selected = match (usable, learned) {
        (Some(s), _) => Some(s),
        (None, Some(l)) => Some(SelectedRoute::Learned(l)),
        (None, None) => None,
    };
    let next_hop = match selected {
        Some(SelectedRoute::Configured(route)) => Some(route.via_router),
        Some(SelectedRoute::Learned(route)) => Some(IpAddress::Ipv6(route.via_router)),
        None => None,
    };
    RouteSelection { next_hop, selected, selected_is_unreachable }
}

/// What the table knows of the learned route of a slot.
fn learned_at(routes: &Routes, i: usize) -> (r: Option<LearnedRoute>)
    requires
        routes.wf(),
        i < routes@.len(),
    ensures
        r is Some <==> routes@[i as int].learned is Some,
        r matches Some(l) ==> l == learned_in(routes@[i as int]),
{
    proof {
        routes.law_slots_are_valid();
        routes.lemma_learned_at(i as int);
    }
    routes.learned(&routes.iter()[i])
}

/// Whether `best` is the best configured route of the first `n` slots.
spec fn configured_so_far(
    slots: Seq<Slot>,
    destination: Ipv6Address,
    now: Instant,
    n: int,
    best: Option<usize>,
) -> bool {
    match best {
        Some(b) => b < n && is_best_configured(slots.take(n), destination, now, b as int),
        None => forall|j: int|
            0 <= j < n ==> !configured_leads(#[trigger] slots[j], destination, now),
    }
}

/// Whether `best` is the best learned route of the first `n` slots.
spec fn learned_so_far(
    slots: Seq<Slot>,
    destination: Ipv6Address,
    now: Instant,
    skipped: Seq<bool>,
    n: int,
    best: Option<usize>,
) -> bool {
    match best {
        Some(b) => b < n && is_best_learned(slots.take(n), destination, now, skipped, b as int),
        None => forall|j: int|
            0 <= j < n && learned_leads(#[trigger] slots[j], destination, now) ==> skipped[j],
    }
}

impl Slaac {
    /// The best configured route to a destination, the best learned one, and
    /// the best learned one through a router that can be reached.
    fn route_candidates<F: Fn(&Ipv6Address) -> bool>(
        routes: &Routes,
        destination: &Ipv6Address,
        now: Instant,
        is_unreachable: F,
    ) -> (r: (Option<InterfaceRoute>, Option<LearnedRoute>, Option<LearnedRoute>))
        requires
            routes.wf(),
            forall|a: &Ipv6Address| #[trigger] call_requires(is_unreachable, (a,)),
        ensures
            r.0 == best_configured(routes@, *destination, now),
            r.1 == best_learned(routes@, *destination, now, none_skipped(routes@)),
            exists|unreachable: Seq<bool>| #[trigger]
                answers(routes@, *destination, now, is_unreachable, unreachable) && r.2
                    == best_learned(routes@, *destination, now, unreachable),
    {
        let table = routes.iter();
        let ghost slots = routes@;
        let ghost none = none_skipped(slots);
        let ghost mut unreachable: Seq<bool> = Seq::empty();
        let target = IpAddress::Ipv6(*destination);
        let mut configured: Option<usize> = None;
        let mut best: Option<usize> = None;
        let mut reachable: Option<usize> = None;
        let mut i: usize = 0;
        while i < table.len()
            invariant
                i <= table@.len(),
                routes.wf(),
                slots == routes@,
                table@ == routes_of(slots),
                none == none_skipped(slots),
                target == IpAddress::Ipv6(*destination),
                unreachable.len() == i,
                forall|a: &Ipv6Address| #[trigger] call_requires(is_unreachable, (a,)),
                forall|k: int|
                    0 <= k < i && learned_leads(#[trigger] slots[k], *destination, now)
                        ==> call_ensures(
                        is_unreachable,
                        (&learned_in(slots[k]).via_router,),
                        unreachable[k],
                    ),
                configured_so_far(slots, *destination, now, i as int, configured),
                learned_so_far(slots, *destination, now, none, i as int, best),
                learned_so_far(slots, *destination, now, unreachable, i as int, reachable),
            decreases table@.len() - i,
        {
            let route = table[i];
            let ghost before = unreachable;
            let ghost mut verdict = false;
            proof {
                assert(slots[i as int].route == route);
                assert forall|k: int| 0 <= k < i implies slots.take(i as int)[k]
                    == #[trigger] slots.take(i + 1)[k] by {}
                assert(slots.take(i + 1)[i as int] == slots[i as int]);
            }
            match learned_at(routes, i) {
                None => {
                    let expired = match route.expires_at {
                        Some(t) => now.micros > t.micros,
                        None => false,
                    };
                    if !expired && route.cidr.contains_addr(&target) {
                        assert(configured_leads(slots[i as int], *destination, now));
                        match configured {
                            Some(c) if table[c].cidr.prefix_len() > route.cidr.prefix_len() => {
                                assert(slots[c as int].route == table@[c as int]);
                            },
                            Some(c) => {
                                assert(slots[c as int].route == table@[c as int]);
                                configured = Some(i);
                            },
                            None => {
                                configured = Some(i);
                            },
                        }
                    }
                },
                Some(l) => {
                    if l.is_valid(now) && route.cidr.contains_addr(&target) {
                        assert(learned_leads(slots[i as int], *destination, now));
                        let better = match best {
                            Some(b) => match learned_at(routes, b) {
                                Some(current) => l.is_better(&current),
                                None => true,
                            },
                            None => true,
                        };
                        if better {
                            best = Some(i);
                        }
                        let skip = is_unreachable(&l.via_router);
                        proof {
                            verdict = skip;
                        }
                        if !skip {
                            let better = match reachable {
                                Some(b) => match learned_at(routes, b) {
                                    Some(current) => l.is_better(&current),
                                    None => true,
                                },
                                None => true,
                            };
                            if better {
                                reachable = Some(i);
                            }
                        }
                    }
                },
            }
            proof {
                unreachable = unreachable.push(verdict);
                assert forall|k: int| 0 <= k < i implies before[k] == #[trigger] unreachable[k] by {}
            }
            i = i + 1;
        }
        proof {
            assert(slots.take(i as int) =~= slots);
            assert(answers(slots, *destination, now, is_unreachable, unreachable));
            lemma_best_configured(slots, *destination, now, configured);
            lemma_best_learned(slots, *destination, now, none, best);
            lemma_best_learned(slots, *destination, now, unreachable, reachable);
        }
        let configured = match configured {
            Some(c) => Some(table[c]),
            None => None,
        };
        let best = match best {
            Some(b) => learned_at(routes, b),
            None => None,
        };
        let reachable = match reachable {
            Some(b) => learned_at(routes, b),
            None => None,
        };
        (configured, best, reachable)
    }

    /// Chooses the route to a destination from the public table.
    pub fn lookup_route<F: Fn(&Ipv6Address) -> bool>(
        &self,
        routes: &Routes,
        destination: &Ipv6Address,
        now: Instant,
        is_unreachable: F,
    ) -> (r: RouteSelection)
        requires
            routes.wf(),
            forall|a: &Ipv6Address| #[trigger] call_requires(is_unreachable, (a,)),
        ensures
            exists|unreachable: Seq<bool>| #[trigger]
                answers(routes@, *destination, now, is_unreachable, unreachable) && r == routed(
                    routes@,
                    *destination,
                    now,
                    unreachable,
                ),
    {
        let (configured, learned, reachable) = Slaac::route_candidates(
            routes,
            destination,
            now,
            is_unreachable,
        );
        select_route(configured, learned, reachable)
    }

    /// Whether a learned route that was passed over would be chosen, were its
    /// router to be reached again.
    pub fn is_recovery_probe_candidate(selection: RouteSelection, route: LearnedRoute) -> (r: bool)
        ensures
            r == worth_probing(selection, route),
    {
        match selection.selected {
            None => false,
            Some(SelectedRoute::Configured(c)) => {
                let same_router = match c.via_router {
                    IpAddress::Ipv6(a) => a == route.via_router,
                    IpAddress::Ipv4(_) => false,
                };
                !same_router && (selection.selected_is_unreachable || route.cidr.prefix_len
                    > c.cidr.prefix_len())
            },
            Some(SelectedRoute::Learned(l)) => l.via_router != route.via_router && (
            selection.selected_is_unreachable || route.is_better(&l)),
        }
    }

    /// The routers of the learned routes to the destination that are worth
    /// probing, once per route.
    pub fn recovery_probe_candidates(
        &self,
        routes: &Routes,
        destination: &Ipv6Address,
        now: Instant,
        selection: RouteSelection,
    ) -> (r: Vec<Ipv6Address>)
        requires
            routes.wf(),
        ensures
            r@ == probes(routes@, *destination, now, selection),
    {
        let table = routes.iter();
        let ghost slots = routes@;
        let target = IpAddress::Ipv6(*destination);
        let mut r: Vec<Ipv6Address> = Vec::new();
        let mut i: usize = 0;
        assert(slots.take(0) =~= Seq::<Slot>::empty());
        while i < table.len()
            invariant
                i <= table@.len(),
                routes.wf(),
                slots == routes@,
                table@ == routes_of(slots),
                target == IpAddress::Ipv6(*destination),
                r@ == probes(slots.take(i as int), *destination, now, selection),
            decreases table@.len() - i,
        {
            proof {
                assert(slots.take(i + 1).drop_last() =~= slots.take(i as int));
                assert(slots.take(i + 1).last() == slots[i as int]);
            }
            if let Some(l) = learned_at(routes, i) {
                if l.is_valid(now) && table[i].cidr.contains_addr(&target)
                    && Slaac::is_recovery_probe_candidate(selection, l) {
                    r.push(l.via_router);
                }
            }
            i = i + 1;
        }
        assert(slots.take(i as int) =~= slots);
        r
    }

    /// Whether an address is that of a router of which the public table holds a
    /// learned route that has not expired.
    pub fn is_router(&self, routes: &Routes, address: &Ipv6Address, now: Instant) -> (r: bool)
        requires
            routes.wf(),
        ensures
            r == learned_through(routes@, *address, now),
    {
        let count = routes.iter().len();
        let mut i: usize = 0;
        while i < count
            invariant
                i <= count,
                count == routes@.len(),
                routes.wf(),
                forall|k: int|
                    0 <= k < i && (#[trigger] routes@[k]).learned is Some && learned_in(
                        routes@[k],
                    ).valid_at(now) ==> learned_in(routes@[k]).via_router != *address,
            decreases count - i,
        {
            if let Some(l) = learned_at(routes, i) {
                if l.is_valid(now) && l.via_router == *address {
                    assert(routes@[i as int].learned is Some);
                    return true;
                }
            }
            i = i + 1;
        }
        false
    }
}

/// Whether `unreachable` holds what the test answered for the learned routes to
/// the destination.
pub open spec fn answers<F: Fn(&Ipv6Address) -> bool>(
    slots: Seq<Slot>,
    destination: Ipv6Address,
    now: Instant,
    is_unreachable: F,
    unreachable: Seq<bool>,
) -> bool {
    &&& unreachable.len() == slots.len()
    &&& forall|k: int|
        0 <= k < slots.len() && learned_leads(#[trigger] slots[k], destination, now)
            ==> call_ensures(is_unreachable, (&learned_in(slots[k]).via_router,), unreachable[k])
}

/// There is one best configured route.
proof fn lemma_best_configured(
    slots: Seq<Slot>,
    destination: Ipv6Address,
    now: Instant,
    best: Option<usize>,
)
    requires
        match best {
            Some(b) => is_best_configured(slots, destination, now, b as int),
            None => forall|j: int|
                0 <= j < slots.len() ==> !configured_leads(#[trigger] slots[j], destination, now),
        },
    ensures
        best_configured(slots, destination, now) == match best {
            Some(b) => Some(slots[b as int].route),
            None => None,
        },
{
    if let Some(b) = best {
        let c = choose|i: int| is_best_configured(slots, destination, now, i);
        assert(is_best_configured(slots, destination, now, c));
        assert(configured_leads(slots[b as int], destination, now));
        assert(configured_leads(slots[c], destination, now));
    } else {
        assert forall|i: int| !is_best_configured(slots, destination, now, i) by {
            if is_best_configured(slots, destination, now, i) {
                assert(configured_leads(slots[i], destination, now));
            }
        }
    }
}

/// There is one best learned route.
proof fn lemma_best_learned(
    slots: Seq<Slot>,
    destination: Ipv6Address,
    now: Instant,
    skipped: Seq<bool>,
    best: Option<usize>,
)
    requires
        match best {
            Some(b) => is_best_learned(slots, destination, now, skipped, b as int),
            None => forall|j: int|
                0 <= j < slots.len() && learned_leads(#[trigger] slots[j], destination, now)
                    ==> skipped[j],
        },
    ensures
        best_learned(slots, destination, now, skipped) == match best {
            Some(b) => Some(learned_in(slots[b as int])),
            None => None,
        },
{
    if let Some(b) = best {
        let c = choose|i: int| is_best_learned(slots, destination, now, skipped, i);
        assert(is_best_learned(slots, destination, now, skipped, c));
        assert(learned_leads(slots[b as int], destination, now));
        assert(learned_leads(slots[c], destination, now));
        let x = learned_in(slots[b as int]);
        let y = learned_in(slots[c]);
        assert(x.better(y) || !y.better(x) && b <= c);
        assert(y.better(x) || !x.better(y) && c <= b);
    } else {
        assert forall|i: int| !is_best_learned(slots, destination, now, skipped, i) by {
            if is_best_learned(slots, destination, now, skipped, i) {
                assert(learned_leads(slots[i], destination, now));
            }
        }
    }
}

/// The candidates that learned routes stand for.
pub open spec fn candidates(routes: Seq<Route>, now: Instant) -> Seq<Option<LearnedRoute>> {
    routes.map_values(|r: Route| candidate(r, now))
}

/// Whether `sorted` holds the routes from the most to the least useful.
pub open spec fn sorted_by_usefulness(routes: Seq<Route>, sorted: Seq<Route>) -> bool {
    &&& sorted.to_multiset() == routes.to_multiset()
    &&& in_order(sorted, |a: Route, b: Route| offered_before(a, b))
}

/// Brings the learned routes of the public table up to date. The most useful
/// ones come first where there is not room for all.
pub fn reconcile_routes(slaac: &mut Slaac, routes: &mut Routes, now: Instant)
    requires
        old(slaac).wf(),
        identities_sorted(old(slaac)@.routes),
        old(routes).wf(),
    ensures
        final(slaac)@ == old(slaac)@,
        final(routes).wf(),
        exists|sorted: Seq<Route>| #[trigger]
            sorted_by_usefulness(old(slaac)@.routes, sorted) && final(routes)@ == reconciled(
                old(routes)@,
                candidates(sorted, now),
            ),
{
    let ghost start = slaac@;
    let ghost before = routes@;
    slaac.sort_learned_routes_by_usefulness();
    let ghost sorted = slaac@.routes;
    let source: &Slaac = &*slaac;
    let candidate_at = |index: usize| -> (r: Option<LearnedRoute>)
        ensures
            r == if index < source@.routes.len() {
                candidate(source@.routes[index as int], now)
            } else {
                None
            },
    { source.learned_route_at(index, now) };
    routes.reconcile_learned(source.learned_route_count(), candidate_at);
    proof {
        assert(sorted_by_usefulness(start.routes, sorted));
        let cs = choose|cs: Seq<Option<LearnedRoute>>|
            asked_while_room(before, cs, sorted.len()) && (forall|i: usize|
                i < cs.len() ==> #[trigger] call_ensures(candidate_at, (i,), cs[i as int]))
                && routes@ == #[trigger] reconciled(before, cs);
        let all = candidates(sorted, now);
        assert forall|i: int| 0 <= i < cs.len() implies cs[i] == all[i] by {
            assert(call_ensures(candidate_at, (i as usize,), cs[i]));
        }
        let more = all.skip(cs.len() as int);
        assert(all =~= cs + more);
        if more.len() > 0 {
            law_no_candidate_beyond_the_room(before, cs, more);
        } else {
            assert(all =~= cs);
        }
    }
    slaac.restore_learned_route_identity_order();
    proof {
        lemma_sorted_once(start.routes, slaac@.routes);
    }
}

/// There is one way to put routes in the order of their prefixes and routers.
proof fn lemma_sorted_once(a: Seq<Route>, b: Seq<Route>)
    requires
        identities_sorted(a),
        identities_sorted(b),
        a.to_multiset() == b.to_multiset(),
    ensures
        a == b,
    decreases a.len(),
{
    broadcast use vstd::seq_lib::group_to_multiset_ensures;

    assert(a.len() == a.to_multiset().len());
    assert(b.len() == b.to_multiset().len());
    if a.len() == 0 {
        assert(a =~= b);
    } else {
        let n = a.len() - 1;
        assert(a.to_multiset().count(a[n]) > 0 && b.to_multiset().count(b[n]) > 0) by {
            assert(a.contains(a[n]) && b.contains(b[n]));
        }
        assert(b.contains(a[n]) && a.contains(b[n]));
        let i = choose|i: int| 0 <= i < b.len() && b[i] == a[n];
        let j = choose|j: int| 0 <= j < a.len() && a[j] == b[n];
        if i < n && j < n {
            assert(identity_before(b[i].identity(), b[n].identity()));
            assert(identity_before(a[j].identity(), a[n].identity()));
        }
        assert(a[n] == b[n]);
        assert(a.drop_last() =~= a.remove(n));
        assert(b.drop_last() =~= b.remove(n));
        assert forall|x: int, y: int| 0 <= x < y < n implies identity_before(
            (#[trigger] a.drop_last()[x]).identity(),
            (#[trigger] a.drop_last()[y]).identity(),
        ) by {
            assert(identity_before(a[x].identity(), a[y].identity()));
        }
        assert forall|x: int, y: int| 0 <= x < y < n implies identity_before(
            (#[trigger] b.drop_last()[x]).identity(),
            (#[trigger] b.drop_last()[y]).identity(),
        ) by {
            assert(identity_before(b[x].identity(), b[y].identity()));
        }
        lemma_sorted_once(a.drop_last(), b.drop_last());
        assert(a =~= a.drop_last().push(a[n]));
        assert(b =~= b.drop_last().push(b[n]));
    }
}

} // verus!
