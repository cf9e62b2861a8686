//! What callers of the routing table and of the choice of routes can count on:
//! which route wins by the length of its prefix, its preference and its age.

use vstd::prelude::*;
use crate::config::IFACE_MAX_ROUTE_COUNT;
use crate::iface::ownership::{
    candidates_distinct, configured_slots, law_no_candidate_beyond_the_room,
    law_reconciled_learned_are_chosen, lemma_chosen, lemma_configured_count,
    lemma_configured_filter, lemma_reconciled_len,
};
use crate::iface::route::{
    chosen, configured_has, first_route_to, has_route_to, identities_distinct, identity_before,
    is_best_route, is_first_to, kept, learned_as, learned_part, learned_room, offers, rebuilt,
    reconciled, refreshed, routes_of, valid_slots, with_route, without_route_to, Identity, Learned,
    LearnedRoute, Route, Slot,
};
use crate::iface::selection::{
    best_configured, best_learned, candidates, configured_leads, is_best_configured,
    is_best_learned, learned_in, learned_leads, probes, routed, selection, sorted_by_usefulness,
    worth_probing, RouteSelection, SelectedRoute,
};
use crate::iface::slaac;
use crate::iface::slaac::{candidate, offered_before};
use crate::time::Instant;
use crate::wire::address_laws::law_network_is_a_range;
use crate::wire::ip::{IpAddress, IpCidr, Ipv4Address, Ipv4Cidr, Ipv6Address, Ipv6Cidr};

verus! {

/// Whether an address agrees with a prefix of IPv6 in all bits that count.
pub open spec fn matches_prefix(cidr: IpCidr, a: Ipv6Address) -> bool {
    match cidr {
        IpCidr::Ipv6(c) => c.prefix_len <= 128 && a.masked(c.prefix_len) == c.address.masked(
            c.prefix_len,
        ),
        IpCidr::Ipv4(_) => false,
    }
}

/// Whether all prefixes of IPv6 are no longer than an address.
pub open spec fn prefixes_fit(slots: Seq<Slot>) -> bool {
    forall|i: int|
        0 <= i < slots.len() ==> ((#[trigger] slots[i]).route.cidr matches IpCidr::Ipv6(c)
            ==> c.prefix_len <= 128)
}

/// The number of bits that count in the prefix of a slot.
pub open spec fn bits_of(slot: Slot) -> u8 {
    match slot.route.cidr {
        IpCidr::Ipv6(c) => c.prefix_len,
        IpCidr::Ipv4(c) => c.prefix_len,
    }
}

proof fn lemma_matches_prefix(slots: Seq<Slot>, i: int, a: Ipv6Address)
    requires
        prefixes_fit(slots),
        0 <= i < slots.len(),
    ensures
        slots[i].route.cidr.contains(IpAddress::Ipv6(a)) <==> matches_prefix(
            slots[i].route.cidr,
            a,
        ),
        slots[i].route.cidr.len_of_prefix() == bits_of(slots[i]),
{
    if let IpCidr::Ipv6(c) = slots[i].route.cidr {
        law_network_is_a_range(c, a);
    }
}

/// The learned route that is chosen for a destination is one of the table that
/// matches it, has not expired and is not skipped.
///
/// None that qualifies has a longer prefix; none with as long a prefix has a
/// stronger preference; and none that is alike in both is older.
pub proof fn law_longest_learned_prefix_wins(
    slots: Seq<Slot>,
    destination: Ipv6Address,
    now: Instant,
    skipped: Seq<bool>,
    j: int,
)
    requires
        valid_slots(slots),
        prefixes_fit(slots),
        0 <= j < slots.len(),
        !skipped[j],
        slots[j].learned is Some,
        matches_prefix(slots[j].route.cidr, destination),
        slots[j].route.expires_at matches Some(t) ==> now.micros < t.micros,
    ensures
        best_learned(slots, destination, now, skipped) matches Some(l) && {
            &&& bits_of(slots[j]) <= l.cidr.prefix_len
            &&& bits_of(slots[j]) == l.cidr.prefix_len ==> slots[j].learned->0.preference.rank_of()
                <= l.preference.rank_of()
            &&& bits_of(slots[j]) == l.cidr.prefix_len
                && slots[j].learned->0.preference.rank_of() == l.preference.rank_of() ==> l.order
                <= slots[j].learned->0.order
        },
{
    lemma_matches_prefix(slots, j, destination);
    lemma_some_best_learned(slots, destination, now, skipped, slots.len() as int);
    assert(slots.take(slots.len() as int) =~= slots);
    assert(learned_leads(slots[j], destination, now));
    let b = choose|i: int| is_best_learned(slots, destination, now, skipped, i);
    assert(is_best_learned(slots, destination, now, skipped, b));
    let l = learned_in(slots[b]);
    let m = learned_in(slots[j]);
    assert(l.better(m) || !m.better(l));
    assert(slots[b].route.identity() is Some && slots[j].route.identity() is Some);
}

/// The learned route that is chosen is one that the table holds.
pub proof fn law_chosen_learned_route_is_held(
    slots: Seq<Slot>,
    destination: Ipv6Address,
    now: Instant,
    skipped: Seq<bool>,
)
    requires
        valid_slots(slots),
        prefixes_fit(slots),
    ensures
        best_learned(slots, destination, now, skipped) matches Some(l) ==> exists|i: int|
            0 <= i < slots.len() && !skipped[i] && (#[trigger] slots[i]).learned is Some
                && matches_prefix(slots[i].route.cidr, destination) && (
            slots[i].route.expires_at matches Some(t) ==> now.micros < t.micros)
                && slots[i].route.cidr == IpCidr::Ipv6(l.cidr) && slots[i].route.via_router
                == IpAddress::Ipv6(l.via_router) && slots[i].route.expires_at == l.valid_until
                && slots[i].learned->0.preference == l.preference && slots[i].learned->0.order
                == l.order,
{
    if best_learned(slots, destination, now, skipped) is Some {
        let b = choose|i: int| is_best_learned(slots, destination, now, skipped, i);
        assert(is_best_learned(slots, destination, now, skipped, b));
        lemma_matches_prefix(slots, b, destination);
        assert(slots[b].learned is Some);
        assert(slots[b].route.identity() is Some);
    }
}

/// Among the first `n` slots, one holds the best learned route that is not
/// skipped, if any holds one.
proof fn lemma_some_best_learned(
    slots: Seq<Slot>,
    destination: Ipv6Address,
    now: Instant,
    skipped: Seq<bool>,
    n: int,
)
    requires
        0 <= n <= slots.len(),
    ensures
        (exists|i: int|
            0 <= i < n && learned_leads(#[trigger] slots[i], destination, now) && !skipped[i])
            ==> exists|i: int|
            is_best_learned(slots.take(n), destination, now, skipped, i),
    decreases n,
{
    if n > 0 {
        let k = n - 1;
        let some = slots.take(k);
        let more = slots.take(n);
        lemma_some_best_learned(slots, destination, now, skipped, k);
        assert forall|j: int| 0 <= j < k implies some[j] == #[trigger] more[j] by {}
        assert(more[k] == slots[k]);
        let qualifies = learned_leads(slots[k], destination, now) && !skipped[k];
        if exists|i: int| is_best_learned(some, destination, now, skipped, i) {
            let b = choose|i: int| is_best_learned(some, destination, now, skipped, i);
            if qualifies && learned_in(slots[k]).better(learned_in(more[b])) {
                assert(is_best_learned(more, destination, now, skipped, k));
            } else {
                assert(is_best_learned(more, destination, now, skipped, b));
            }
        } else if qualifies {
            assert forall|j: int| 0 <= j < k implies !learned_leads(
                #[trigger] more[j],
                destination,
                now,
            ) || skipped[j] by {
                assert(more[j] == slots[j]);
            }
            assert(is_best_learned(more, destination, now, skipped, k));
        }
    }
}

/// The configured route that is chosen for a destination is one of the table that
/// matches it and has not expired. None that qualifies has a longer prefix, and
/// none with as long a prefix stands behind it.
pub proof fn law_longest_configured_prefix_wins(
    slots: Seq<Slot>,
    destination: Ipv6Address,
    now: Instant,
    j: int,
)
    requires
        prefixes_fit(slots),
        0 <= j < slots.len(),
        slots[j].learned is None,
        matches_prefix(slots[j].route.cidr, destination),
        slots[j].route.expires_at matches Some(t) ==> now.micros <= t.micros,
    ensures
        best_configured(slots, destination, now) is Some,
        exists|i: int|
            0 <= i < slots.len() && best_configured(slots, destination, now) == Some(
                (#[trigger] slots[i]).route,
            ) && slots[i].learned is None && matches_prefix(slots[i].route.cidr, destination) && (
            slots[i].route.expires_at matches Some(t) ==> now.micros <= t.micros) && (bits_of(
                slots[j],
            ) < bits_of(slots[i]) || bits_of(slots[j]) == bits_of(slots[i]) && j <= i),
{
    lemma_matches_prefix(slots, j, destination);
    assert(configured_leads(slots[j], destination, now));
    lemma_some_best_configured(slots, destination, now, slots.len() as int);
    assert(slots.take(slots.len() as int) =~= slots);
    let b = choose|i: int| is_best_configured(slots, destination, now, i);
    assert(is_best_configured(slots, destination, now, b));
    lemma_matches_prefix(slots, b, destination);
    assert(slots[b].learned is None);
}

/// Where no configured route that has not expired matches, none is chosen.
pub proof fn law_no_configured_route(slots: Seq<Slot>, destination: Ipv6Address, now: Instant)
    requires
        prefixes_fit(slots),
        best_configured(slots, destination, now) is Some,
    ensures
        exists|i: int|
            0 <= i < slots.len() && (#[trigger] slots[i]).learned is None && matches_prefix(
                slots[i].route.cidr,
                destination,
            ) && (slots[i].route.expires_at matches Some(t) ==> now.micros <= t.micros),
{
    let b = choose|i: int| is_best_configured(slots, destination, now, i);
    assert(is_best_configured(slots, destination, now, b));
    lemma_matches_prefix(slots, b, destination);
    assert(slots[b].learned is None);
}

/// Among the first `n` slots, one holds the best configured route, if any holds
/// one.
proof fn lemma_some_best_configured(
    slots: Seq<Slot>,
    destination: Ipv6Address,
    now: Instant,
    n: int,
)
    requires
        0 <= n <= slots.len(),
    ensures
        (exists|i: int| 0 <= i < n && configured_leads(#[trigger] slots[i], destination, now))
            ==> exists|i: int| is_best_configured(slots.take(n), destination, now, i),
    decreases n,
{
    if n > 0 {
        let k = n - 1;
        let some = slots.take(k);
        let more = slots.take(n);
        lemma_some_best_configured(slots, destination, now, k);
        assert forall|j: int| 0 <= j < k implies some[j] == #[trigger] more[j] by {}
        assert(more[k] == slots[k]);
        if exists|i: int| is_best_configured(some, destination, now, i) {
            let b = choose|i: int| is_best_configured(some, destination, now, i);
            if configured_leads(slots[k], destination, now)
                && slots[k].route.cidr.len_of_prefix() >= more[b].route.cidr.len_of_prefix() {
                assert(is_best_configured(more, destination, now, k));
            } else {
                assert(is_best_configured(more, destination, now, b));
            }
        } else if configured_leads(slots[k], destination, now) {
            assert forall|j: int| 0 <= j < k implies !configured_leads(
                #[trigger] more[j],
                destination,
                now,
            ) by {
                assert(more[j] == slots[j]);
            }
            assert(is_best_configured(more, destination, now, k));
        }
    }
}

/// The next hop is the router of the configured route unless a learned route
/// through a router that can be reached has a longer prefix; then that of the
/// learned one. Without either, a learned route is used though its router cannot
/// be reached.
pub proof fn law_next_hop(
    configured: Option<Route>,
    learned: Option<LearnedRoute>,
    reachable: Option<LearnedRoute>,
)
    ensures
        ({
            let r = selection(configured, learned, reachable);
            &&& (configured, reachable) matches (Some(c), Some(l)) ==> {
                let len = match c.cidr {
                    IpCidr::Ipv6(x) => x.prefix_len,
                    IpCidr::Ipv4(x) => x.prefix_len,
                };
                &&& l.cidr.prefix_len > len ==> r.next_hop == Some(IpAddress::Ipv6(l.via_router))
                &&& l.cidr.prefix_len <= len ==> r.next_hop == Some(c.via_router)
            }
            &&& (configured, reachable) matches (Some(c), None) ==> r.next_hop == Some(c.via_router)
            &&& (configured, reachable) matches (None, Some(l)) ==> r.next_hop == Some(
                IpAddress::Ipv6(l.via_router),
            )
            &&& configured is None && reachable is None ==> match learned {
                Some(l) => r.next_hop == Some(IpAddress::Ipv6(l.via_router)),
                None => r.next_hop is None,
            }
            &&& r.selected_is_unreachable <==> configured is None && reachable is None
                && learned is Some
            &&& match r.selected {
                Some(SelectedRoute::Configured(c)) => configured == Some(c) && r.next_hop == Some(
                    c.via_router,
                ),
                Some(SelectedRoute::Learned(l)) => (reachable == Some(l) || learned == Some(l))
                    && r.next_hop == Some(IpAddress::Ipv6(l.via_router)),
                None => r.next_hop is None,
            }
        }),
{
}

/// A learned route through another router than the one chosen is worth probing if
/// it would be chosen, could its router be reached; and in any case if the
/// chosen router cannot be reached.
pub proof fn law_routes_worth_probing(
    configured: Option<Route>,
    learned: Option<LearnedRoute>,
    reachable: Option<LearnedRoute>,
    route: LearnedRoute,
)
    ensures
        ({
            let r = selection(configured, learned, reachable);
            let another = r.next_hop != Some(IpAddress::Ipv6(route.via_router));
            &&& r.next_hop is None ==> !worth_probing(r, route)
            &&& r.selected_is_unreachable ==> (worth_probing(r, route) <==> another)
            &&& r.selected matches Some(SelectedRoute::Configured(c)) ==> (worth_probing(r, route)
                <==> another && selection(Some(c), learned, Some(route)).selected == Some(
                SelectedRoute::Learned(route),
            ))
            &&& (r.selected matches Some(SelectedRoute::Learned(l)) && !r.selected_is_unreachable)
                ==> {
                let l = r.selected->0->Learned_0;
                worth_probing(r, route) <==> another && (route.cidr.prefix_len > l.cidr.prefix_len
                    || route.cidr.prefix_len == l.cidr.prefix_len && (route.preference.rank_of()
                    > l.preference.rank_of() || route.preference.rank_of()
                    == l.preference.rank_of() && route.order < l.order))
            }
        }),
{
}

/// The routers that are probed are those of the learned routes that match the
/// destination, have not expired and are worth probing.
pub proof fn law_probed_routers(
    slots: Seq<Slot>,
    destination: Ipv6Address,
    now: Instant,
    r: RouteSelection,
    router: Ipv6Address,
)
    requires
        valid_slots(slots),
        prefixes_fit(slots),
    ensures
        probes(slots, destination, now, r).contains(router) <==> exists|i: int|
            0 <= i < slots.len() && (#[trigger] slots[i]).learned is Some && matches_prefix(
                slots[i].route.cidr,
                destination,
            ) && (slots[i].route.expires_at matches Some(t) ==> now.micros < t.micros)
                && slots[i].route.via_router == IpAddress::Ipv6(router) && worth_probing(
                r,
                learned_in(slots[i]),
            ),
        probes(slots, destination, now, r).len() <= slots.len(),
    decreases slots.len(),
{
    let all = probes(slots, destination, now, r);
    if slots.len() > 0 {
        let first = slots.drop_last();
        let n = slots.len() - 1;
        let rest = probes(first, destination, now, r);
        assert forall|i: int| 0 <= i < n implies first[i] == #[trigger] slots[i] by {}
        crate::iface::ownership::lemma_prefix_valid(slots, n);
        assert(first =~= slots.take(n));
        law_probed_routers(first, destination, now, r, router);
        lemma_matches_prefix(slots, n, destination);
        let s = slots[n];
        if rest.contains(router) {
            let k = choose|k: int| 0 <= k < rest.len() && rest[k] == router;
            assert(all[k] == router);
            let i = choose|i: int|
                0 <= i < first.len() && (#[trigger] first[i]).learned is Some && matches_prefix(
                    first[i].route.cidr,
                    destination,
                ) && (first[i].route.expires_at matches Some(t) ==> now.micros < t.micros)
                    && first[i].route.via_router == IpAddress::Ipv6(router) && worth_probing(
                    r,
                    learned_in(first[i]),
                );
            assert(slots[i] == first[i]);
        }
        if learned_leads(s, destination, now) && worth_probing(r, learned_in(s)) {
            assert(all.last() == learned_in(s).via_router);
            assert(all == rest.push(learned_in(s).via_router));
            if learned_in(s).via_router == router {
                assert(all[rest.len() as int] == router);
                assert(slots[n].learned is Some);
            }
        }
        if all.contains(router) && !rest.contains(router) {
            let k = choose|k: int| 0 <= k < all.len() && all[k] == router;
            if k < rest.len() {
                assert(rest[k] == router);
            }
            assert(slots[n].learned is Some);
        }
        if exists|i: int|
            0 <= i < slots.len() && (#[trigger] slots[i]).learned is Some && matches_prefix(
                slots[i].route.cidr,
                destination,
            ) && (slots[i].route.expires_at matches Some(t) ==> now.micros < t.micros)
                && slots[i].route.via_router == IpAddress::Ipv6(router) && worth_probing(
                r,
                learned_in(slots[i]),
            ) {
            let i = choose|i: int|
                0 <= i < slots.len() && (#[trigger] slots[i]).learned is Some && matches_prefix(
                    slots[i].route.cidr,
                    destination,
                ) && (slots[i].route.expires_at matches Some(t) ==> now.micros < t.micros)
                    && slots[i].route.via_router == IpAddress::Ipv6(router) && worth_probing(
                    r,
                    learned_in(slots[i]),
                );
            if i < n {
                assert(first[i] == slots[i]);
                assert(rest.contains(router));
            } else {
                assert(slots[n].route.identity() is Some);
                assert(learned_leads(s, destination, now));
            }
        }
    }
}

/// The route that a plain lookup takes matches the address and has not expired.
/// None that qualifies has a longer prefix, and none with as long a prefix stands
/// behind it.
pub proof fn law_plain_lookup(routes: Seq<Route>, addr: IpAddress, now: Instant, i: int, j: int)
    requires
        is_best_route(routes, addr, now, i),
        0 <= j < routes.len(),
        routes[j].cidr.contains(addr),
        routes[j].expires_at matches Some(t) ==> now.micros <= t.micros,
    ensures
        0 <= i < routes.len(),
        routes[i].cidr.contains(addr),
        routes[i].expires_at matches Some(t) ==> now.micros <= t.micros,
        bits_of_cidr(routes[j].cidr) <= bits_of_cidr(routes[i].cidr),
        bits_of_cidr(routes[j].cidr) == bits_of_cidr(routes[i].cidr) ==> j <= i,
{
    assert(routes[j].leads_to(addr, now));
}

/// The number of bits that count in a prefix.
pub open spec fn bits_of_cidr(cidr: IpCidr) -> u8 {
    match cidr {
        IpCidr::Ipv6(c) => c.prefix_len,
        IpCidr::Ipv4(c) => c.prefix_len,
    }
}

/// A route leads to an address if its prefix holds the address, up to and with
/// the time at which it expires.
pub proof fn law_routes_lead_until_they_expire(r: Route, addr: IpAddress, now: Instant)
    ensures
        r.leads_to(addr, now) <==> r.cidr.contains(addr) && (r.expires_at is None || now.micros
            <= r.expires_at->0.micros),
{
}

/// The default routes lead to every address of their version.
pub proof fn law_default_routes_lead_everywhere(a4: Ipv4Address, a6: Ipv6Address)
    ensures
        Route::ipv4_default().contains(IpAddress::Ipv4(a4)),
        Route::ipv6_default().contains(IpAddress::Ipv6(a6)),
        slaac::ipv6_default().contains(a6),
        bits_of_cidr(Route::ipv4_default()) == 0,
        bits_of_cidr(Route::ipv6_default()) == 0,
        IpCidr::Ipv6(slaac::ipv6_default()) == Route::ipv6_default(),
{
    let c6 = Ipv6Cidr { address: Ipv6Address { bits: 0 }, prefix_len: 0 };
    let c4 = Ipv4Cidr { address: Ipv4Address { bits: 0 }, prefix_len: 0 };
    vstd::arithmetic::power2::lemma2_to64();
    vstd::arithmetic::power2::lemma_pow2_adds(64, 64);
    vstd::arithmetic::power2::lemma_pow2_adds(16, 16);
    law_network_is_a_range(c6, a6);
    law_network_is_a_range(c6, c6.address);
    crate::wire::address_laws::law_masked_address(c6.address, 0);
    crate::wire::address_laws::law_ipv4_network_is_a_range(c4, a4);
    assert(c6.address.masked(0).bits == 0);
}

/// Editing the routes leaves them as they were edited. A route is learned
/// afterwards just if a learned route with the same fields was there before and
/// no other route has its prefix and router.
pub proof fn law_edited_routes(slots: Seq<Slot>, routes: Seq<Route>, j: int)
    requires
        valid_slots(slots),
        0 <= j < routes.len(),
    ensures
        routes_of(rebuilt(slots, routes)) == routes,
        rebuilt(slots, routes)[j].learned matches Some(l) ==> {
            &&& exists|i: int|
                0 <= i < slots.len() && (#[trigger] slots[i]).route == routes[j] && slots[i].learned
                    == Some(l)
            &&& forall|k: int|
                0 <= k < routes.len() && k != j ==> (#[trigger] routes[k]).identity()
                    != routes[j].identity()
        },
        rebuilt(slots, routes)[j].learned is None ==> {
            ||| forall|i: int|
                0 <= i < slots.len() && (#[trigger] slots[i]).route == routes[j]
                    ==> slots[i].learned is None
            ||| exists|k: int|
                0 <= k < routes.len() && k != j && (#[trigger] routes[k]).identity()
                    == routes[j].identity()
        },
{
    let after = rebuilt(slots, routes);
    assert(routes_of(after) =~= routes);
    if let Some(l) = after[j].learned {
        assert(learned_as(slots, routes[j], l));
    } else if exists|i: int|
        0 <= i < slots.len() && (#[trigger] slots[i]).route == routes[j]
            && slots[i].learned is Some {
        let i = choose|i: int|
            0 <= i < slots.len() && (#[trigger] slots[i]).route == routes[j]
                && slots[i].learned is Some;
        assert(learned_as(slots, routes[j], slots[i].learned->0));
    }
}

/// The first route to a prefix is found, removed and leaves the others as they
/// stand; an appended route stands last.
pub proof fn law_first_route_to_a_prefix(slots: Seq<Slot>, cidr: IpCidr, i: int, route: Route)
    requires
        0 <= i < slots.len(),
        slots[i].route.cidr == cidr,
        forall|j: int| 0 <= j < i ==> (#[trigger] slots[j]).route.cidr != cidr,
    ensures
        first_route_to(slots, cidr) == Some(slots[i].route),
        routes_of(without_route_to(slots, cidr)) == routes_of(slots).remove(i),
        routes_of(with_route(slots, route)) == routes_of(slots).push(route),
{
    assert(has_route_to(slots, cidr));
    assert(is_first_to(slots, cidr, i));
    let k = choose|k: int| is_first_to(slots, cidr, k);
    assert(is_first_to(slots, cidr, k));
    assert(slots[k].route.cidr == cidr);
    assert(k == i);
    assert(routes_of(without_route_to(slots, cidr)) =~= routes_of(slots).remove(i));
    assert(routes_of(with_route(slots, route)) =~= routes_of(slots).push(route));
}

/// A learned route becomes public with its prefix, router and deadline.
pub proof fn law_public_form(c: LearnedRoute)
    ensures
        c.public().cidr == IpCidr::Ipv6(c.cidr),
        c.public().via_router == IpAddress::Ipv6(c.via_router),
        c.public().expires_at == c.valid_until,
        c.public().preferred_until is None,
        c.slot().route == c.public(),
        c.slot().learned is Some,
        c.slot().learned->0.preference == c.preference,
        c.slot().learned->0.order == c.order,
        c.public().identity() == Some((c.cidr, c.via_router)),
{
}

/// The candidates that are chosen from the first ones are chosen first.
proof fn lemma_chosen_grows(
    slots: Seq<Slot>,
    cs: Seq<Option<LearnedRoute>>,
    room: nat,
    k: int,
)
    requires
        0 <= k <= cs.len(),
    ensures
        chosen(slots, cs.take(k), room).len() <= chosen(slots, cs, room).len(),
        forall|c: LearnedRoute| #[trigger]
            chosen(slots, cs.take(k), room).contains(c) ==> chosen(slots, cs, room).contains(c),
    decreases cs.len(),
{
    if k == cs.len() {
        assert(cs.take(k) =~= cs);
    } else {
        let first = cs.drop_last();
        assert(first.take(k) =~= cs.take(k));
        lemma_chosen_grows(slots, first, room, k);
        let rest = chosen(slots, first, room);
        let all = chosen(slots, cs, room);
        assert forall|c: LearnedRoute| #[trigger]
            chosen(slots, cs.take(k), room).contains(c) implies all.contains(c) by {
            assert(rest.contains(c));
            let i = choose|i: int| 0 <= i < rest.len() && rest[i] == c;
            assert(all[i] == c);
        }
    }
}

/// A candidate that no configured route stands in for is taken if there is room
/// for it. It is left out only if as many that come before it fill the room, and
/// then so are all that come behind it.
pub proof fn law_earlier_candidates_go_first(
    slots: Seq<Slot>,
    cs: Seq<Option<LearnedRoute>>,
    i: int,
    j: int,
)
    requires
        candidates_distinct(cs),
        0 <= i < j < cs.len(),
        cs[i] is Some,
        forall|k: int|
            0 <= k < slots.len() && (#[trigger] slots[k]).learned is None
                ==> slots[k].route.identity() != Some(cs[i]->0.identity()),
    ensures
        ({
            let taken = chosen(slots, cs, learned_room(slots));
            !taken.contains(cs[i]->0) ==> {
                &&& taken.len() == learned_room(slots)
                &&& cs[j] matches Some(c) ==> !taken.contains(c)
            }
        }),
{
    let room = learned_room(slots);
    let a = cs[i]->0;
    let before = cs.take(i);
    let upto = cs.take(i + 1);
    let taken = chosen(slots, cs, room);
    assert(upto.drop_last() =~= before);
    assert(upto.last() == Some(a));
    assert(!configured_has(slots, a.identity()));
    lemma_chosen(slots, cs, room);
    if !taken.contains(a) {
        lemma_chosen_grows(slots, cs, room, i + 1);
        if chosen(slots, before, room).len() < room {
            assert(chosen(slots, upto, room).last() == a);
            assert(chosen(slots, upto, room).contains(a));
        }
        assert(before + cs.skip(i) =~= cs);
        law_no_candidate_beyond_the_room(slots, before, cs.skip(i));
        if let Some(c) = cs[j] {
            if taken.contains(c) {
                assert(candidates_distinct(before)) by {
                    assert forall|x: int, y: int|
                        0 <= x < y < before.len() && before[x] is Some
                            && before[y] is Some implies (#[trigger] before[x])->0.identity() != (
                    #[trigger] before[y])->0.identity() by {
                        assert(cs[x] == before[x] && cs[y] == before[y]);
                    }
                }
                lemma_chosen(slots, before, room);
                let m = choose|m: int| 0 <= m < taken.len() && taken[m] == c;
                assert(before.contains(Some(taken[m])));
                let x = choose|x: int| 0 <= x < before.len() && before[x] == Some(c);
                assert(cs[x] == Some(c));
                assert(cs[x]->0.identity() != cs[j]->0.identity());
            }
        }
    }
}

/// There is room for as many learned routes as there are slots that hold no
/// configured route.
pub proof fn law_room_for_learned_routes(slots: Seq<Slot>)
    requires
        valid_slots(slots),
    ensures
        learned_room(slots) + configured_slots(slots).len() == IFACE_MAX_ROUTE_COUNT,
{
    lemma_configured_count(slots);
    lemma_configured_filter(slots);
}

/// In the order in which learned routes become public, none stands behind one
/// with a shorter prefix; nor, the prefixes being as long, behind one with a
/// weaker preference; nor, all that being alike, behind a newer one. Those of one
/// age go by prefix and router.
pub proof fn law_order_of_usefulness(
    routes: Seq<slaac::Route>,
    sorted: Seq<slaac::Route>,
    i: int,
    j: int,
)
    requires
        sorted_by_usefulness(routes, sorted),
        0 <= i < j < sorted.len(),
    ensures
        sorted[i].cidr.prefix_len >= sorted[j].cidr.prefix_len,
        sorted[i].cidr.prefix_len == sorted[j].cidr.prefix_len ==> sorted[i].preference.rank_of()
            >= sorted[j].preference.rank_of(),
        sorted[i].cidr.prefix_len == sorted[j].cidr.prefix_len && sorted[i].preference.rank_of()
            == sorted[j].preference.rank_of() ==> sorted[i].order <= sorted[j].order,
        sorted[i].cidr.prefix_len == sorted[j].cidr.prefix_len && sorted[i].preference.rank_of()
            == sorted[j].preference.rank_of() && sorted[i].order == sorted[j].order
            ==> !identity_before(
            (sorted[j].cidr, sorted[j].via_router),
            (sorted[i].cidr, sorted[i].via_router),
        ),
{
    let before = |a: slaac::Route, b: slaac::Route| offered_before(a, b);
    assert(!before(sorted[j], sorted[i]));
}

/// Whether a learned route is among the public ones.
pub open spec fn is_public(slots: Seq<Slot>, r: slaac::Route) -> bool {
    exists|i: int|
        0 <= i < slots.len() && (#[trigger] slots[i]).learned is Some && slots[i].route.cidr
            == IpCidr::Ipv6(r.cidr) && slots[i].route.via_router == IpAddress::Ipv6(r.via_router)
            && slots[i].route.expires_at == r.valid_until && slots[i].learned->0.preference
            == r.preference && slots[i].learned->0.order == r.order
}

/// Bringing learned routes into the public table leaves none out that has not
/// expired and that no configured route stands in for, unless the table is full.
/// Then none was taken in its place that has a shorter prefix, or as long a one
/// and a weaker preference, or is newer with all that alike.
pub proof fn law_most_useful_routes_become_public(
    slots: Seq<Slot>,
    routes: Seq<slaac::Route>,
    sorted: Seq<slaac::Route>,
    now: Instant,
    a: slaac::Route,
    b: slaac::Route,
)
    requires
        valid_slots(slots),
        slaac::identities_distinct(routes),
        sorted_by_usefulness(routes, sorted),
        routes.contains(a),
        routes.contains(b),
        a.valid_until matches Some(t) ==> now.micros < t.micros,
        forall|k: int|
            0 <= k < slots.len() && (#[trigger] slots[k]).learned is None
                ==> slots[k].route.identity() != Some((a.cidr, a.via_router)),
        !is_public(reconciled(slots, candidates(sorted, now)), a),
    ensures
        reconciled(slots, candidates(sorted, now)).len() == IFACE_MAX_ROUTE_COUNT,
        is_public(reconciled(slots, candidates(sorted, now)), b) ==> {
            &&& b.cidr.prefix_len >= a.cidr.prefix_len
            &&& b.cidr.prefix_len == a.cidr.prefix_len ==> b.preference.rank_of()
                >= a.preference.rank_of()
            &&& b.cidr.prefix_len == a.cidr.prefix_len && b.preference.rank_of()
                == a.preference.rank_of() ==> b.order <= a.order
        },
{
    broadcast use vstd::seq_lib::group_to_multiset_ensures;

    let cs = candidates(sorted, now);
    let t = reconciled(slots, cs);
    let room = learned_room(slots);
    let taken = chosen(slots, cs, room);
    lemma_sorted_distinct(routes, sorted, now);
    lemma_chosen(slots, cs, room);
    assert(sorted.contains(a)) by {
        assert(routes.to_multiset().count(a) > 0);
        assert(sorted.to_multiset().count(a) > 0);
    }
    let i = choose|i: int| 0 <= i < sorted.len() && sorted[i] == a;
    assert(cs[i] == candidate(a, now));
    let c = cs[i]->0;
    if taken.contains(c) {
        law_reconciled_learned_are_chosen(slots, cs, c.slot());
        assert(t.contains(c.slot()));
        let x = choose|x: int| 0 <= x < t.len() && t[x] == c.slot();
        assert(t[x].learned is Some);
        assert(is_public(t, a));
    }
    // The room is used up.
    let before = cs.take(i);
    let upto = cs.take(i + 1);
    assert(upto.drop_last() =~= before);
    assert(upto.last() == Some(c));
    assert(!configured_has(slots, c.identity()));
    lemma_chosen_grows(slots, cs, room, i + 1);
    lemma_chosen_grows(slots, cs, room, i);
    if chosen(slots, before, room).len() < room {
        assert(chosen(slots, upto, room).last() == c);
        assert(chosen(slots, upto, room).contains(c));
    }
    assert(taken.len() == room);
    lemma_configured_count(slots);
    lemma_reconciled_len(slots, taken);
    if is_public(t, b) {
        let y = choose|y: int|
            0 <= y < t.len() && (#[trigger] t[y]).learned is Some && t[y].route.cidr
                == IpCidr::Ipv6(b.cidr) && t[y].route.via_router == IpAddress::Ipv6(b.via_router)
                && t[y].route.expires_at == b.valid_until && t[y].learned->0.preference
                == b.preference && t[y].learned->0.order == b.order;
        law_reconciled_learned_are_chosen(slots, cs, t[y]);
        assert(t.contains(t[y]));
        let d = choose|d: LearnedRoute| #[trigger] taken.contains(d) && t[y] == d.slot();
        let m = choose|m: int| 0 <= m < taken.len() && taken[m] == d;
        assert(cs.contains(Some(taken[m])));
        let j = choose|j: int| 0 <= j < cs.len() && cs[j] == Some(d);
        let e = sorted[j];
        assert(cs[j] == candidate(e, now));
        assert(e.cidr == b.cidr && e.preference == b.preference && e.order == b.order);
        if i < j {
            law_earlier_candidates_go_first(slots, cs, i, j);
        } else if j < i {
            law_order_of_usefulness(routes, sorted, j, i);
        }
    }
}

/// Sorted routes are as distinct as they were, and so are the candidates that
/// they stand for.
proof fn lemma_sorted_distinct(
    routes: Seq<slaac::Route>,
    sorted: Seq<slaac::Route>,
    now: Instant,
)
    requires
        slaac::identities_distinct(routes),
        sorted.to_multiset() == routes.to_multiset(),
    ensures
        slaac::identities_distinct(sorted),
        candidates_distinct(candidates(sorted, now)),
{
    slaac::lemma_permuted_identities(routes, sorted);
    let cs = candidates(sorted, now);
    assert forall|x: int, y: int|
        0 <= x < y < cs.len() && cs[x] is Some && cs[y] is Some implies (
    #[trigger] cs[x])->0.identity() != (#[trigger] cs[y])->0.identity() by {
        assert(sorted[x].identity() != sorted[y].identity());
    }
}

/// Where the slots that stay stood before.
proof fn lemma_kept_positions(slots: Seq<Slot>, cs: Seq<LearnedRoute>) -> (at: Seq<int>)
    ensures
        at.len() == kept(slots, cs).len(),
        forall|k: int|
            0 <= k < at.len() ==> 0 <= #[trigger] at[k] < slots.len() && refreshed(
                slots[at[k]],
                cs,
            ) == Some(kept(slots, cs)[k]),
        forall|k: int, m: int| 0 <= k < m < at.len() ==> #[trigger] at[k] < #[trigger] at[m],
        forall|i: int|
            0 <= i < slots.len() && refreshed(#[trigger] slots[i], cs) is Some ==> at.contains(i),
    decreases slots.len(),
{
    if slots.len() == 0 {
        Seq::empty()
    } else {
        let first = slots.drop_last();
        let n = slots.len() - 1;
        let rest = lemma_kept_positions(first, cs);
        assert forall|i: int| 0 <= i < n implies first[i] == #[trigger] slots[i] by {}
        if refreshed(slots.last(), cs) is Some {
            let at = rest.push(n);
            assert forall|i: int|
                0 <= i < slots.len() && refreshed(
                    #[trigger] slots[i],
                    cs,
                ) is Some implies at.contains(i) by {
                if i < n {
                    assert(first[i] == slots[i]);
                    let k = choose|k: int| 0 <= k < rest.len() && rest[k] == i;
                    assert(at[k] == i);
                } else {
                    assert(at[rest.len() as int] == i);
                }
            }
            at
        } else {
            assert forall|i: int|
                0 <= i < slots.len() && refreshed(
                    #[trigger] slots[i],
                    cs,
                ) is Some implies rest.contains(i) by {
                assert(first[i] == slots[i]);
            }
            rest
        }
    }
}

/// The routes that stay in a reconciled table stay in their order, configured
/// ones just as they are.
pub proof fn law_surviving_routes_keep_their_order(
    slots: Seq<Slot>,
    cs: Seq<Option<LearnedRoute>>,
    i: int,
    j: int,
)
    requires
        valid_slots(slots),
        candidates_distinct(cs),
        0 <= i < j < slots.len(),
        slots[i].learned is None || exists|c: LearnedRoute| #[trigger]
            chosen(slots, cs, learned_room(slots)).contains(c) && slots[i].route.identity() == Some(
                c.identity(),
            ),
        slots[j].learned is None || exists|c: LearnedRoute| #[trigger]
            chosen(slots, cs, learned_room(slots)).contains(c) && slots[j].route.identity() == Some(
                c.identity(),
            ),
    ensures
        exists|x: int, y: int|
            0 <= x < y < reconciled(slots, cs).len() && (#[trigger] reconciled(
                slots,
                cs,
            )[x]).route.identity() == slots[i].route.identity() && (#[trigger] reconciled(
                slots,
                cs,
            )[y]).route.identity() == slots[j].route.identity() && (slots[i].learned is None
                ==> reconciled(slots, cs)[x] == slots[i]) && (slots[j].learned is None
                ==> reconciled(slots, cs)[y] == slots[j]),
{
    let room = learned_room(slots);
    let taken = chosen(slots, cs, room);
    let k = kept(slots, taken);
    let t = reconciled(slots, cs);
    lemma_chosen(slots, cs, room);
    let at = lemma_kept_positions(slots, taken);
    lemma_refreshed(slots, taken, i);
    lemma_refreshed(slots, taken, j);
    let x = choose|x: int| 0 <= x < at.len() && at[x] == i;
    let y = choose|y: int| 0 <= y < at.len() && at[y] == j;
    assert(at.contains(i) && at.contains(j));
    if y < x {
        assert(at[y] < at[x]);
    }
    assert(t[x] == k[x] && t[y] == k[y]);
}

/// A slot that is configured or chosen stays, with its prefix and router.
proof fn lemma_refreshed(slots: Seq<Slot>, cs: Seq<LearnedRoute>, i: int)
    requires
        0 <= i < slots.len(),
        slots[i].learned is None || exists|c: LearnedRoute| #[trigger]
            cs.contains(c) && slots[i].route.identity() == Some(c.identity()),
    ensures
        refreshed(slots[i], cs) is Some,
        refreshed(slots[i], cs)->0.route.identity() == slots[i].route.identity(),
        slots[i].learned is None ==> refreshed(slots[i], cs) == Some(slots[i]),
{
    if slots[i].learned is Some {
        let c = choose|c: LearnedRoute| #[trigger]
            cs.contains(c) && slots[i].route.identity() == Some(c.identity());
        let m = choose|m: int| 0 <= m < cs.len() && cs[m] == c;
        let id = c.identity();
        assert(cs[m].identity() == id);
        assert(offers(cs, id));
        let n = choose|n: int| 0 <= n < cs.len() && (#[trigger] cs[n]).identity() == id;
        assert(cs[n].identity() == id);
    }
}

/// What a table knows of a learned route is what it knows of the slot that holds
/// the route; of a route that no slot holds it knows nothing.
pub proof fn law_what_is_known_of_a_route(slots: Seq<Slot>, j: int, route: Route)
    requires
        valid_slots(slots),
        0 <= j < slots.len(),
    ensures
        learned_part(slots, slots[j].route) == slots[j].learned,
        (forall|i: int| 0 <= i < slots.len() ==> (#[trigger] slots[i]).route != route)
            ==> learned_part(slots, route) is None,
{
    crate::iface::ownership::lemma_learned_slot(slots, j);
}

/// A candidate with the prefix and router of a configured route is not taken, so
/// that no learned route shares them.
pub proof fn law_configured_route_stands_in(
    slots: Seq<Slot>,
    cs: Seq<Option<LearnedRoute>>,
    k: int,
    x: int,
)
    requires
        valid_slots(slots),
        candidates_distinct(cs),
        0 <= k < slots.len(),
        slots[k].learned is None,
        slots[k].route.identity() is Some,
        0 <= x < reconciled(slots, cs).len(),
        reconciled(slots, cs)[x].learned is Some,
    ensures
        reconciled(slots, cs)[x].route.identity() != slots[k].route.identity(),
{
    let t = reconciled(slots, cs)[x];
    let taken = chosen(slots, cs, learned_room(slots));
    lemma_chosen(slots, cs, learned_room(slots));
    law_reconciled_learned_are_chosen(slots, cs, t);
    assert(reconciled(slots, cs).contains(t));
    let c = choose|c: LearnedRoute| #[trigger] taken.contains(c) && t == c.slot();
    let m = choose|m: int| 0 <= m < taken.len() && taken[m] == c;
    assert(!configured_has(slots, taken[m].identity()));
}

/// Every learned route that is public was one of the candidates, and has its
/// deadline, preference and order.
pub proof fn law_public_routes_are_candidates(
    slots: Seq<Slot>,
    cs: Seq<Option<LearnedRoute>>,
    x: int,
)
    requires
        valid_slots(slots),
        candidates_distinct(cs),
        0 <= x < reconciled(slots, cs).len(),
        reconciled(slots, cs)[x].learned is Some,
    ensures
        exists|i: int|
            0 <= i < cs.len() && (#[trigger] cs[i]) is Some && reconciled(slots, cs)[x].route.cidr
                == IpCidr::Ipv6(cs[i]->0.cidr) && reconciled(slots, cs)[x].route.via_router
                == IpAddress::Ipv6(cs[i]->0.via_router) && reconciled(slots, cs)[x].route.expires_at
                == cs[i]->0.valid_until && reconciled(slots, cs)[x].learned->0.preference
                == cs[i]->0.preference && reconciled(slots, cs)[x].learned->0.order
                == cs[i]->0.order,
{
    let t = reconciled(slots, cs)[x];
    let taken = chosen(slots, cs, learned_room(slots));
    lemma_chosen(slots, cs, learned_room(slots));
    law_reconciled_learned_are_chosen(slots, cs, t);
    assert(reconciled(slots, cs).contains(t));
    let c = choose|c: LearnedRoute| #[trigger] taken.contains(c) && t == c.slot();
    let m = choose|m: int| 0 <= m < taken.len() && taken[m] == c;
    assert(cs.contains(Some(taken[m])));
    let i = choose|i: int| 0 <= i < cs.len() && cs[i] == Some(c);
    assert(cs[i] is Some);
}

/// A learned route is passed over as unreachable just if the test says so of its
/// router.
pub proof fn law_test_decides_who_is_reachable<F: Fn(&Ipv6Address) -> bool>(
    slots: Seq<Slot>,
    destination: Ipv6Address,
    now: Instant,
    is_unreachable: F,
    unreachable: Seq<bool>,
    k: int,
    router: Ipv6Address,
)
    requires
        valid_slots(slots),
        prefixes_fit(slots),
        crate::iface::selection::answers(slots, destination, now, is_unreachable, unreachable),
        0 <= k < slots.len(),
        slots[k].learned is Some,
        slots[k].route.via_router == IpAddress::Ipv6(router),
        matches_prefix(slots[k].route.cidr, destination),
        slots[k].route.expires_at matches Some(t) ==> now.micros < t.micros,
    ensures
        call_ensures(is_unreachable, (&router,), unreachable[k]),
        unreachable.len() == slots.len(),
        !crate::iface::selection::none_skipped(slots)[k],
{
    lemma_matches_prefix(slots, k, destination);
    assert(slots[k].route.identity() is Some);
    assert(learned_leads(slots[k], destination, now));
}

/// A node counts as a router while a learned route through it has not expired.
pub proof fn law_learned_routers(slots: Seq<Slot>, address: Ipv6Address, now: Instant)
    requires
        valid_slots(slots),
    ensures
        crate::iface::selection::learned_through(slots, address, now) <==> exists|i: int|
            0 <= i < slots.len() && (#[trigger] slots[i]).learned is Some
                && slots[i].route.via_router == IpAddress::Ipv6(address) && (
            slots[i].route.expires_at matches Some(t) ==> now.micros < t.micros),
{
    assert forall|i: int| 0 <= i < slots.len() && (
    #[trigger] slots[i]).learned is Some implies slots[i].route.identity() is Some by {}
    if crate::iface::selection::learned_through(slots, address, now) {
        let i = choose|i: int|
            0 <= i < slots.len() && (#[trigger] slots[i]).learned is Some && learned_in(
                slots[i],
            ).valid_at(now) && learned_in(slots[i]).via_router == address;
        assert(slots[i].route.via_router == IpAddress::Ipv6(address));
    }
    if exists|i: int|
        0 <= i < slots.len() && (#[trigger] slots[i]).learned is Some && slots[i].route.via_router
            == IpAddress::Ipv6(address) && (slots[i].route.expires_at matches Some(t) ==> now.micros
            < t.micros) {
        let i = choose|i: int|
            0 <= i < slots.len() && (#[trigger] slots[i]).learned is Some
                && slots[i].route.via_router == IpAddress::Ipv6(address) && (
            slots[i].route.expires_at matches Some(t) ==> now.micros < t.micros);
        assert(learned_in(slots[i]).via_router == address);
    }
}

/// The routers to probe of two parts of a table are those of the one and then
/// those of the other.
pub proof fn law_probes_follow_the_table(
    a: Seq<Slot>,
    b: Seq<Slot>,
    destination: Ipv6Address,
    now: Instant,
    r: RouteSelection,
)
    ensures
        probes(a + b, destination, now, r) == probes(a, destination, now, r) + probes(
            b,
            destination,
            now,
            r,
        ),
    decreases b.len(),
{
    if b.len() == 0 {
        assert(a + b =~= a);
        assert(probes(a, destination, now, r) + probes(b, destination, now, r) =~= probes(
            a,
            destination,
            now,
            r,
        ));
    } else {
        law_probes_follow_the_table(a, b.drop_last(), destination, now, r);
        assert((a + b).drop_last() =~= a + b.drop_last());
        assert((a + b).last() == b.last());
        assert(probes(a + b, destination, now, r) =~= probes(a, destination, now, r) + probes(
            b,
            destination,
            now,
            r,
        ));
    }
}

/// Routes are ordered by address, then by the length of the prefix, then by
/// router, and of two different ones just one comes before the other.
pub proof fn law_order_of_identities(a: Identity, b: Identity)
    ensures
        a.0.address.bits < b.0.address.bits ==> identity_before(a, b),
        a.0.address.bits == b.0.address.bits && a.0.prefix_len < b.0.prefix_len ==> identity_before(
            a,
            b,
        ),
        a.0 == b.0 && a.1.bits < b.1.bits ==> identity_before(a, b),
        a == b <==> !identity_before(a, b) && !identity_before(b, a),
        !(identity_before(a, b) && identity_before(b, a)),
{
}

/// Of all routes of a table that match a destination, have not expired and are
/// either configured or lead through a router that can be reached, none has a
/// longer prefix than the one that is chosen. Where a configured one has as long
/// a prefix, a configured one is chosen.
pub proof fn law_longest_usable_prefix_is_chosen(
    slots: Seq<Slot>,
    destination: Ipv6Address,
    now: Instant,
    unreachable: Seq<bool>,
    j: int,
)
    requires
        valid_slots(slots),
        prefixes_fit(slots),
        0 <= j < slots.len(),
        matches_prefix(slots[j].route.cidr, destination),
        slots[j].learned is None ==> (slots[j].route.expires_at matches Some(t) ==> now.micros
            <= t.micros),
        slots[j].learned is Some ==> !unreachable[j] && (slots[j].route.expires_at matches Some(t)
            ==> now.micros < t.micros),
    ensures
        ({
            let r = routed(slots, destination, now, unreachable);
            &&& r.next_hop is Some
            &&& !r.selected_is_unreachable
            &&& match r.selected {
                Some(SelectedRoute::Configured(c)) => {
                    &&& bits_of_cidr(c.cidr) >= bits_of(slots[j])
                    &&& r.next_hop == Some(c.via_router)
                },
                Some(SelectedRoute::Learned(l)) => {
                    &&& l.cidr.prefix_len >= bits_of(slots[j])
                    &&& l.cidr.prefix_len == bits_of(slots[j]) ==> slots[j].learned is Some
                        && l.preference.rank_of() >= slots[j].learned->0.preference.rank_of()
                    &&& r.next_hop == Some(IpAddress::Ipv6(l.via_router))
                },
                None => false,
            }
        }),
{
    let r = routed(slots, destination, now, unreachable);
    let c = best_configured(slots, destination, now);
    let l = best_learned(slots, destination, now, unreachable);
    if slots[j].learned is None {
        law_longest_configured_prefix_wins(slots, destination, now, j);
        let i = choose|i: int|
            0 <= i < slots.len() && c == Some((#[trigger] slots[i]).route)
                && slots[i].learned is None && matches_prefix(slots[i].route.cidr, destination) && (
            slots[i].route.expires_at matches Some(t) ==> now.micros <= t.micros) && (bits_of(
                slots[j],
            ) < bits_of(slots[i]) || bits_of(slots[j]) == bits_of(slots[i]) && j <= i);
        lemma_matches_prefix(slots, i, destination);
    } else {
        law_longest_learned_prefix_wins(slots, destination, now, unreachable, j);
    }
    if c is Some {
        law_no_configured_route(slots, destination, now);
        let b = choose|i: int| is_best_configured(slots, destination, now, i);
        assert(is_best_configured(slots, destination, now, b));
        lemma_matches_prefix(slots, b, destination);
    }
}

/// Where only routers that cannot be reached lead to a destination, the one of
/// the longest prefix is chosen all the same, and known to be unreachable.
pub proof fn law_unreachable_router_rather_than_none(
    slots: Seq<Slot>,
    destination: Ipv6Address,
    now: Instant,
    unreachable: Seq<bool>,
    j: int,
)
    requires
        valid_slots(slots),
        prefixes_fit(slots),
        0 <= j < slots.len(),
        slots[j].learned is Some,
        matches_prefix(slots[j].route.cidr, destination),
        slots[j].route.expires_at matches Some(t) ==> now.micros < t.micros,
        routed(slots, destination, now, unreachable).selected_is_unreachable,
    ensures
        unreachable[j],
        routed(slots, destination, now, unreachable).selected matches Some(
            SelectedRoute::Learned(l),
        ) && l.cidr.prefix_len >= bits_of(slots[j]),
{
    law_longest_learned_prefix_wins(
        slots,
        destination,
        now,
        crate::iface::selection::none_skipped(slots),
        j,
    );
    if !unreachable[j] {
        law_longest_usable_prefix_is_chosen(slots, destination, now, unreachable, j);
    }
}

/// Where no route of the table matches a destination and has not expired, there
/// is no next hop.
pub proof fn law_no_route_no_next_hop(
    slots: Seq<Slot>,
    destination: Ipv6Address,
    now: Instant,
    unreachable: Seq<bool>,
)
    requires
        valid_slots(slots),
        prefixes_fit(slots),
        forall|i: int|
            0 <= i < slots.len() ==> !matches_prefix((#[trigger] slots[i]).route.cidr, destination)
                || (slots[i].route.expires_at matches Some(t) && now.micros > t.micros),
    ensures
        routed(slots, destination, now, unreachable).next_hop is None,
{
    if best_configured(slots, destination, now) is Some {
        law_no_configured_route(slots, destination, now);
    }
    law_chosen_learned_route_is_held(slots, destination, now, unreachable);
    law_chosen_learned_route_is_held(
        slots,
        destination,
        now,
        crate::iface::selection::none_skipped(slots),
    );
}

} // verus!
