//! What holds of the neighbor cache, of autoconfiguration and of the choice of
//! routes across several calls.

use vstd::prelude::*;
use crate::collections::{
    has_key, keys_distinct, lemma_key_index, lemma_without_key, value_of, without_key, Key,
};
use crate::config::IFACE_NEIGHBOR_CACHE_COUNT;
use crate::iface::neighbor;
use crate::iface::neighbor::{
    expired_dropped, expires_first, lemma_neighbor_set, mapped, refilled, Neighbor,
    NeighborResolution, MAX_NEIGHBOR_PROBES,
};
use crate::iface::route::{
    is_best_route, routes_of, Identity, LearnedRoute, Route as InterfaceRoute, Slot,
};
use crate::iface::selection::{
    best_configured, best_learned, configured_leads, is_best_configured, is_best_learned,
    learned_in, learned_leads, none_skipped, selection, worth_probing, SelectedRoute,
};
use crate::iface::slaac;
use crate::iface::slaac::{
    advertisement_processed, arrived_before, covers, dispensable, has_identity, header_processed,
    identities_before, identities_sorted, identity_index, infos_processed, inserted, ipv6_default,
    is_deadline, is_first_deadline, lemma_header_processed, lemma_infos_processed, lemma_rebased,
    lemma_route_withdrawn, lemma_victim, live, orders_distinct, prefix_processed, prefixes_pruned,
    rebased, routable, route_advertised, route_deadline, route_refreshed, route_withdrawn,
    routes_pruned, solicitation_sent, some_dispensable, something_expired, unexpired, valid_state,
    victim, with_spare_order, Phase, PrefixInfo, Route, SLAAC_ROUTE_CANDIDATE_COUNT,
};
use crate::sequences::lemma_filter_positions;
use crate::time::{Duration, Instant};
use crate::wire::hwaddr::HardwareAddress;
use crate::wire::ip::{IpAddress, Ipv6Address, Ipv6Cidr};
use crate::wire::ndiscoption::{
    NdiscPrefixInformation, NdiscRouteInformation, NdiscRoutePreference,
};

verus! {

/// Whether every route with the identity is marked as withdrawn.
pub open spec fn gone(routes: Seq<Route>, id: Identity) -> bool {
    forall|i: int|
        0 <= i < routes.len() && (#[trigger] routes[i]).identity() == id ==> routes[i].withdrawn()
}

/// A route that is marked as withdrawn is not among those in use.
proof fn lemma_gone_not_live(routes: Seq<Route>, id: Identity)
    requires
        gone(routes, id),
    ensures
        !has_identity(live(routes), id),
{
    let at = lemma_filter_positions(routes, |r: Route| !r.withdrawn());
    let some = live(routes);
    if has_identity(some, id) {
        let i = choose|i: int| 0 <= i < some.len() && (#[trigger] some[i]).identity() == id;
        assert(routes[at[i]].identity() == id);
    }
}

/// A route that was withdrawn stays so while another one is advertised.
proof fn lemma_stays_gone(
    s: slaac::State,
    cidr: Ipv6Cidr,
    router: Ipv6Address,
    preference: NdiscRoutePreference,
    valid_until: Option<Instant>,
    id: Identity,
)
    requires
        valid_state(s),
        identities_sorted(s.routes),
        gone(s.routes, id),
        id != (cidr, router),
    ensures
        gone(route_advertised(s, cidr, router, preference, valid_until).routes, id),
{
    let r = route_advertised(s, cidr, router, preference, valid_until);
    let own: Identity = (cidr, router);
    if has_identity(s.routes, own) {
        let i = identity_index(s.routes, own);
        assert(s.routes[i].identity() == own);
        slaac::lemma_with_spare_order(s);
        let t = with_spare_order(s);
        assert forall|k: int| 0 <= k < r.routes.len() && (
        #[trigger] r.routes[k]).identity() == id implies r.routes[k].withdrawn() by {
            assert(k != i);
            assert(t.routes[k].identity() == s.routes[k].identity());
        }
    } else {
        let purged = slaac::State { routes: live(s.routes), ..s };
        slaac::lemma_filtered(s.routes, |r: Route| !r.withdrawn(), s.next_route_order);
        lemma_gone_not_live(s.routes, id);
        slaac::lemma_with_spare_order(purged);
        let t = with_spare_order(purged);
        assert forall|k: int| 0 <= k < t.routes.len() implies (#[trigger] t.routes[k]).identity()
            != id by {
            assert(purged.routes[k].identity() == t.routes[k].identity());
        }
        let order = t.next_route_order;
        let route = Route { cidr, via_router: router, valid_until, preference, order };
        let rest = if t.routes.len() < SLAAC_ROUTE_CANDIDATE_COUNT {
            t.routes
        } else {
            lemma_victim(t.routes, route);
            match victim(t.routes, route) {
                Some(v) => t.routes.remove(v),
                None => t.routes,
            }
        };
        assert forall|k: int| 0 <= k < rest.len() implies (#[trigger] rest[k]).identity() != id by {
            if rest.len() < t.routes.len() {
                let v = victim(t.routes, route)->0;
                assert(rest[k] == t.routes[if k < v {
                    k
                } else {
                    k + 1
                }]);
            }
        }
        lemma_identities_before_len(rest, own);
        let p = identities_before(rest, own) as int;
        assert forall|k: int| 0 <= k < rest.len() + 1 implies (
        #[trigger] rest.insert(p, route)[k]).identity() != id by {
            if k < p {
                assert(rest.insert(p, route)[k] == rest[k]);
            } else if k > p {
                assert(rest.insert(p, route)[k] == rest[k - 1]);
            }
        }
    }
}

/// Whether the routes of an advertisement withdraw a prefix and do not offer it
/// again behind that.
pub open spec fn withdraws(infos: Seq<NdiscRouteInformation>, cidr: Ipv6Cidr) -> bool {
    exists|k: int| #[trigger] withdraws_at(infos, cidr, k)
}

/// Whether the route at `k` withdraws a prefix and none behind it offers it
/// again.
pub open spec fn withdraws_at(infos: Seq<NdiscRouteInformation>, cidr: Ipv6Cidr, k: int) -> bool {
    &&& 0 <= k < infos.len()
    &&& prefix_of(infos[k]) == cidr
    &&& infos[k].route_lifetime.micros == 0
    &&& forall|j: int|
        k < j < infos.len() && prefix_of(#[trigger] infos[j]) == cidr
            ==> infos[j].route_lifetime.micros == 0
}

/// The prefix of a route of an advertisement.
pub open spec fn prefix_of(info: NdiscRouteInformation) -> Ipv6Cidr {
    Ipv6Cidr { address: info.prefix, prefix_len: info.prefix_len }
}

/// A route that the routes of an advertisement withdraw is gone.
proof fn lemma_withdrawn_by_infos(
    s: slaac::State,
    source: Ipv6Address,
    infos: Seq<NdiscRouteInformation>,
    now: Instant,
    cidr: Ipv6Cidr,
)
    requires
        valid_state(s),
        identities_sorted(s.routes),
        routable(cidr),
        withdraws(infos, cidr),
    ensures
        gone(infos_processed(s, source, infos, now).routes, (cidr, source)),
    decreases infos.len(),
{
    let k = choose|k: int| #[trigger] withdraws_at(infos, cidr, k);
    let first = infos.drop_last();
    let info = infos.last();
    let before = infos_processed(s, source, first, now);
    lemma_infos_processed(s, source, first, now);
    assert(infos[infos.len() - 1] == info);
    if prefix_of(info) == cidr {
        lemma_route_withdrawn(before, (cidr, source));
        lemma_marked_is_gone(before, (cidr, source));
    } else {
        assert(withdraws_at(first, cidr, k)) by {
            assert forall|j: int|
                k < j < first.len() && prefix_of(
                    #[trigger] first[j],
                ) == cidr implies first[j].route_lifetime.micros == 0 by {
                assert(infos[j] == first[j]);
            }
        }
        lemma_withdrawn_by_infos(s, source, first, now, cidr);
        lemma_stays_gone(
            before,
            prefix_of(info),
            source,
            info.preference,
            route_deadline(info, now),
            (cidr, source),
        );
    }
}

/// A route that was just withdrawn is gone.
proof fn lemma_marked_is_gone(s: slaac::State, id: Identity)
    requires
        valid_state(s),
        identities_sorted(s.routes),
    ensures
        gone(route_withdrawn(s, id).routes, id),
{
    let t = route_withdrawn(s, id);
    lemma_route_withdrawn(s, id);
    assert forall|i: int| 0 <= i < t.routes.len() && (
    #[trigger] t.routes[i]).identity() == id implies t.routes[i].withdrawn() by {
        assert(has_identity(t.routes, id));
        let k = identity_index(t.routes, id);
        assert(t.routes[k].identity() == id);
        if i < k {
            assert(t.routes[i].identity() != t.routes[k].identity());
        } else if k < i {
            assert(t.routes[k].identity() != t.routes[i].identity());
        }
    }
}

/// An advertisement that withdraws a route, and does not offer it again behind
/// that, leaves no route of its sender to that prefix.
pub proof fn law_withdrawn_route_is_gone(
    s: slaac::State,
    source: Ipv6Address,
    lifetime: Duration,
    preference: NdiscRoutePreference,
    prefix: Option<NdiscPrefixInformation>,
    infos: Seq<NdiscRouteInformation>,
    now: Instant,
    cidr: Ipv6Cidr,
)
    requires
        valid_state(s),
        identities_sorted(s.routes),
        routable(cidr),
        withdraws(infos, cidr),
    ensures
        !has_identity(
            advertisement_processed(s, source, lifetime, preference, prefix, infos, now).routes,
            (cidr, source),
        ),
{
    let a = prefix_processed(routes_pruned(s, now), prefix, now);
    let b = header_processed(a, source, lifetime, preference, now);
    lemma_header_processed(s, source, lifetime, preference, prefix, now);
    lemma_withdrawn_by_infos(b, source, infos, now, cidr);
    lemma_gone_not_live(infos_processed(b, source, infos, now).routes, (cidr, source));
}

/// A route that is advertised is known, with its preference and its deadline,
/// if it was known before or there is room for it.
pub proof fn law_advertised_route_is_known(
    s: slaac::State,
    cidr: Ipv6Cidr,
    router: Ipv6Address,
    preference: NdiscRoutePreference,
    valid_until: Option<Instant>,
)
    requires
        valid_state(s),
        identities_sorted(s.routes),
        has_identity(s.routes, (cidr, router)) || live(s.routes).len()
            < SLAAC_ROUTE_CANDIDATE_COUNT,
    ensures
        exists|i: int|
            0 <= i < route_advertised(s, cidr, router, preference, valid_until).routes.len() && {
                let r = #[trigger] route_advertised(
                    s,
                    cidr,
                    router,
                    preference,
                    valid_until,
                ).routes[i];
                r.identity() == (cidr, router) && r.preference == preference && r.valid_until
                    == valid_until && !r.withdrawn()
            },
{
    let t = route_advertised(s, cidr, router, preference, valid_until);
    let own: Identity = (cidr, router);
    if has_identity(s.routes, own) {
        let i = identity_index(s.routes, own);
        assert(s.routes[i].identity() == own);
        slaac::lemma_with_spare_order(s);
        let r = t.routes[i];
        assert(r.identity() == own);
    } else {
        let purged = slaac::State { routes: live(s.routes), ..s };
        slaac::lemma_filtered(s.routes, |r: Route| !r.withdrawn(), s.next_route_order);
        slaac::lemma_with_spare_order(purged);
        let rest = with_spare_order(purged).routes;
        lemma_identities_before_len(rest, own);
        let p = identities_before(rest, own) as int;
        let r = t.routes[p];
        assert(r.identity() == own);
    }
}

/// An advertisement without a router lifetime and without routes leaves no
/// default route of its sender.
pub proof fn law_withdrawn_router_is_gone(
    s: slaac::State,
    source: Ipv6Address,
    preference: NdiscRoutePreference,
    prefix: Option<NdiscPrefixInformation>,
    now: Instant,
)
    requires
        valid_state(s),
        identities_sorted(s.routes),
    ensures
        !has_identity(
            advertisement_processed(
                s,
                source,
                Duration { micros: 0 },
                preference,
                prefix,
                Seq::empty(),
                now,
            ).routes,
            (ipv6_default(), source),
        ),
{
    let zero = Duration { micros: 0 };
    let a = prefix_processed(routes_pruned(s, now), prefix, now);
    let b = header_processed(a, source, zero, preference, now);
    lemma_header_processed(s, source, zero, preference, prefix, now);
    slaac::lemma_prefix_processed(s, prefix, now);
    lemma_marked_is_gone(a, (ipv6_default(), source));
    lemma_gone_not_live(b.routes, (ipv6_default(), source));
}

/// An advertisement keeps the state valid and its routes in order, and leaves
/// none that is marked as withdrawn.
pub proof fn law_advertisement_keeps_order(
    s: slaac::State,
    source: Ipv6Address,
    lifetime: Duration,
    preference: NdiscRoutePreference,
    prefix: Option<NdiscPrefixInformation>,
    infos: Seq<NdiscRouteInformation>,
    now: Instant,
)
    requires
        valid_state(s),
        identities_sorted(s.routes),
    ensures
        ({
            let t = advertisement_processed(
                s,
                source,
                lifetime,
                preference,
                prefix,
                infos,
                now,
            );
            &&& valid_state(t)
            &&& identities_sorted(t.routes)
            &&& slaac::none_withdrawn(t.routes)
        }),
{
    let a = prefix_processed(routes_pruned(s, now), prefix, now);
    let b = header_processed(a, source, lifetime, preference, now);
    let c = infos_processed(b, source, infos, now);
    lemma_header_processed(s, source, lifetime, preference, prefix, now);
    lemma_infos_processed(b, source, infos, now);
    slaac::lemma_filtered(c.routes, |r: Route| !r.withdrawn(), c.next_route_order);
}

/// A route without end never expires.
pub proof fn law_infinite_route_never_expires(
    info: NdiscRouteInformation,
    route: Route,
    now: Instant,
    later: Instant,
)
    requires
        info.route_lifetime == NdiscRouteInformation::infinite(),
        route.valid_until == route_deadline(info, now),
    ensures
        route.valid_at(later),
{
}

/// A prefix that has not expired keeps its entry when the others are removed,
/// and one that has expired loses it.
pub proof fn law_pruned_prefixes(
    prefixes: Seq<(Key, PrefixInfo)>,
    n: nat,
    now: Instant,
    k: Key,
)
    requires
        keys_distinct(prefixes),
        n <= prefixes.len(),
    ensures
        keys_distinct(prefixes_pruned(prefixes, n, now)),
        value_of(prefixes_pruned(prefixes, n, now), k) == match value_of(prefixes, k) {
            Some(info) if !info.valid_at(now) && (exists|i: int|
                0 <= i < n && (#[trigger] prefixes[i]).0 == k) => None,
            v => v,
        },
    decreases n,
{
    if n > 0 {
        let m = (n - 1) as nat;
        law_pruned_prefixes(prefixes, m, now, k);
        let rest = prefixes_pruned(prefixes, m, now);
        let (key, info) = prefixes[m as int];
        lemma_without_key(rest, key);
        if has_key(prefixes, k) {
            lemma_key_index(prefixes, k);
        }
        assert(has_key(prefixes, key));
        lemma_key_index(prefixes, key);
        assert(value_of(prefixes, key) == Some(info));
        assert(value_of(without_key(rest, key), k) == if k == key {
            None
        } else {
            value_of(rest, k)
        });
        if k == key {
            assert(prefixes[m as int].0 == k);
        }
    }
}

/// Once the state was updated, nothing in it has expired, so that there is
/// nothing to bring into use or to take out of it.
pub proof fn law_updated_state_is_current(s: slaac::State, now: Instant)
    requires
        valid_state(s),
    ensures
        !something_expired(slaac::updated(s, now), now),
        !slaac::updated(s, now).sync_required,
{
    let after = prefixes_pruned(s.prefixes, s.prefixes.len(), now);
    assert forall|i: int| 0 <= i < after.len() implies (#[trigger] after[i]).1.valid_at(now) by {
        let k = after[i].0;
        law_pruned_prefixes(s.prefixes, s.prefixes.len(), now, k);
        assert(has_key(after, k));
        lemma_key_index(after, k);
        assert(after[i].1 == value_of(after, k)->0) by {
            let m = crate::collections::key_index(after, k);
            if m < i {
                assert(after[m].0 != after[i].0);
            }
        }
        if has_key(s.prefixes, k) {
            lemma_key_index(s.prefixes, k);
            let m = crate::collections::key_index(s.prefixes, k);
            assert(s.prefixes[m].0 == k);
        }
    }
    let routes = unexpired(s.routes, now);
    let at = lemma_filter_positions(s.routes, |r: Route| r.valid_at(now));
    assert forall|i: int| 0 <= i < routes.len() implies (#[trigger] routes[i]).valid_at(now) by {
        assert(0 <= at[i]);
    }
}

/// Where a full table has a route that another can stand in for, an incoming
/// route takes no prefix off the table.
pub proof fn law_admission_keeps_coverage(routes: Seq<Route>, incoming: Route, cidr: Ipv6Cidr)
    requires
        routes.len() <= SLAAC_ROUTE_CANDIDATE_COUNT,
        some_dispensable(routes, incoming),
        victim(routes, incoming) is Some,
        covers(routes, cidr) || cidr == incoming.cidr,
    ensures
        covers(inserted(routes.remove(victim(routes, incoming)->0), incoming), cidr),
{
    let v = victim(routes, incoming)->0;
    lemma_victim(routes, incoming);
    let rest = routes.remove(v);
    let p = identities_before(rest, incoming.identity()) as int;
    let all = rest.insert(p, incoming);
    lemma_identities_before_len(rest, incoming.identity());
    assert(all[p] == incoming);
    if cidr != incoming.cidr {
        let i = choose|i: int| 0 <= i < routes.len() && (#[trigger] routes[i]).cidr == cidr;
        let j = if i == v {
            choose|j: int|
                0 <= j < routes.len() && j != v && (#[trigger] routes[j]).cidr == routes[v].cidr
        } else {
            i
        };
        assert(routes[j].cidr == cidr && j != v);
        let k = if j < v {
            j
        } else {
            j - 1
        };
        assert(rest[k] == routes[j]);
        assert(all[if k < p {
            k
        } else {
            k + 1
        }] == routes[j]);
    }
}

/// No more routes come before an identity than there are.
pub(crate) proof fn lemma_identities_before_len(routes: Seq<Route>, id: Identity)
    ensures
        identities_before(routes, id) <= routes.len(),
    decreases routes.len(),
{
    if routes.len() > 0 {
        lemma_identities_before_len(routes.drop_last(), id);
    }
}

/// A route that brings no new prefix to a full table, or that would cost it one,
/// takes only the place of a less useful route.
pub proof fn law_admission_is_a_gain(routes: Seq<Route>, incoming: Route)
    requires
        routes.len() <= SLAAC_ROUTE_CANDIDATE_COUNT,
        victim(routes, incoming) is Some,
        covers(routes, incoming.cidr) || !some_dispensable(routes, incoming),
    ensures
        routes[victim(routes, incoming)->0].less_useful(incoming),
{
}

/// Of the routes that may leave a full table, none is less useful than the one
/// that leaves.
pub proof fn law_least_useful_route_leaves(routes: Seq<Route>, incoming: Route, j: int)
    requires
        routes.len() <= SLAAC_ROUTE_CANDIDATE_COUNT,
        victim(routes, incoming) is Some,
        0 <= j < routes.len(),
        some_dispensable(routes, incoming) ==> dispensable(routes, incoming, j),
    ensures
        !routes[j].less_useful(routes[victim(routes, incoming)->0]),
{
    lemma_victim(routes, incoming);
}

/// Counting the orders from zero again leaves the order of arrival as it was.
pub proof fn law_rebasing_keeps_arrival_order(routes: Seq<Route>, next: u32, i: int, j: int)
    requires
        routes.len() <= SLAAC_ROUTE_CANDIDATE_COUNT,
        orders_distinct(routes, next),
        0 <= i < routes.len(),
        0 <= j < routes.len(),
    ensures
        routes[i].order < routes[j].order <==> rebased(routes)[i].order < rebased(routes)[j].order,
        arrived_before(routes, slaac::WITHDRAWN) <= SLAAC_ROUTE_CANDIDATE_COUNT,
{
    lemma_rebased(routes, next);
    assert(routes[i].order < routes[j].order <==> rebased(routes)[i].order
        < rebased(routes)[j].order);
}

/// The order that a new route draws is not the mark of a withdrawn route, and
/// comes behind those of all stored routes that are not withdrawn. Drawing it
/// changes nothing of the stored routes but the numbers of their orders, and
/// neither which are withdrawn nor which arrived before which.
pub proof fn law_drawn_order_is_the_newest(s: slaac::State)
    requires
        s.routes.len() <= SLAAC_ROUTE_CANDIDATE_COUNT,
        orders_distinct(s.routes, s.next_route_order),
    ensures
        ({
            let t = with_spare_order(s);
            let drawn = t.next_route_order;
            &&& drawn < u32::MAX
            &&& t == (slaac::State {
                routes: t.routes,
                next_route_order: t.next_route_order,
                ..s
            })
            &&& t.routes.len() == s.routes.len()
            &&& forall|i: int|
                0 <= i < s.routes.len() ==> {
                    let r = #[trigger] t.routes[i];
                    &&& r == Route { order: r.order, ..s.routes[i] }
                    &&& r.withdrawn() <==> s.routes[i].withdrawn()
                    &&& !r.withdrawn() ==> r.order < drawn
                }
            &&& forall|i: int, j: int|
                0 <= i < s.routes.len() && 0 <= j < s.routes.len() ==> ((
                #[trigger] t.routes[i]).order < (#[trigger] t.routes[j]).order <==> s.routes[i].order
                    < s.routes[j].order)
        }),
{
    slaac::lemma_with_spare_order(s);
    let t = with_spare_order(s);
    assert forall|i: int, j: int| 0 <= i < s.routes.len() && 0 <= j < s.routes.len() implies ((
    #[trigger] t.routes[i]).order < (#[trigger] t.routes[j]).order <==> s.routes[i].order
        < s.routes[j].order) by {
        if s.next_route_order == u32::MAX {
            law_rebasing_keeps_arrival_order(s.routes, s.next_route_order, i, j);
        }
    }
}

/// A route that is advertised again keeps its place in the order of arrival; one
/// that was withdrawn before becomes the newest.
pub proof fn law_refreshed_route_order(
    s: slaac::State,
    i: int,
    preference: NdiscRoutePreference,
    valid_until: Option<Instant>,
    j: int,
)
    requires
        valid_state(s),
        0 <= i < s.routes.len(),
        0 <= j < s.routes.len(),
        i != j,
        !s.routes[j].withdrawn(),
    ensures
        ({
            let t = route_refreshed(s, i, preference, valid_until);
            &&& s.routes[i].withdrawn() ==> t.routes[j].order < t.routes[i].order
            &&& !s.routes[i].withdrawn() ==> t.routes[i].order == s.routes[i].order
                && t.routes[j].order == s.routes[j].order
        }),
{
    slaac::lemma_with_spare_order(s);
    let spare = with_spare_order(s);
    assert(spare.routes[j].withdrawn() <==> s.routes[j].withdrawn());
}

/// Once a node is no longer a router, no learned route leads through it.
pub proof fn law_removed_router_is_gone(routes: Seq<Route>, address: Ipv6Address, i: int)
    requires
        0 <= i < routes.filter(|r: Route| r.via_router != address).len(),
    ensures
        routes.filter(|r: Route| r.via_router != address)[i].via_router != address,
{
    let at = lemma_filter_positions(routes, |r: Route| r.via_router != address);
    assert(0 <= at[i]);
}

/// Each solicitation that is sent when it is due uses up one of those that are
/// left, or ends the soliciting.
pub proof fn law_solicitations_end(s: slaac::State, now: Instant)
    requires
        slaac::solicitation_due(s, now),
    ensures
        solicitation_sent(s, now).num_solicitations < s.num_solicitations || solicitation_sent(
            s,
            now,
        ).phase == Phase::Stopped,
{
}

/// A configured route gives way only to a learned one with a longer prefix whose
/// router can be reached.
pub proof fn law_configured_route_wins(
    configured: InterfaceRoute,
    learned: Option<LearnedRoute>,
    reachable: Option<LearnedRoute>,
)
    ensures
        ({
            let r = selection(Some(configured), learned, reachable);
            let longer = reachable matches Some(l) && l.cidr.prefix_len
                > configured.cidr.len_of_prefix();
            &&& longer ==> r.selected == Some(SelectedRoute::Learned(reachable->0))
            &&& !longer ==> r.selected == Some(SelectedRoute::Configured(configured))
            &&& !r.selected_is_unreachable
        }),
{
}

/// A router that cannot be reached is chosen only where nothing else is left.
pub proof fn law_unreachable_router_is_last_resort(
    configured: Option<InterfaceRoute>,
    learned: Option<LearnedRoute>,
    reachable: Option<LearnedRoute>,
)
    ensures
        selection(configured, learned, reachable).selected_is_unreachable ==> configured is None
            && reachable is None && selection(configured, learned, reachable).selected == Some(
            SelectedRoute::Learned(learned->0),
        ),
        selection(configured, learned, reachable).next_hop is None <==> configured is None
            && learned is None && reachable is None,
{
}

/// The router of the chosen route is not probed.
pub proof fn law_chosen_router_is_not_probed(
    configured: Option<InterfaceRoute>,
    learned: Option<LearnedRoute>,
    reachable: Option<LearnedRoute>,
    route: LearnedRoute,
)
    requires
        worth_probing(selection(configured, learned, reachable), route),
    ensures
        selection(configured, learned, reachable).next_hop is Some,
        selection(configured, learned, reachable).next_hop != Some(
            IpAddress::Ipv6(route.via_router),
        ),
{
}

/// Where the choice falls on a learned route whose router can be reached, every
/// better learned route through another router is worth probing.
pub proof fn law_better_routes_are_probed(
    learned: Option<LearnedRoute>,
    reachable: LearnedRoute,
    route: LearnedRoute,
)
    requires
        route.better(reachable),
        route.via_router != reachable.via_router,
    ensures
        worth_probing(selection(None, learned, Some(reachable)), route),
{
}

/// Whether the slots hold a route to the destination decides whether there is a
/// next hop.
pub proof fn law_next_hop_where_a_route_leads(
    slots: Seq<Slot>,
    destination: Ipv6Address,
    now: Instant,
    unreachable: Seq<bool>,
    i: int,
)
    requires
        0 <= i < slots.len(),
        configured_leads(slots[i], destination, now) || learned_leads(slots[i], destination, now),
    ensures
        selection(
            best_configured(slots, destination, now),
            best_learned(slots, destination, now, none_skipped(slots)),
            best_learned(slots, destination, now, unreachable),
        ).next_hop is Some,
{
    if configured_leads(slots[i], destination, now) {
        lemma_some_best_configured(slots, destination, now, slots.len() as int);
        assert(slots.take(slots.len() as int) =~= slots);
    } else {
        lemma_some_best_learned(slots, destination, now, slots.len() as int);
        assert(slots.take(slots.len() as int) =~= slots);
    }
}

/// Among the first `n` slots, one holds the best configured route, if any holds
/// one.
proof fn lemma_some_best_configured(
    slots: Seq<Slot>,
    destination: Ipv6Address,
    now: Instant,
    n: int,
)
    requires
        0 <= n <= slots.len(),
    ensures
        (exists|i: int| 0 <= i < n && configured_leads(#[trigger] slots[i], destination, now))
            ==> exists|i: int| is_best_configured(slots.take(n), destination, now, i),
    decreases n,
{
    if n > 0 {
        let k = n - 1;
        let some = slots.take(k);
        let more = slots.take(n);
        lemma_some_best_configured(slots, destination, now, k);
        assert forall|j: int| 0 <= j < k implies some[j] == #[trigger] more[j] by {}
        assert(more[k] == slots[k]);
        if exists|i: int| is_best_configured(some, destination, now, i) {
            let b = choose|i: int| is_best_configured(some, destination, now, i);
            if configured_leads(slots[k], destination, now)
                && slots[k].route.cidr.len_of_prefix() >= more[b].route.cidr.len_of_prefix() {
                assert(is_best_configured(more, destination, now, k));
            } else {
                assert(is_best_configured(more, destination, now, b));
            }
        } else if configured_leads(slots[k], destination, now) {
            assert forall|j: int| 0 <= j < k implies !configured_leads(
                #[trigger] more[j],
                destination,
                now,
            ) by {
                assert(more[j] == slots[j]);
            }
            assert(is_best_configured(more, destination, now, k));
        }
    }
}

/// Among the first `n` slots, one holds the best learned route, if any holds
/// one.
proof fn lemma_some_best_learned(
    slots: Seq<Slot>,
    destination: Ipv6Address,
    now: Instant,
    n: int,
)
    requires
        0 <= n <= slots.len(),
    ensures
        (exists|i: int| 0 <= i < n && learned_leads(#[trigger] slots[i], destination, now))
            ==> exists|i: int|
            is_best_learned(slots.take(n), destination, now, none_skipped(slots), i),
    decreases n,
{
    let none = none_skipped(slots);
    if n > 0 {
        let k = n - 1;
        let some = slots.take(k);
        let more = slots.take(n);
        lemma_some_best_learned(slots, destination, now, k);
        assert forall|j: int| 0 <= j < k implies some[j] == #[trigger] more[j] by {}
        assert(more[k] == slots[k]);
        if exists|i: int| is_best_learned(some, destination, now, none, i) {
            let b = choose|i: int| is_best_learned(some, destination, now, none, i);
            if learned_leads(slots[k], destination, now) && learned_in(slots[k]).better(
                learned_in(more[b]),
            ) {
                assert(is_best_learned(more, destination, now, none, k));
            } else {
                assert(is_best_learned(more, destination, now, none, b));
            }
        } else if learned_leads(slots[k], destination, now) {
            assert forall|j: int| 0 <= j < k implies !learned_leads(
                #[trigger] more[j],
                destination,
                now,
            ) by {
                assert(more[j] == slots[j]);
            }
            assert(is_best_learned(more, destination, now, none, k));
        }
    }
}

/// Mapping an address changes no other neighbor while there is room.
pub proof fn law_mapping_keeps_other_neighbors(
    s: neighbor::State,
    address: IpAddress,
    hardware_addr: HardwareAddress,
    expires_at: Instant,
    other: IpAddress,
)
    requires
        neighbor::valid_state(s),
        address != other,
        s.neighbor(address) is Some || s.neighbors.len() < IFACE_NEIGHBOR_CACHE_COUNT,
    ensures
        mapped(s, address, hardware_addr, expires_at).neighbor(other) == s.neighbor(other),
{
    let is_router = s.neighbor(address) matches Some(n) && n.is_router;
    let n = Neighbor { hardware_addr, expires_at, is_router };
    lemma_neighbor_set(s.neighbors, neighbor::key_of(address), n);
    assert(neighbor::key_of(address) != neighbor::key_of(other));
}

/// A new neighbor takes the place of the one that expires first in a full
/// cache, and of no other.
pub proof fn law_full_cache_loses_first_to_expire(
    s: neighbor::State,
    address: IpAddress,
    hardware_addr: HardwareAddress,
    expires_at: Instant,
    other: IpAddress,
)
    requires
        neighbor::valid_state(s),
        address != other,
        s.neighbor(address) is None,
        s.neighbors.len() == IFACE_NEIGHBOR_CACHE_COUNT,
        s.neighbor(other) is Some,
    ensures
        mapped(s, address, hardware_addr, expires_at).neighbor(other) == (if exists|i: int|
            expires_first(s.neighbors, i) && (#[trigger] s.neighbors[i]).0 == neighbor::key_of(
                other,
            ) {
            None
        } else {
            s.neighbor(other)
        }),
{
    let n = Neighbor { hardware_addr, expires_at, is_router: false };
    lemma_neighbor_set(s.neighbors, neighbor::key_of(address), n);
    neighbor::lemma_expires_first(s.neighbors);
    let v = choose|i: int| expires_first(s.neighbors, i);
    assert(s.neighbors[v].0 == s.neighbors[v].0);
    assert forall|i: int| expires_first(s.neighbors, i) implies i == v by {
        assert(s.neighbors[i].1.expires_at.micros <= s.neighbors[v].1.expires_at.micros);
        assert(s.neighbors[v].1.expires_at.micros <= s.neighbors[i].1.expires_at.micros);
    }
    assert(neighbor::key_of(address) != neighbor::key_of(other));
}

/// Mapping an address completes its resolution and that of no other address.
pub proof fn law_mapping_completes_resolution(
    s: neighbor::State,
    address: Ipv6Address,
    hardware_addr: HardwareAddress,
    expires_at: Instant,
    other: Ipv6Address,
)
    requires
        neighbor::valid_state(s),
    ensures
        mapped(s, IpAddress::Ipv6(address), hardware_addr, expires_at).resolution(other) == (
        if other == address {
            None
        } else {
            s.resolution(other)
        }),
{
    lemma_without_key(s.resolutions, neighbor::key_of(IpAddress::Ipv6(address)));
}

/// A neighbor of IPv6 stays a router or a host when it is mapped again before it
/// has expired. One that is new or had expired is a host.
pub proof fn law_mapping_keeps_router_state(
    s: neighbor::State,
    address: Ipv6Address,
    hardware_addr: HardwareAddress,
    now: Instant,
)
    requires
        neighbor::valid_state(s),
        now.can_add(Duration { micros: 60_000_000 }),
    ensures
        refilled(s, IpAddress::Ipv6(address), hardware_addr, now).neighbor(
            IpAddress::Ipv6(address),
        )->0.is_router == (s.live_neighbor(IpAddress::Ipv6(address), now) matches Some(n)
            && n.is_router),
{
    let a = IpAddress::Ipv6(address);
    let t = expired_dropped(s, a, now);
    lemma_without_key(s.neighbors, neighbor::key_of(a));
    let is_router = t.neighbor(a) matches Some(n) && n.is_router;
    let n = Neighbor {
        hardware_addr,
        expires_at: now.after(Duration { micros: 60_000_000 }),
        is_router,
    };
    lemma_neighbor_set(t.neighbors, neighbor::key_of(a), n);
}

/// A resolution is under way for three seconds after its first probe, and for
/// one second after its last.
pub proof fn law_probe_windows(now: Instant, t: Instant)
    ensures
        NeighborResolution::first(now).outstanding(t) <==> now.micros <= t.micros < now.micros
            + 3_000_000,
        (NeighborResolution { probes_sent: MAX_NEIGHBOR_PROBES, last_probe_at: now }).outstanding(
            t,
        ) <==> now.micros <= t.micros < now.micros + 1_000_000,
{
}

/// A probe that is sent in time is counted, up to the third, and the resolution
/// is still under way.
pub proof fn law_probes_are_counted(r: NeighborResolution, now: Instant)
    requires
        r.wf(),
        r.outstanding(now),
    ensures
        r.probes_sent < MAX_NEIGHBOR_PROBES ==> r.probed(now).probes_sent == r.probes_sent + 1,
        r.probes_sent == MAX_NEIGHBOR_PROBES ==> r.probed(now).probes_sent == MAX_NEIGHBOR_PROBES,
        r.probed(now).outstanding(now),
{
}

/// A resolution that has ended begins anew with the next probe.
pub proof fn law_ended_resolution_begins_anew(r: NeighborResolution, now: Instant)
    requires
        !r.outstanding(now),
    ensures
        r.probed(now) == NeighborResolution::first(now),
{
}

/// Whether no route has expired.
pub open spec fn none_expired(routes: Seq<Route>, now: Instant) -> bool {
    forall|i: int| 0 <= i < routes.len() ==> (#[trigger] routes[i]).valid_at(now)
}

/// A filter leaves no expired route where there was none.
proof fn lemma_filter_none_expired(
    routes: Seq<Route>,
    keep: spec_fn(Route) -> bool,
    now: Instant,
)
    requires
        none_expired(routes, now),
    ensures
        none_expired(routes.filter(keep), now),
{
    let some = routes.filter(keep);
    let at = lemma_filter_positions(routes, keep);
    assert forall|i: int| 0 <= i < some.len() implies (#[trigger] some[i]).valid_at(now) by {
        assert(routes[at[i]].valid_at(now));
    }
}

/// A route that has not expired brings no expired route into the state.
proof fn lemma_advertised_none_expired(
    s: slaac::State,
    cidr: Ipv6Cidr,
    router: Ipv6Address,
    preference: NdiscRoutePreference,
    valid_until: Option<Instant>,
    now: Instant,
)
    requires
        valid_state(s),
        none_expired(s.routes, now),
        valid_until matches Some(t) ==> t.micros > now.micros,
    ensures
        none_expired(
            route_advertised(s, cidr, router, preference, valid_until).routes,
            now,
        ),
{
    let r = route_advertised(s, cidr, router, preference, valid_until);
    let own: Identity = (cidr, router);
    if has_identity(s.routes, own) {
        let i = identity_index(s.routes, own);
        assert(s.routes[i].identity() == own);
        slaac::lemma_with_spare_order(s);
        let t = with_spare_order(s);
        assert forall|k: int| 0 <= k < r.routes.len() implies (#[trigger] r.routes[k]).valid_at(
            now,
        ) by {
            assert(s.routes[k].valid_at(now));
            assert(t.routes[k].valid_until == s.routes[k].valid_until);
        }
    } else {
        let purged = slaac::State { routes: live(s.routes), ..s };
        slaac::lemma_filtered(s.routes, |r: Route| !r.withdrawn(), s.next_route_order);
        lemma_filter_none_expired(s.routes, |r: Route| !r.withdrawn(), now);
        slaac::lemma_with_spare_order(purged);
        let t = with_spare_order(purged);
        assert forall|k: int| 0 <= k < t.routes.len() implies (#[trigger] t.routes[k]).valid_at(
            now,
        ) by {
            assert(purged.routes[k].valid_at(now));
        }
        let order = t.next_route_order;
        let route = Route { cidr, via_router: router, valid_until, preference, order };
        let rest = if t.routes.len() < SLAAC_ROUTE_CANDIDATE_COUNT {
            t.routes
        } else {
            lemma_victim(t.routes, route);
            match victim(t.routes, route) {
                Some(v) => t.routes.remove(v),
                None => t.routes,
            }
        };
        assert forall|k: int| 0 <= k < rest.len() implies (#[trigger] rest[k]).valid_at(now) by {
            if rest.len() < t.routes.len() {
                let v = victim(t.routes, route)->0;
                assert(rest[k] == t.routes[if k < v {
                    k
                } else {
                    k + 1
                }]);
            }
        }
        lemma_identities_before_len(rest, own);
        let p = identities_before(rest, own) as int;
        assert forall|k: int| 0 <= k < rest.len() + 1 implies (
        #[trigger] rest.insert(p, route)[k]).valid_at(now) by {
            if k < p {
                assert(rest.insert(p, route)[k] == rest[k]);
            } else if k > p {
                assert(rest.insert(p, route)[k] == rest[k - 1]);
            }
        }
    }
}

/// Withdrawing a route brings no expired route into the state.
proof fn lemma_withdrawn_none_expired(s: slaac::State, id: Identity, now: Instant)
    requires
        none_expired(s.routes, now),
    ensures
        none_expired(route_withdrawn(s, id).routes, now),
{
    let t = route_withdrawn(s, id);
    if slaac::can_withdraw(s, id) {
        let i = identity_index(s.routes, id);
        assert(s.routes[i].identity() == id);
        assert forall|k: int| 0 <= k < t.routes.len() implies (#[trigger] t.routes[k]).valid_at(
            now,
        ) by {
            assert(s.routes[k].valid_at(now));
        }
    }
}

proof fn lemma_infos_none_expired(
    s: slaac::State,
    source: Ipv6Address,
    infos: Seq<NdiscRouteInformation>,
    now: Instant,
)
    requires
        valid_state(s),
        identities_sorted(s.routes),
        none_expired(s.routes, now),
        forall|i: int| 0 <= i < infos.len() ==> slaac::deadline_fits(#[trigger] infos[i], now),
    ensures
        none_expired(infos_processed(s, source, infos, now).routes, now),
    decreases infos.len(),
{
    if infos.len() > 0 {
        let first = infos.drop_last();
        let info = infos.last();
        assert forall|i: int| 0 <= i < first.len() implies slaac::deadline_fits(
            #[trigger] first[i],
            now,
        ) by {
            assert(infos[i] == first[i]);
        }
        lemma_infos_none_expired(s, source, first, now);
        lemma_infos_processed(s, source, first, now);
        let t = infos_processed(s, source, first, now);
        let cidr = prefix_of(info);
        assert(slaac::deadline_fits(infos[infos.len() - 1], now));
        if routable(cidr) {
            if info.route_lifetime.micros > 0 {
                lemma_advertised_none_expired(
                    t,
                    cidr,
                    source,
                    info.preference,
                    route_deadline(info, now),
                    now,
                );
            } else {
                lemma_withdrawn_none_expired(t, (cidr, source), now);
            }
        }
    }
}

/// No route that has expired is left by an advertisement.
pub proof fn law_advertisement_leaves_no_expired_route(
    s: slaac::State,
    source: Ipv6Address,
    lifetime: Duration,
    preference: NdiscRoutePreference,
    prefix: Option<NdiscPrefixInformation>,
    infos: Seq<NdiscRouteInformation>,
    now: Instant,
)
    requires
        valid_state(s),
        identities_sorted(s.routes),
        slaac::deadlines_fit(lifetime, prefix, infos, now),
    ensures
        none_expired(
            advertisement_processed(s, source, lifetime, preference, prefix, infos, now).routes,
            now,
        ),
{
    let a = prefix_processed(routes_pruned(s, now), prefix, now);
    let b = header_processed(a, source, lifetime, preference, now);
    let at = lemma_filter_positions(s.routes, |r: Route| r.valid_at(now));
    assert forall|i: int| 0 <= i < a.routes.len() implies (#[trigger] a.routes[i]).valid_at(now) by {
        assert(0 <= at[i]);
    }
    slaac::lemma_prefix_processed(s, prefix, now);
    lemma_header_processed(s, source, lifetime, preference, prefix, now);
    if lifetime.micros > 0 {
        lemma_advertised_none_expired(
            a,
            ipv6_default(),
            source,
            preference,
            Some(now.after(lifetime)),
            now,
        );
    } else {
        lemma_withdrawn_none_expired(a, (ipv6_default(), source), now);
    }
    lemma_infos_none_expired(b, source, infos, now);
    lemma_filter_none_expired(
        infos_processed(b, source, infos, now).routes,
        |r: Route| !r.withdrawn(),
        now,
    );
}

/// At the first deadline something expires, and nothing does before it.
pub proof fn law_first_deadline(s: slaac::State, now: Instant, t: Option<Instant>, later: Instant)
    requires
        !something_expired(s, now),
        is_first_deadline(s, now, t),
        now.micros <= later.micros,
    ensures
        t matches Some(t) ==> something_expired(s, t),
        (t matches Some(t) ==> later.micros < t.micros) ==> !something_expired(s, later),
{
    if let Some(t) = t {
        assert(is_deadline(s, now, t));
        if exists|i: int|
            0 <= i < s.prefixes.len() && (#[trigger] s.prefixes[i]).1.valid_at(now)
                && s.prefixes[i].1.valid_until == t {
            let i = choose|i: int|
                0 <= i < s.prefixes.len() && (#[trigger] s.prefixes[i]).1.valid_at(now)
                    && s.prefixes[i].1.valid_until == t;
            assert(!s.prefixes[i].1.valid_at(t));
        } else {
            let i = choose|i: int|
                0 <= i < s.routes.len() && (#[trigger] s.routes[i]).valid_at(now)
                    && s.routes[i].valid_until == Some(t);
            assert(!s.routes[i].valid_at(t));
        }
    }
    if t matches Some(t) ==> later.micros < t.micros {
        assert forall|i: int| 0 <= i < s.prefixes.len() implies (
        #[trigger] s.prefixes[i]).1.valid_at(later) by {
            assert(s.prefixes[i].1.valid_at(now));
            assert(is_deadline(s, now, s.prefixes[i].1.valid_until));
        }
        assert forall|i: int| 0 <= i < s.routes.len() implies (#[trigger] s.routes[i]).valid_at(
            later,
        ) by {
            assert(s.routes[i].valid_at(now));
            if let Some(d) = s.routes[i].valid_until {
                assert(is_deadline(s, now, d));
            }
        }
    }
}

/// In a table without learned routes, the choice falls on the route that a plain
/// lookup takes.
pub proof fn law_configured_choice_is_plain_lookup(
    slots: Seq<Slot>,
    destination: Ipv6Address,
    now: Instant,
    i: int,
)
    requires
        forall|j: int| 0 <= j < slots.len() ==> (#[trigger] slots[j]).learned is None,
    ensures
        is_best_configured(slots, destination, now, i) <==> is_best_route(
            routes_of(slots),
            IpAddress::Ipv6(destination),
            now,
            i,
        ),
{
    let routes = routes_of(slots);
    let target = IpAddress::Ipv6(destination);
    assert forall|j: int| 0 <= j < slots.len() implies configured_leads(
        #[trigger] slots[j],
        destination,
        now,
    ) == routes[j].leads_to(target, now) by {}
    if is_best_configured(slots, destination, now, i) {
        assert forall|j: int| 0 <= j < routes.len() && (#[trigger] routes[j]).leads_to(
            target,
            now,
        ) implies {
            ||| routes[j].cidr.len_of_prefix() < routes[i].cidr.len_of_prefix()
            ||| routes[j].cidr.len_of_prefix() == routes[i].cidr.len_of_prefix() && j <= i
        } by {
            assert(configured_leads(slots[j], destination, now));
        }
    }
    if is_best_route(routes, target, now, i) {
        assert forall|j: int| 0 <= j < slots.len() && configured_leads(
            #[trigger] slots[j],
            destination,
            now,
        ) implies {
            ||| slots[j].route.cidr.len_of_prefix() < slots[i].route.cidr.len_of_prefix()
            ||| slots[j].route.cidr.len_of_prefix() == slots[i].route.cidr.len_of_prefix() && j
                <= i
        } by {
            assert(routes[j].leads_to(target, now));
        }
    }
}

/// Whether one of the routes has the same prefix, router, deadline and
/// preference.
pub open spec fn holds(routes: Seq<Route>, r: Route) -> bool {
    exists|j: int|
        0 <= j < routes.len() && (#[trigger] routes[j]).identity() == r.identity()
            && routes[j].valid_until == r.valid_until && routes[j].preference == r.preference
}

/// Whether every route of another router than `source` was held before, with the
/// same deadline and preference.
pub open spec fn others_held(after: Seq<Route>, before: Seq<Route>, source: Ipv6Address) -> bool {
    forall|i: int|
        0 <= i < after.len() && (#[trigger] after[i]).via_router != source ==> holds(
            before,
            after[i],
        )
}

/// What was held before, and before that again, was held at first.
proof fn lemma_others_held_twice(
    c: Seq<Route>,
    b: Seq<Route>,
    a: Seq<Route>,
    source: Ipv6Address,
)
    requires
        others_held(c, b, source),
        others_held(b, a, source),
    ensures
        others_held(c, a, source),
{
    assert forall|i: int| 0 <= i < c.len() && (
    #[trigger] c[i]).via_router != source implies holds(a, c[i]) by {
        let r = c[i];
        assert(holds(b, r));
        let j = choose|j: int|
            0 <= j < b.len() && (#[trigger] b[j]).identity() == r.identity() && b[j].valid_until
                == r.valid_until && b[j].preference == r.preference;
        assert(b[j].via_router != source);
        assert(holds(a, b[j]));
    }
}

/// A filter brings in no route.
proof fn lemma_others_held_by_filter(
    routes: Seq<Route>,
    keep: spec_fn(Route) -> bool,
    source: Ipv6Address,
)
    ensures
        others_held(routes.filter(keep), routes, source),
{
    let some = routes.filter(keep);
    let at = lemma_filter_positions(routes, keep);
    assert forall|i: int| 0 <= i < some.len() && (
    #[trigger] some[i]).via_router != source implies holds(routes, some[i]) by {
        assert(routes[at[i]].identity() == some[i].identity());
    }
}

/// Advertising a route of a router brings in none of another.
proof fn lemma_others_held_by_advertising(
    s: slaac::State,
    cidr: Ipv6Cidr,
    source: Ipv6Address,
    preference: NdiscRoutePreference,
    valid_until: Option<Instant>,
)
    requires
        valid_state(s),
    ensures
        others_held(
            route_advertised(s, cidr, source, preference, valid_until).routes,
            s.routes,
            source,
        ),
{
    let r = route_advertised(s, cidr, source, preference, valid_until);
    let own: Identity = (cidr, source);
    if has_identity(s.routes, own) {
        let i = identity_index(s.routes, own);
        assert(s.routes[i].identity() == own);
        slaac::lemma_with_spare_order(s);
        let t = with_spare_order(s);
        assert forall|k: int| 0 <= k < r.routes.len() && (
        #[trigger] r.routes[k]).via_router != source implies holds(s.routes, r.routes[k]) by {
            assert(k != i);
            assert(t.routes[k].identity() == s.routes[k].identity());
            assert(s.routes[k].identity() == r.routes[k].identity());
        }
    } else {
        let purged = slaac::State { routes: live(s.routes), ..s };
        slaac::lemma_filtered(s.routes, |r: Route| !r.withdrawn(), s.next_route_order);
        lemma_others_held_by_filter(s.routes, |r: Route| !r.withdrawn(), source);
        slaac::lemma_with_spare_order(purged);
        let t = with_spare_order(purged);
        assert forall|k: int| 0 <= k < t.routes.len() && (
        #[trigger] t.routes[k]).via_router != source implies holds(s.routes, t.routes[k]) by {
            let p = purged.routes[k];
            assert(t.routes[k].identity() == p.identity());
            assert(holds(s.routes, p));
        }
        let order = t.next_route_order;
        let route = Route { cidr, via_router: source, valid_until, preference, order };
        let rest = if t.routes.len() < SLAAC_ROUTE_CANDIDATE_COUNT {
            t.routes
        } else {
            lemma_victim(t.routes, route);
            match victim(t.routes, route) {
                Some(v) => t.routes.remove(v),
                None => t.routes,
            }
        };
        assert forall|k: int| 0 <= k < rest.len() && (
        #[trigger] rest[k]).via_router != source implies holds(s.routes, rest[k]) by {
            if rest.len() < t.routes.len() {
                let v = victim(t.routes, route)->0;
                assert(rest[k] == t.routes[if k < v {
                    k
                } else {
                    k + 1
                }]);
            }
        }
        lemma_identities_before_len(rest, own);
        let p = identities_before(rest, own) as int;
        let all = rest.insert(p, route);
        assert forall|k: int| 0 <= k < all.len() && (
        #[trigger] all[k]).via_router != source implies holds(s.routes, all[k]) by {
            if k < p {
                assert(all[k] == rest[k]);
            } else if k > p {
                assert(all[k] == rest[k - 1]);
            }
        }
    }
}

/// Withdrawing a route brings in none.
proof fn lemma_others_held_by_withdrawing(s: slaac::State, id: Identity, source: Ipv6Address)
    ensures
        others_held(route_withdrawn(s, id).routes, s.routes, source),
{
    let t = route_withdrawn(s, id);
    if slaac::can_withdraw(s, id) {
        let i = identity_index(s.routes, id);
        assert(s.routes[i].identity() == id);
    }
    assert forall|k: int| 0 <= k < t.routes.len() && (
    #[trigger] t.routes[k]).via_router != source implies holds(s.routes, t.routes[k]) by {
        assert(s.routes[k].identity() == t.routes[k].identity());
    }
}

/// The routes of an advertisement bring in none of another router.
proof fn lemma_others_held_by_infos(
    s: slaac::State,
    source: Ipv6Address,
    infos: Seq<NdiscRouteInformation>,
    now: Instant,
)
    requires
        valid_state(s),
        identities_sorted(s.routes),
    ensures
        others_held(infos_processed(s, source, infos, now).routes, s.routes, source),
    decreases infos.len(),
{
    if infos.len() == 0 {
        assert forall|k: int| 0 <= k < s.routes.len() && (
        #[trigger] s.routes[k]).via_router != source implies holds(s.routes, s.routes[k]) by {
            assert(s.routes[k].identity() == s.routes[k].identity());
        }
    } else {
        let first = infos.drop_last();
        let info = infos.last();
        let before = infos_processed(s, source, first, now);
        let after = infos_processed(s, source, infos, now);
        lemma_others_held_by_infos(s, source, first, now);
        lemma_infos_processed(s, source, first, now);
        let cidr = prefix_of(info);
        if routable(cidr) {
            if info.route_lifetime.micros > 0 {
                lemma_others_held_by_advertising(
                    before,
                    cidr,
                    source,
                    info.preference,
                    route_deadline(info, now),
                );
            } else {
                lemma_others_held_by_withdrawing(before, (cidr, source), source);
            }
            lemma_others_held_twice(after.routes, before.routes, s.routes, source);
        }
    }
}

/// An advertisement leaves the routes of other routers alone: one that is held
/// afterwards was held before, with the same deadline and preference.
pub proof fn law_advertisement_keeps_other_routers(
    s: slaac::State,
    source: Ipv6Address,
    lifetime: Duration,
    preference: NdiscRoutePreference,
    prefix: Option<NdiscPrefixInformation>,
    infos: Seq<NdiscRouteInformation>,
    now: Instant,
)
    requires
        valid_state(s),
        identities_sorted(s.routes),
    ensures
        others_held(
            advertisement_processed(s, source, lifetime, preference, prefix, infos, now).routes,
            s.routes,
            source,
        ),
{
    let a = prefix_processed(routes_pruned(s, now), prefix, now);
    let b = header_processed(a, source, lifetime, preference, now);
    let c = infos_processed(b, source, infos, now);
    lemma_others_held_by_filter(s.routes, |r: Route| r.valid_at(now), source);
    assert(others_held(a.routes, s.routes, source));
    slaac::lemma_prefix_processed(s, prefix, now);
    if lifetime.micros > 0 {
        lemma_others_held_by_advertising(
            a,
            ipv6_default(),
            source,
            preference,
            Some(now.after(lifetime)),
        );
    } else {
        lemma_others_held_by_withdrawing(a, (ipv6_default(), source), source);
    }
    lemma_others_held_twice(b.routes, a.routes, s.routes, source);
    lemma_header_processed(s, source, lifetime, preference, prefix, now);
    lemma_others_held_by_infos(b, source, infos, now);
    lemma_others_held_twice(c.routes, b.routes, s.routes, source);
    lemma_others_held_by_filter(c.routes, |r: Route| !r.withdrawn(), source);
    lemma_others_held_twice(live(c.routes), c.routes, s.routes, source);
}

/// An advertisement ends the discovery of routers, if that is under way, and
/// changes the phase in no other way.
pub proof fn law_advertisement_ends_discovery(
    s: slaac::State,
    source: Ipv6Address,
    lifetime: Duration,
    preference: NdiscRoutePreference,
    prefix: Option<NdiscPrefixInformation>,
    infos: Seq<NdiscRouteInformation>,
    now: Instant,
)
    ensures
        advertisement_processed(s, source, lifetime, preference, prefix, infos, now).phase == (
        if s.phase == Phase::Discovering {
            Phase::Maintaining
        } else {
            s.phase
        }),
{
    let a = prefix_processed(routes_pruned(s, now), prefix, now);
    let b = header_processed(a, source, lifetime, preference, now);
    lemma_infos_keep_phase(b, source, infos, now);
}

proof fn lemma_infos_keep_phase(
    s: slaac::State,
    source: Ipv6Address,
    infos: Seq<NdiscRouteInformation>,
    now: Instant,
)
    ensures
        infos_processed(s, source, infos, now).phase == s.phase,
    decreases infos.len(),
{
    if infos.len() > 0 {
        lemma_infos_keep_phase(s, source, infos.drop_last(), now);
    }
}

} // verus!
