//! What advertisements, the passing of time and solicitations do to the state of
//! autoconfiguration, in numbers.

use vstd::prelude::*;
use crate::collections::{has_key, lemma_key_index, lemma_push_key, lemma_with_value, value_of};
use crate::config::IFACE_MAX_PREFIX_COUNT;
use crate::iface::properties::{
    law_first_deadline, law_pruned_prefixes, lemma_identities_before_len, prefix_of,
};
use crate::iface::route::{Identity, LearnedRoute};
use crate::iface::slaac::{
    advertisement_processed, candidate, has_identity, has_router, header_processed,
    identities_before, identities_sorted, identity_index, infos_processed, is_least_useful,
    is_next_poll, lemma_filtered, lemma_header_processed, lemma_infos_processed,
    lemma_prefix_processed, lemma_victim, lemma_with_spare_order, live, none_withdrawn,
    prefix_processed, routable, route_advertised, route_deadline, route_withdrawn, router_removed,
    routes_pruned, solicitation_required, solicitation_sent, something_expired, updated,
    valid_state, victim, with_spare_order, Phase, PrefixInfo, Route, State, MAX_RTR_SOLICITATIONS,
    SLAAC_ROUTE_CANDIDATE_COUNT,
};
use crate::sequences::lemma_filter_positions;
use crate::time::{Duration, Instant};
use crate::wire::ip::{Ipv6Address, Ipv6Cidr};
use crate::wire::ndiscoption::{NdiscPrefixInformation, NdiscRouteInformation, NdiscRoutePreference};

verus! {

/// The routes of an advertisement change nothing but routes.
proof fn lemma_infos_keep_the_rest(
    s: State,
    source: Ipv6Address,
    infos: Seq<NdiscRouteInformation>,
    now: Instant,
)
    ensures
        infos_processed(s, source, infos, now).prefixes == s.prefixes,
        infos_processed(s, source, infos, now).retry_rs_at == s.retry_rs_at,
        infos_processed(s, source, infos, now).num_solicitations == s.num_solicitations,
        s.sync_required ==> infos_processed(s, source, infos, now).sync_required,
    decreases infos.len(),
{
    if infos.len() > 0 {
        lemma_infos_keep_the_rest(s, source, infos.drop_last(), now);
    }
}

/// An advertisement has no part in when solicitations are sent, and never takes
/// back that something has changed.
pub proof fn law_advertisement_leaves_solicitations(
    s: State,
    source: Ipv6Address,
    lifetime: Duration,
    preference: NdiscRoutePreference,
    prefix: Option<NdiscPrefixInformation>,
    infos: Seq<NdiscRouteInformation>,
    now: Instant,
)
    ensures
        ({
            let t = advertisement_processed(
                s,
                source,
                lifetime,
                preference,
                prefix,
                infos,
                now,
            );
            &&& t.retry_rs_at == s.retry_rs_at
            &&& t.num_solicitations == s.num_solicitations
            &&& s.sync_required ==> t.sync_required
        }),
{
    let a = prefix_processed(routes_pruned(s, now), prefix, now);
    let b = header_processed(a, source, lifetime, preference, now);
    lemma_infos_keep_the_rest(b, source, infos, now);
}

/// The prefixes after an advertisement depend on its prefix alone.
proof fn lemma_prefixes_after(
    s: State,
    source: Ipv6Address,
    lifetime: Duration,
    preference: NdiscRoutePreference,
    prefix: Option<NdiscPrefixInformation>,
    infos: Seq<NdiscRouteInformation>,
    now: Instant,
)
    ensures
        ({
            let t = advertisement_processed(
                s,
                source,
                lifetime,
                preference,
                prefix,
                infos,
                now,
            );
            let a = prefix_processed(routes_pruned(s, now), prefix, now);
            &&& t.prefixes == a.prefixes
            &&& a.sync_required ==> t.sync_required
        }),
{
    let a = prefix_processed(routes_pruned(s, now), prefix, now);
    let b = header_processed(a, source, lifetime, preference, now);
    lemma_infos_keep_the_rest(b, source, infos, now);
}

/// A prefix that an advertisement offers for addresses is valid from then on for
/// its valid lifetime and preferred for its preferred lifetime, if it is known or
/// there is room for it. What is known of other prefixes stays, and a prefix that
/// is new is to be brought into use.
pub proof fn law_offered_prefix_is_valid_for_its_lifetime(
    s: State,
    source: Ipv6Address,
    lifetime: Duration,
    preference: NdiscRoutePreference,
    p: NdiscPrefixInformation,
    infos: Seq<NdiscRouteInformation>,
    now: Instant,
    other: (u8, u128),
)
    requires
        valid_state(s),
        p.prefix_len <= 128,
        p.preferred_lifetime.micros <= p.valid_lifetime.micros,
        p.flags.addrconf,
        p.valid_lifetime.micros > 0,
        !(0xfe80_0000_0000_0000_0000_0000_0000_0000 <= p.prefix.bits
            < 0xfe80_0000_0000_0001_0000_0000_0000_0000),
        now.micros + p.valid_lifetime.micros <= i64::MAX,
        value_of(s.prefixes, (p.prefix_len, p.prefix.bits)) is Some || s.prefixes.len()
            < IFACE_MAX_PREFIX_COUNT,
        other != (p.prefix_len, p.prefix.bits),
    ensures
        ({
            let t = advertisement_processed(
                s,
                source,
                lifetime,
                preference,
                Some(p),
                infos,
                now,
            );
            let info = value_of(t.prefixes, (p.prefix_len, p.prefix.bits));
            &&& info is Some
            &&& info->0.valid_until.micros == now.micros + p.valid_lifetime.micros
            &&& info->0.preferred_until.micros == now.micros + p.preferred_lifetime.micros
            &&& value_of(t.prefixes, other) == value_of(s.prefixes, other)
            &&& value_of(s.prefixes, (p.prefix_len, p.prefix.bits)) is None ==> t.sync_required
        }),
{
    lemma_prefixes_after(s, source, lifetime, preference, Some(p), infos, now);
    let key = (p.prefix_len, p.prefix.bits);
    let info = PrefixInfo::of_prefix(p, now);
    if has_key(s.prefixes, key) {
        lemma_with_value(s.prefixes, key, info);
    } else {
        lemma_push_key(s.prefixes, key, info);
    }
}

/// A prefix that an advertisement withdraws is not valid any more at any time
/// from the start of the clock on. What is known of other prefixes stays, and a
/// prefix that is not known stays unknown.
pub proof fn law_withdrawn_prefix_is_not_valid(
    s: State,
    source: Ipv6Address,
    lifetime: Duration,
    preference: NdiscRoutePreference,
    p: NdiscPrefixInformation,
    infos: Seq<NdiscRouteInformation>,
    now: Instant,
    other: (u8, u128),
    later: Instant,
)
    requires
        valid_state(s),
        p.prefix_len <= 128,
        p.flags.addrconf,
        p.valid_lifetime.micros == 0,
        p.preferred_lifetime.micros == 0,
        other != (p.prefix_len, p.prefix.bits),
        later.micros >= 0,
    ensures
        ({
            let t = advertisement_processed(
                s,
                source,
                lifetime,
                preference,
                Some(p),
                infos,
                now,
            );
            let key = (p.prefix_len, p.prefix.bits);
            &&& value_of(t.prefixes, other) == value_of(s.prefixes, other)
            &&& value_of(t.prefixes, key) is Some <==> value_of(s.prefixes, key) is Some
            &&& value_of(t.prefixes, key) matches Some(info) ==> !info.valid_at(later)
                && info.valid_until.micros <= later.micros && info.preferred_until.micros
                <= later.micros && t.sync_required
        }),
{
    lemma_prefixes_after(s, source, lifetime, preference, Some(p), infos, now);
    let key = (p.prefix_len, p.prefix.bits);
    let never = Instant { micros: 0 };
    if has_key(s.prefixes, key) {
        lemma_with_value(
            s.prefixes,
            key,
            PrefixInfo { preferred_until: never, valid_until: never },
        );
    }
}

/// A prefix leaves the known ones as they are if it is not for addresses, makes
/// no sense, is link-local or finds no room; and so does an advertisement without
/// a prefix.
pub proof fn law_prefixes_that_are_ignored(
    s: State,
    source: Ipv6Address,
    lifetime: Duration,
    preference: NdiscRoutePreference,
    prefix: Option<NdiscPrefixInformation>,
    infos: Seq<NdiscRouteInformation>,
    now: Instant,
)
    requires
        match prefix {
            None => true,
            Some(p) => {
                ||| !p.flags.addrconf
                ||| p.prefix_len > 128
                ||| p.preferred_lifetime.micros > p.valid_lifetime.micros
                ||| p.valid_lifetime.micros > 0
                    && 0xfe80_0000_0000_0000_0000_0000_0000_0000 <= p.prefix.bits
                    < 0xfe80_0000_0000_0001_0000_0000_0000_0000
                ||| value_of(s.prefixes, (p.prefix_len, p.prefix.bits)) is None && s.prefixes.len()
                    >= IFACE_MAX_PREFIX_COUNT
            },
        },
    ensures
        advertisement_processed(
            s,
            source,
            lifetime,
            preference,
            prefix,
            infos,
            now,
        ).prefixes == s.prefixes,
{
    lemma_prefixes_after(s, source, lifetime, preference, prefix, infos, now);
}

/// Whether a route with these fields is held and is not marked as withdrawn.
pub open spec fn in_use(
    routes: Seq<Route>,
    cidr: Ipv6Cidr,
    router: Ipv6Address,
    preference: NdiscRoutePreference,
    valid_until: Option<Instant>,
) -> bool {
    exists|i: int|
        0 <= i < routes.len() && (#[trigger] routes[i]).cidr == cidr && routes[i].via_router
            == router && routes[i].preference == preference && routes[i].valid_until == valid_until
            && routes[i].order != u32::MAX
}

/// Whether a route is held with the same fields but for its order, and is not
/// marked as withdrawn.
spec fn stays(routes: Seq<Route>, r: Route) -> bool {
    in_use(routes, r.cidr, r.via_router, r.preference, r.valid_until)
}

/// A route that finds its place is in use, and all others stay.
proof fn lemma_route_finds_place(
    s: State,
    cidr: Ipv6Cidr,
    router: Ipv6Address,
    preference: NdiscRoutePreference,
    valid_until: Option<Instant>,
    r: Route,
)
    requires
        valid_state(s),
        identities_sorted(s.routes),
        has_identity(s.routes, (cidr, router)) || live(s.routes).len()
            < SLAAC_ROUTE_CANDIDATE_COUNT,
        stays(s.routes, r),
        r.identity() != (cidr, router),
    ensures
        ({
            let t = route_advertised(s, cidr, router, preference, valid_until);
            &&& stays(t.routes, r)
            &&& t.routes.len() <= s.routes.len() + 1
        }),
{
    let t = route_advertised(s, cidr, router, preference, valid_until);
    let own: Identity = (cidr, router);
    let k = choose|i: int|
        0 <= i < s.routes.len() && (#[trigger] s.routes[i]).cidr == r.cidr && s.routes[i].via_router
            == r.via_router && s.routes[i].preference == r.preference && s.routes[i].valid_until
            == r.valid_until && s.routes[i].order != u32::MAX;
    if has_identity(s.routes, own) {
        let i = identity_index(s.routes, own);
        assert(s.routes[i].identity() == own);
        lemma_with_spare_order(s);
        let w = with_spare_order(s).routes[k];
        assert(w.withdrawn() <==> s.routes[k].withdrawn());
        let x = t.routes[k];
        assert(x.cidr == r.cidr);
    } else {
        let keep = |x: Route| !x.withdrawn();
        let purged = State { routes: live(s.routes), ..s };
        lemma_filtered(s.routes, keep, s.next_route_order);
        let at = lemma_filter_positions(s.routes, keep);
        assert(keep(s.routes[k]));
        let m = choose|m: int| 0 <= m < at.len() && at[m] == k;
        assert(at.contains(k));
        assert(purged.routes[m] == s.routes[k]);
        lemma_with_spare_order(purged);
        let rest = with_spare_order(purged).routes;
        let w = rest[m];
        assert(w.withdrawn() <==> purged.routes[m].withdrawn());
        lemma_identities_before_len(rest, own);
        let p = identities_before(rest, own) as int;
        let x = t.routes[if m < p {
            m
        } else {
            m + 1
        }];
        assert(x == w);
        assert(x.cidr == r.cidr);
    }
}

/// A route that is advertised and is known already, or finds room, is in use
/// until its deadline and with its preference, and all other routes stay.
pub proof fn law_advertised_route_is_in_use(
    s: State,
    cidr: Ipv6Cidr,
    router: Ipv6Address,
    preference: NdiscRoutePreference,
    valid_until: Option<Instant>,
)
    requires
        valid_state(s),
        identities_sorted(s.routes),
        has_identity(s.routes, (cidr, router)) || live(s.routes).len()
            < SLAAC_ROUTE_CANDIDATE_COUNT,
    ensures
        ({
            let t = route_advertised(s, cidr, router, preference, valid_until);
            &&& in_use(t.routes, cidr, router, preference, valid_until)
            &&& t.routes.len() <= s.routes.len() + 1
            &&& forall|i: int|
                0 <= i < s.routes.len() && (#[trigger] s.routes[i]).order != u32::MAX && (
                s.routes[i].cidr != cidr || s.routes[i].via_router != router) ==> in_use(
                    t.routes,
                    s.routes[i].cidr,
                    s.routes[i].via_router,
                    s.routes[i].preference,
                    s.routes[i].valid_until,
                )
        }),
{
    let t = route_advertised(s, cidr, router, preference, valid_until);
    let own: Identity = (cidr, router);
    if has_identity(s.routes, own) {
        let i = identity_index(s.routes, own);
        assert(s.routes[i].identity() == own);
        lemma_with_spare_order(s);
        let x = t.routes[i];
        assert(x.cidr == cidr);
    } else {
        let purged = State { routes: live(s.routes), ..s };
        lemma_filtered(s.routes, |x: Route| !x.withdrawn(), s.next_route_order);
        lemma_with_spare_order(purged);
        let rest = with_spare_order(purged).routes;
        lemma_identities_before_len(rest, own);
        let x = t.routes[identities_before(rest, own) as int];
        assert(x.cidr == cidr);
    }
    assert forall|i: int|
        0 <= i < s.routes.len() && (#[trigger] s.routes[i]).order != u32::MAX && (s.routes[i].cidr
            != cidr || s.routes[i].via_router != router) implies in_use(
        t.routes,
        s.routes[i].cidr,
        s.routes[i].via_router,
        s.routes[i].preference,
        s.routes[i].valid_until,
    ) by {
        assert(stays(s.routes, s.routes[i]));
        lemma_route_finds_place(s, cidr, router, preference, valid_until, s.routes[i]);
    }
}

/// Withdrawing a route leaves the others.
proof fn lemma_withdrawing_leaves_others(s: State, id: Identity, r: Route)
    requires
        stays(s.routes, r),
        r.identity() != id,
    ensures
        stays(route_withdrawn(s, id).routes, r),
        route_withdrawn(s, id).routes.len() == s.routes.len(),
{
    let t = route_withdrawn(s, id);
    let k = choose|i: int|
        0 <= i < s.routes.len() && (#[trigger] s.routes[i]).cidr == r.cidr && s.routes[i].via_router
            == r.via_router && s.routes[i].preference == r.preference && s.routes[i].valid_until
            == r.valid_until && s.routes[i].order != u32::MAX;
    if has_identity(s.routes, id) {
        let i = identity_index(s.routes, id);
        assert(s.routes[i].identity() == id);
    }
    assert(t.routes[k].cidr == r.cidr);
}

/// While there is room for all of them, the routes of an advertisement leave each
/// route that they do not mention.
proof fn lemma_infos_leave_others(
    s: State,
    source: Ipv6Address,
    infos: Seq<NdiscRouteInformation>,
    now: Instant,
    r: Route,
)
    requires
        valid_state(s),
        identities_sorted(s.routes),
        s.routes.len() + infos.len() <= SLAAC_ROUTE_CANDIDATE_COUNT,
        stays(s.routes, r),
        forall|k: int|
            0 <= k < infos.len() ==> (prefix_of(#[trigger] infos[k]), source) != r.identity(),
    ensures
        stays(infos_processed(s, source, infos, now).routes, r),
        infos_processed(s, source, infos, now).routes.len() <= s.routes.len() + infos.len(),
    decreases infos.len(),
{
    if infos.len() > 0 {
        let first = infos.drop_last();
        let info = infos.last();
        assert forall|k: int| 0 <= k < first.len() implies (
            prefix_of(#[trigger] first[k]),
            source,
        ) != r.identity() by {
            assert(infos[k] == first[k]);
        }
        lemma_infos_leave_others(s, source, first, now, r);
        lemma_infos_processed(s, source, first, now);
        let t = infos_processed(s, source, first, now);
        assert(infos[infos.len() - 1] == info);
        let cidr = prefix_of(info);
        assert((cidr, source) != r.identity());
        if routable(cidr) {
            if info.route_lifetime.micros > 0 {
                lemma_filtered(t.routes, |x: Route| !x.withdrawn(), t.next_route_order);
                lemma_route_finds_place(
                    t,
                    cidr,
                    source,
                    info.preference,
                    route_deadline(info, now),
                    r,
                );
            } else {
                lemma_withdrawing_leaves_others(t, (cidr, source), r);
            }
        }
    }
}

/// While there is room for all of them, the routes of an advertisement do not
/// become too many.
proof fn lemma_infos_count(
    s: State,
    source: Ipv6Address,
    infos: Seq<NdiscRouteInformation>,
    now: Instant,
)
    requires
        valid_state(s),
        identities_sorted(s.routes),
        s.routes.len() + infos.len() <= SLAAC_ROUTE_CANDIDATE_COUNT,
    ensures
        infos_processed(s, source, infos, now).routes.len() <= s.routes.len() + infos.len(),
    decreases infos.len(),
{
    if infos.len() > 0 {
        let first = infos.drop_last();
        let info = infos.last();
        lemma_infos_count(s, source, first, now);
        lemma_infos_processed(s, source, first, now);
        let t = infos_processed(s, source, first, now);
        let cidr = prefix_of(info);
        lemma_filtered(t.routes, |x: Route| !x.withdrawn(), t.next_route_order);
        if routable(cidr) && info.route_lifetime.micros > 0 {
            law_advertised_route_is_in_use(
                t,
                cidr,
                source,
                info.preference,
                route_deadline(info, now),
            );
        }
    }
}

/// What a filter keeps stays.
proof fn lemma_filter_keeps(routes: Seq<Route>, keep: spec_fn(Route) -> bool, r: Route)
    requires
        stays(routes, r),
        forall|x: Route|
            x.cidr == r.cidr && x.via_router == r.via_router && x.preference == r.preference
                && x.valid_until == r.valid_until && x.order != u32::MAX ==> #[trigger] keep(x),
    ensures
        stays(routes.filter(keep), r),
{
    let k = choose|i: int|
        0 <= i < routes.len() && (#[trigger] routes[i]).cidr == r.cidr && routes[i].via_router
            == r.via_router && routes[i].preference == r.preference && routes[i].valid_until
            == r.valid_until && routes[i].order != u32::MAX;
    let at = lemma_filter_positions(routes, keep);
    assert(keep(routes[k]));
    let m = choose|m: int| 0 <= m < at.len() && at[m] == k;
    assert(at.contains(k));
    assert(routes.filter(keep)[m].cidr == r.cidr);
}

/// A route that has not expired and that an advertisement does not mention stays
/// in use, with its deadline and preference, while there is room for all.
pub proof fn law_unmentioned_routes_stay(
    s: State,
    source: Ipv6Address,
    lifetime: Duration,
    preference: NdiscRoutePreference,
    prefix: Option<NdiscPrefixInformation>,
    infos: Seq<NdiscRouteInformation>,
    now: Instant,
    i: int,
)
    requires
        valid_state(s),
        identities_sorted(s.routes),
        none_withdrawn(s.routes),
        s.routes.len() + 1 + infos.len() <= SLAAC_ROUTE_CANDIDATE_COUNT,
        0 <= i < s.routes.len(),
        s.routes[i].valid_until matches Some(t) ==> now.micros < t.micros,
        s.routes[i].via_router == source ==> s.routes[i].cidr != (Ipv6Cidr {
            address: Ipv6Address { bits: 0 },
            prefix_len: 0,
        }) && forall|k: int|
            0 <= k < infos.len() ==> prefix_of(#[trigger] infos[k]) != s.routes[i].cidr,
    ensures
        in_use(
            advertisement_processed(s, source, lifetime, preference, prefix, infos, now).routes,
            s.routes[i].cidr,
            s.routes[i].via_router,
            s.routes[i].preference,
            s.routes[i].valid_until,
        ),
{
    let r = s.routes[i];
    let p = routes_pruned(s, now);
    let a = prefix_processed(p, prefix, now);
    let b = header_processed(a, source, lifetime, preference, now);
    let c = infos_processed(b, source, infos, now);
    assert(!r.withdrawn());
    assert(stays(s.routes, r));
    lemma_filter_keeps(s.routes, |x: Route| x.valid_at(now), r);
    lemma_filtered(s.routes, |x: Route| x.valid_at(now), s.next_route_order);
    lemma_prefix_processed(s, prefix, now);
    lemma_filtered(a.routes, |x: Route| !x.withdrawn(), a.next_route_order);
    let own: Identity = (crate::iface::slaac::ipv6_default(), source);
    assert(r.identity() != own);
    if lifetime.micros > 0 {
        lemma_route_finds_place(a, own.0, source, preference, Some(now.after(lifetime)), r);
    } else {
        lemma_withdrawing_leaves_others(a, own, r);
    }
    lemma_header_processed(s, source, lifetime, preference, prefix, now);
    assert forall|k: int| 0 <= k < infos.len() implies (
        prefix_of(#[trigger] infos[k]),
        source,
    ) != r.identity() by {}
    lemma_infos_leave_others(b, source, infos, now, r);
    lemma_filter_keeps(c.routes, |x: Route| !x.withdrawn(), r);
}

/// A router that is advertised with a lifetime is in use as a default router for
/// that long, with its preference, while there is room and no route of the
/// advertisement speaks of the default route as well.
pub proof fn law_default_router_for_its_lifetime(
    s: State,
    source: Ipv6Address,
    lifetime: Duration,
    preference: NdiscRoutePreference,
    prefix: Option<NdiscPrefixInformation>,
    infos: Seq<NdiscRouteInformation>,
    now: Instant,
)
    requires
        valid_state(s),
        identities_sorted(s.routes),
        none_withdrawn(s.routes),
        s.routes.len() + 1 + infos.len() <= SLAAC_ROUTE_CANDIDATE_COUNT,
        lifetime.micros > 0,
        now.micros + lifetime.micros <= i64::MAX,
        forall|k: int|
            0 <= k < infos.len() ==> (#[trigger] infos[k]).prefix_len != 0 || infos[k].prefix.bits
                != 0,
    ensures
        in_use(
            advertisement_processed(s, source, lifetime, preference, prefix, infos, now).routes,
            Ipv6Cidr { address: Ipv6Address { bits: 0 }, prefix_len: 0 },
            source,
            preference,
            Some(Instant { micros: (now.micros + lifetime.micros) as i64 }),
        ),
{
    let a = prefix_processed(routes_pruned(s, now), prefix, now);
    let b = header_processed(a, source, lifetime, preference, now);
    let c = infos_processed(b, source, infos, now);
    let cidr = Ipv6Cidr { address: Ipv6Address { bits: 0 }, prefix_len: 0 };
    let deadline = Some(Instant { micros: (now.micros + lifetime.micros) as i64 });
    lemma_prefix_processed(s, prefix, now);
    lemma_filtered(s.routes, |x: Route| x.valid_at(now), s.next_route_order);
    lemma_filtered(a.routes, |x: Route| !x.withdrawn(), a.next_route_order);
    law_advertised_route_is_in_use(a, cidr, source, preference, deadline);
    lemma_header_processed(s, source, lifetime, preference, prefix, now);
    let r = Route { cidr, via_router: source, preference, valid_until: deadline, order: 0 };
    assert(stays(b.routes, r));
    assert forall|k: int| 0 <= k < infos.len() implies (
        prefix_of(#[trigger] infos[k]),
        source,
    ) != r.identity() by {}
    lemma_infos_leave_others(b, source, infos, now, r);
    lemma_filter_keeps(c.routes, |x: Route| !x.withdrawn(), r);
}

/// Whether a prefix can be reached through a router, in numbers.
pub open spec fn can_be_routed(prefix_len: u8, prefix: Ipv6Address) -> bool {
    ||| prefix_len == 0
    ||| {
        &&& prefix.bits > 1
        &&& prefix.bits < 0xff00_0000_0000_0000_0000_0000_0000_0000
        &&& !(0xfe80_0000_0000_0000_0000_0000_0000_0000 <= prefix.bits
            < 0xfe80_0000_0000_0001_0000_0000_0000_0000)
    }
}

/// A route that an advertisement carries, and does not speak of again behind
/// that, is in use for its lifetime and with its preference, while there is room
/// and the prefix can be routed. One without end has no deadline.
pub proof fn law_carried_route_for_its_lifetime(
    s: State,
    source: Ipv6Address,
    lifetime: Duration,
    preference: NdiscRoutePreference,
    prefix: Option<NdiscPrefixInformation>,
    infos: Seq<NdiscRouteInformation>,
    now: Instant,
    k: int,
)
    requires
        valid_state(s),
        identities_sorted(s.routes),
        none_withdrawn(s.routes),
        s.routes.len() + 1 + infos.len() <= SLAAC_ROUTE_CANDIDATE_COUNT,
        0 <= k < infos.len(),
        infos[k].route_lifetime.micros > 0,
        can_be_routed(infos[k].prefix_len, infos[k].prefix),
        infos[k].route_lifetime.micros != 4_294_967_295_000_000 ==> now.micros
            + infos[k].route_lifetime.micros <= i64::MAX,
        forall|j: int|
            k < j < infos.len() ==> (#[trigger] infos[j]).prefix_len != infos[k].prefix_len
                || infos[j].prefix != infos[k].prefix,
    ensures
        in_use(
            advertisement_processed(s, source, lifetime, preference, prefix, infos, now).routes,
            Ipv6Cidr { address: infos[k].prefix, prefix_len: infos[k].prefix_len },
            source,
            infos[k].preference,
            if infos[k].route_lifetime.micros == 4_294_967_295_000_000 {
                None
            } else {
                Some(Instant { micros: (now.micros + infos[k].route_lifetime.micros) as i64 })
            },
        ),
{
    let a = prefix_processed(routes_pruned(s, now), prefix, now);
    let b = header_processed(a, source, lifetime, preference, now);
    let c = infos_processed(b, source, infos, now);
    lemma_prefix_processed(s, prefix, now);
    lemma_filtered(s.routes, |x: Route| x.valid_at(now), s.next_route_order);
    lemma_filtered(a.routes, |x: Route| !x.withdrawn(), a.next_route_order);
    let cidr0 = Ipv6Cidr { address: Ipv6Address { bits: 0 }, prefix_len: 0 };
    if lifetime.micros > 0 {
        law_advertised_route_is_in_use(
            a,
            cidr0,
            source,
            preference,
            Some(now.after(lifetime)),
        );
    }
    lemma_header_processed(s, source, lifetime, preference, prefix, now);
    assert(b.routes.len() <= s.routes.len() + 1);
    lemma_carried_route(b, source, infos, now, k);
    let info = infos[k];
    let r = Route {
        cidr: prefix_of(info),
        via_router: source,
        preference: info.preference,
        valid_until: route_deadline(info, now),
        order: 0,
    };
    lemma_filter_keeps(c.routes, |x: Route| !x.withdrawn(), r);
}

proof fn lemma_carried_route(
    s: State,
    source: Ipv6Address,
    infos: Seq<NdiscRouteInformation>,
    now: Instant,
    k: int,
)
    requires
        valid_state(s),
        identities_sorted(s.routes),
        s.routes.len() + infos.len() <= SLAAC_ROUTE_CANDIDATE_COUNT,
        0 <= k < infos.len(),
        infos[k].route_lifetime.micros > 0,
        can_be_routed(infos[k].prefix_len, infos[k].prefix),
        forall|j: int|
            k < j < infos.len() ==> (#[trigger] infos[j]).prefix_len != infos[k].prefix_len
                || infos[j].prefix != infos[k].prefix,
    ensures
        in_use(
            infos_processed(s, source, infos, now).routes,
            prefix_of(infos[k]),
            source,
            infos[k].preference,
            route_deadline(infos[k], now),
        ),
    decreases infos.len(),
{
    let first = infos.drop_last();
    let last = infos.last();
    let info = infos[k];
    let t = infos_processed(s, source, first, now);
    lemma_infos_count(s, source, first, now);
    lemma_infos_processed(s, source, first, now);
    lemma_filtered(t.routes, |x: Route| !x.withdrawn(), t.next_route_order);
    let cidr = prefix_of(last);
    if k == infos.len() - 1 {
        law_advertised_route_is_in_use(
            t,
            cidr,
            source,
            info.preference,
            route_deadline(info, now),
        );
    } else {
        assert(first[k] == info);
        assert forall|j: int| k < j < first.len() implies (#[trigger] first[j]).prefix_len
            != info.prefix_len || first[j].prefix != info.prefix by {
            assert(infos[j] == first[j]);
        }
        lemma_carried_route(s, source, first, now, k);
        let r = Route {
            cidr: prefix_of(info),
            via_router: source,
            preference: info.preference,
            valid_until: route_deadline(info, now),
            order: 0,
        };
        assert(stays(t.routes, r));
        assert(infos[infos.len() - 1] == last);
        assert(cidr != prefix_of(info));
        if routable(cidr) {
            if last.route_lifetime.micros > 0 {
                lemma_route_finds_place(
                    t,
                    cidr,
                    source,
                    last.preference,
                    route_deadline(last, now),
                    r,
                );
            } else {
                lemma_withdrawing_leaves_others(t, (cidr, source), r);
            }
        }
    }
}

/// A route to a prefix that cannot be routed is ignored: to `::1`, to `::` unless
/// its length is zero, or to a link-local or multicast prefix.
pub proof fn law_unroutable_prefixes_are_ignored(
    s: State,
    source: Ipv6Address,
    infos: Seq<NdiscRouteInformation>,
    info: NdiscRouteInformation,
    now: Instant,
)
    requires
        !can_be_routed(info.prefix_len, info.prefix),
    ensures
        infos_processed(s, source, infos.push(info), now) == infos_processed(
            s,
            source,
            infos,
            now,
        ),
{
    assert(infos.push(info).drop_last() =~= infos);
}

/// Whether a route can be spared in a full table: the incoming route or another
/// one of the table has its prefix.
pub open spec fn has_substitute(routes: Seq<Route>, incoming: Route, i: int) -> bool {
    ||| routes[i].cidr == incoming.cidr
    ||| exists|j: int|
        0 <= j < routes.len() && j != i && (#[trigger] routes[j]).cidr == routes[i].cidr
}

/// The route that leaves a full table has a substitute, if any route has one. No
/// route that could leave as well has a shorter prefix; nor, the prefixes being
/// as long, a weaker preference; nor is it newer with all that alike.
pub proof fn law_route_that_leaves_a_full_table(
    routes: Seq<Route>,
    incoming: Route,
    v: int,
    j: int,
)
    requires
        routes.len() <= SLAAC_ROUTE_CANDIDATE_COUNT,
        victim(routes, incoming) == Some(v),
        0 <= j < routes.len(),
    ensures
        0 <= v < routes.len(),
        has_substitute(routes, incoming, j) ==> has_substitute(routes, incoming, v),
        has_substitute(routes, incoming, j) || !has_substitute(routes, incoming, v) ==> {
            &&& routes[v].cidr.prefix_len <= routes[j].cidr.prefix_len
            &&& routes[v].cidr.prefix_len == routes[j].cidr.prefix_len
                ==> routes[v].preference.rank_of() <= routes[j].preference.rank_of()
            &&& routes[v].cidr.prefix_len == routes[j].cidr.prefix_len
                && routes[v].preference.rank_of() == routes[j].preference.rank_of()
                ==> routes[v].order >= routes[j].order
        },
        has_substitute(routes, incoming, v) || {
            ||| routes[v].cidr.prefix_len < incoming.cidr.prefix_len
            ||| routes[v].cidr.prefix_len == incoming.cidr.prefix_len
                && routes[v].preference.rank_of() < incoming.preference.rank_of()
            ||| routes[v].cidr.prefix_len == incoming.cidr.prefix_len
                && routes[v].preference.rank_of() == incoming.preference.rank_of()
                && routes[v].order > incoming.order
        },
{
    lemma_victim(routes, incoming);
    assert(crate::iface::slaac::dispensable(routes, incoming, v) == has_substitute(
        routes,
        incoming,
        v,
    ));
    assert(crate::iface::slaac::dispensable(routes, incoming, j) == has_substitute(
        routes,
        incoming,
        j,
    ));
    if has_substitute(routes, incoming, j) {
        assert(crate::iface::slaac::some_dispensable(routes, incoming));
    }
}

/// A route to a new prefix finds a place in a full table that has a route with a
/// substitute.
pub proof fn law_new_prefix_finds_a_place(routes: Seq<Route>, incoming: Route, i: int)
    requires
        0 <= i < routes.len(),
        has_substitute(routes, incoming, i),
        forall|j: int| 0 <= j < routes.len() ==> (#[trigger] routes[j]).cidr != incoming.cidr,
    ensures
        victim(routes, incoming) is Some,
{
    assert(crate::iface::slaac::dispensable(routes, incoming, i));
}

/// Otherwise a route is refused by a full table only if every route that could
/// leave has a longer prefix, or as long a one and a stronger preference, or is
/// no newer with all that alike.
pub proof fn law_route_that_is_refused(routes: Seq<Route>, incoming: Route, j: int)
    requires
        0 < routes.len() <= SLAAC_ROUTE_CANDIDATE_COUNT,
        victim(routes, incoming) is None,
        0 <= j < routes.len(),
        has_substitute(routes, incoming, j) || forall|k: int|
            0 <= k < routes.len() ==> !#[trigger] has_substitute(routes, incoming, k),
    ensures
        ({
            ||| routes[j].cidr.prefix_len > incoming.cidr.prefix_len
            ||| routes[j].cidr.prefix_len == incoming.cidr.prefix_len
                && routes[j].preference.rank_of() > incoming.preference.rank_of()
            ||| routes[j].cidr.prefix_len == incoming.cidr.prefix_len
                && routes[j].preference.rank_of() == incoming.preference.rank_of()
                && routes[j].order <= incoming.order
        }),
{
    let spare = crate::iface::slaac::some_dispensable(routes, incoming);
    assert(crate::iface::slaac::dispensable(routes, incoming, j) == has_substitute(
        routes,
        incoming,
        j,
    ));
    if spare && !has_substitute(routes, incoming, j) {
        let k = choose|k: int|
            0 <= k < routes.len() && #[trigger] crate::iface::slaac::dispensable(
                routes,
                incoming,
                k,
            );
        assert(has_substitute(routes, incoming, k));
    }
    crate::iface::slaac::lemma_least_useful_exists(routes, incoming);
    let v = choose|i: int| is_least_useful(routes, incoming, spare, i);
    assert(routes[v].less_useful(routes[j]) || !routes[j].less_useful(routes[v]));
}

/// A route, a prefix and a learned route are valid before their deadline, and not
/// from then on. One without a deadline is valid always.
pub proof fn law_validity_ends_at_the_deadline(
    r: Route,
    p: PrefixInfo,
    l: LearnedRoute,
    now: Instant,
)
    ensures
        r.valid_at(now) <==> r.valid_until is None || now.micros < r.valid_until->0.micros,
        p.valid_at(now) <==> now.micros < p.valid_until.micros,
        l.valid_at(now) <==> l.valid_until is None || now.micros < l.valid_until->0.micros,
{
}

/// A learned route is offered to the public table as it is, unless it has
/// expired.
pub proof fn law_candidates(r: Route, now: Instant)
    ensures
        candidate(r, now) is Some <==> r.valid_until is None || now.micros
            < r.valid_until->0.micros,
        candidate(r, now) matches Some(c) ==> c.cidr == r.cidr && c.via_router == r.via_router
            && c.valid_until == r.valid_until && c.preference == r.preference && c.order == r.order,
{
}

/// Removing what has expired keeps the routes that have not, in their order, and
/// the prefixes that have not, and nothing else. It changes nothing else of the
/// state but that all changes have been brought into use.
pub proof fn law_update_keeps_what_is_valid(s: State, now: Instant, i: int, k: (u8, u128))
    requires
        valid_state(s),
    ensures
        0 <= i < s.routes.len() && (s.routes[i].valid_until is None || now.micros
            < s.routes[i].valid_until->0.micros) ==> updated(s, now).routes.contains(s.routes[i]),
        forall|x: int|
            0 <= x < updated(s, now).routes.len() ==> s.routes.contains(
                #[trigger] updated(s, now).routes[x],
            ) && (updated(s, now).routes[x].valid_until matches Some(t) ==> now.micros < t.micros),
        value_of(updated(s, now).prefixes, k) == match value_of(s.prefixes, k) {
            Some(info) if now.micros < info.valid_until.micros => Some(info),
            _ => None,
        },
        !updated(s, now).sync_required,
        updated(s, now).phase == s.phase,
        updated(s, now).retry_rs_at == s.retry_rs_at,
        updated(s, now).num_solicitations == s.num_solicitations,
        updated(s, now).next_route_order == s.next_route_order,
{
    let keep = |r: Route| r.valid_at(now);
    let at = lemma_filter_positions(s.routes, keep);
    let t = updated(s, now);
    if 0 <= i < s.routes.len() && keep(s.routes[i]) {
        let m = choose|m: int| 0 <= m < at.len() && at[m] == i;
        assert(at.contains(i));
        assert(t.routes[m] == s.routes[i]);
    }
    assert forall|x: int| 0 <= x < t.routes.len() implies s.routes.contains(
        #[trigger] t.routes[x],
    ) && (t.routes[x].valid_until matches Some(d) ==> now.micros < d.micros) by {
        assert(s.routes[at[x]] == t.routes[x]);
    }
    law_pruned_prefixes(s.prefixes, s.prefixes.len(), now, k);
    if has_key(s.prefixes, k) {
        lemma_key_index(s.prefixes, k);
        let m = crate::collections::key_index(s.prefixes, k);
        assert(s.prefixes[m].0 == k);
    }
}

/// Once a node is found to be no router, just the routes through other nodes are
/// left, and that some have left is to be brought into use.
pub proof fn law_routes_through_others_stay(s: State, address: Ipv6Address, i: int)
    requires
        0 <= i < s.routes.len(),
    ensures
        router_removed(s, address).routes.contains(s.routes[i]) <==> s.routes[i].via_router
            != address,
        s.routes[i].via_router == address ==> has_router(s, address) && router_removed(
            s,
            address,
        ).sync_required,
        s.sync_required ==> router_removed(s, address).sync_required,
        router_removed(s, address).prefixes == s.prefixes,
        router_removed(s, address).phase == s.phase,
{
    let keep = |r: Route| r.via_router != address;
    let at = lemma_filter_positions(s.routes, keep);
    let t = router_removed(s, address);
    if keep(s.routes[i]) {
        let m = choose|m: int| 0 <= m < at.len() && at[m] == i;
        assert(at.contains(i));
        assert(t.routes[m] == s.routes[i]);
    } else if t.routes.contains(s.routes[i]) {
        let x = choose|x: int| 0 <= x < t.routes.len() && t.routes[x] == s.routes[i];
        assert(keep(s.routes[at[x]]));
    }
}

/// A solicitation that was sent when it was due is followed by another one four
/// seconds later at the earliest, and by one fewer than were left. At first there
/// are three, and soliciting ends once none is left.
pub proof fn law_solicitations_are_four_seconds_apart(s: State, t: Instant, now: Instant)
    requires
        t.micros + 4_000_000 <= i64::MAX,
        s.phase == Phase::Start || s.phase == Phase::Discovering,
        s.retry_rs_at.micros <= t.micros,
    ensures
        ({
            let u = solicitation_sent(s, t);
            &&& s.num_solicitations > 0 ==> {
                &&& u.num_solicitations == s.num_solicitations - 1
                &&& u.phase == Phase::Discovering
                &&& solicitation_required(u, now) <==> u.num_solicitations > 0 && now.micros
                    >= t.micros + 4_000_000
            }
            &&& s.num_solicitations == 0 ==> u.phase == Phase::Stopped && !solicitation_required(
                u,
                now,
            )
            &&& u.routes == s.routes
            &&& u.prefixes == s.prefixes
            &&& u.sync_required == s.sync_required
        }),
        MAX_RTR_SOLICITATIONS == 3,
{
}

/// A solicitation is required only while routers are sought, at its time and
/// while some are left; one that was not due changes nothing.
pub proof fn law_solicitations_required(s: State, now: Instant)
    ensures
        solicitation_required(s, now) <==> (s.phase == Phase::Start || s.phase
            == Phase::Discovering) && s.retry_rs_at.micros <= now.micros && s.num_solicitations > 0,
        s.phase == Phase::Maintaining || s.phase == Phase::Stopped || s.retry_rs_at.micros
            > now.micros ==> solicitation_sent(s, now) == s,
{
}

/// At the time of the next poll there is something to do: a change to bring into
/// use, something that has expired, or the time of a solicitation. Before that
/// nothing expires, and if no time is given, never.
pub proof fn law_next_poll(s: State, now: Instant, t: Option<Instant>, later: Instant)
    requires
        is_next_poll(s, now, t),
        now.micros <= later.micros,
    ensures
        t matches Some(t) ==> {
            ||| t == now && s.sync_required
            ||| something_expired(s, t)
            ||| (s.phase == Phase::Start || s.phase == Phase::Discovering) && t.micros
                == s.retry_rs_at.micros
        },
        s.sync_required || something_expired(s, now) ==> t == Some(now),
        s.phase == Phase::Maintaining && !s.sync_required && (t matches Some(t) ==> later.micros
            < t.micros) ==> !something_expired(s, later),
        t is None ==> !s.sync_required && s.phase != Phase::Start && s.phase != Phase::Discovering,
{
    if !s.sync_required && !something_expired(s, now) && s.phase == Phase::Maintaining {
        law_first_deadline(s, now, t, later);
    }
}

/// Something has expired just if the deadline of a prefix or of a route has
/// passed.
pub proof fn law_something_expired(s: State, now: Instant)
    ensures
        something_expired(s, now) <==> {
            ||| exists|i: int|
                0 <= i < s.prefixes.len() && (#[trigger] s.prefixes[i]).1.valid_until.micros
                    <= now.micros
            ||| exists|i: int|
                0 <= i < s.routes.len() && ((#[trigger] s.routes[i]).valid_until matches Some(t)
                    && t.micros <= now.micros)
        },
{
    if exists|i: int|
        0 <= i < s.prefixes.len() && (#[trigger] s.prefixes[i]).1.valid_until.micros <= now.micros {
        let i = choose|i: int|
            0 <= i < s.prefixes.len() && (#[trigger] s.prefixes[i]).1.valid_until.micros
                <= now.micros;
        assert(!s.prefixes[i].1.valid_at(now));
    }
    if exists|i: int|
        0 <= i < s.routes.len() && ((#[trigger] s.routes[i]).valid_until matches Some(t)
            && t.micros <= now.micros) {
        let i = choose|i: int|
            0 <= i < s.routes.len() && ((#[trigger] s.routes[i]).valid_until matches Some(t)
                && t.micros <= now.micros);
        assert(!s.routes[i].valid_at(now));
    }
}

/// Advertising a route again just as it is known changes nothing at all.
pub proof fn law_repetition_changes_nothing(s: State, i: int)
    requires
        valid_state(s),
        0 <= i < s.routes.len(),
        s.routes[i].order != u32::MAX,
    ensures
        ({
            let r = s.routes[i];
            route_advertised(s, r.cidr, r.via_router, r.preference, r.valid_until) == s
        }),
{
    let r = s.routes[i];
    let id: Identity = (r.cidr, r.via_router);
    assert(r.identity() == id);
    assert(has_identity(s.routes, id));
    let k = identity_index(s.routes, id);
    assert(s.routes[k].identity() == id);
    if i < k {
        assert(s.routes[i].identity() != s.routes[k].identity());
    } else if k < i {
        assert(s.routes[k].identity() != s.routes[i].identity());
    }
    assert(s.routes.update(i, r) =~= s.routes);
}

/// Whether two tables hold the same routes in the same places, but for their
/// orders.
pub open spec fn same_but_order(a: Seq<Route>, b: Seq<Route>) -> bool {
    &&& a.len() == b.len()
    &&& forall|i: int|
        0 <= i < a.len() ==> (#[trigger] a[i]).cidr == b[i].cidr && a[i].via_router
            == b[i].via_router && a[i].preference == b[i].preference && a[i].valid_until
            == b[i].valid_until
}

/// Advertising a route without signalling a change leaves the routes as they are.
proof fn lemma_advertising_signals(
    s: State,
    cidr: Ipv6Cidr,
    router: Ipv6Address,
    preference: NdiscRoutePreference,
    valid_until: Option<Instant>,
)
    requires
        valid_state(s),
        identities_sorted(s.routes),
        none_withdrawn(s.routes),
        !route_advertised(s, cidr, router, preference, valid_until).sync_required,
    ensures
        !s.sync_required,
        same_but_order(
            route_advertised(s, cidr, router, preference, valid_until).routes,
            s.routes,
        ),
        none_withdrawn(route_advertised(s, cidr, router, preference, valid_until).routes),
{
    let t = route_advertised(s, cidr, router, preference, valid_until);
    let own: Identity = (cidr, router);
    if has_identity(s.routes, own) {
        let i = identity_index(s.routes, own);
        assert(s.routes[i].identity() == own);
        assert(!s.routes[i].withdrawn());
        assert forall|k: int| 0 <= k < t.routes.len() implies !(
        #[trigger] t.routes[k]).withdrawn() by {
            assert(!s.routes[k].withdrawn());
        }
    } else {
        crate::sequences::lemma_filter_all(s.routes, |x: Route| !x.withdrawn());
        let purged = State { routes: live(s.routes), ..s };
        assert(purged.routes == s.routes);
        lemma_with_spare_order(purged);
        assert(t.routes == with_spare_order(purged).routes);
        assert forall|k: int| 0 <= k < t.routes.len() implies !(
        #[trigger] t.routes[k]).withdrawn() by {
            assert(!s.routes[k].withdrawn());
        }
    }
}

proof fn lemma_infos_signal(
    s: State,
    source: Ipv6Address,
    infos: Seq<NdiscRouteInformation>,
    now: Instant,
)
    requires
        valid_state(s),
        identities_sorted(s.routes),
        none_withdrawn(s.routes),
        !infos_processed(s, source, infos, now).sync_required,
    ensures
        !s.sync_required,
        same_but_order(infos_processed(s, source, infos, now).routes, s.routes),
        none_withdrawn(infos_processed(s, source, infos, now).routes),
    decreases infos.len(),
{
    if infos.len() > 0 {
        let first = infos.drop_last();
        let info = infos.last();
        let t = infos_processed(s, source, first, now);
        lemma_infos_keep_the_rest(s, source, infos, now);
        lemma_infos_processed(s, source, first, now);
        assert(!t.sync_required);
        lemma_infos_signal(s, source, first, now);
        let cidr = prefix_of(info);
        if routable(cidr) && info.route_lifetime.micros > 0 {
            lemma_advertising_signals(
                t,
                cidr,
                source,
                info.preference,
                route_deadline(info, now),
            );
        }
    }
}

/// An advertisement that does not signal a change has changed no route but for
/// orders, and has brought no new prefix: whatever changes is signalled.
pub proof fn law_changes_are_signalled(
    s: State,
    source: Ipv6Address,
    lifetime: Duration,
    preference: NdiscRoutePreference,
    prefix: Option<NdiscPrefixInformation>,
    infos: Seq<NdiscRouteInformation>,
    now: Instant,
)
    requires
        valid_state(s),
        identities_sorted(s.routes),
        none_withdrawn(s.routes),
        !advertisement_processed(
            s,
            source,
            lifetime,
            preference,
            prefix,
            infos,
            now,
        ).sync_required,
    ensures
        !s.sync_required,
        same_but_order(
            advertisement_processed(s, source, lifetime, preference, prefix, infos, now).routes,
            s.routes,
        ),
        advertisement_processed(
            s,
            source,
            lifetime,
            preference,
            prefix,
            infos,
            now,
        ).prefixes.len() == s.prefixes.len(),
{
    let keep = |x: Route| x.valid_at(now);
    let p = routes_pruned(s, now);
    let a = prefix_processed(p, prefix, now);
    let b = header_processed(a, source, lifetime, preference, now);
    let c = infos_processed(b, source, infos, now);
    lemma_infos_keep_the_rest(b, source, infos, now);
    assert(!b.sync_required && !a.sync_required && !p.sync_required);
    lemma_filter_full(s.routes, keep);
    assert(p.routes == s.routes);
    lemma_prefix_processed(s, prefix, now);
    lemma_header_processed(s, source, lifetime, preference, prefix, now);
    if lifetime.micros > 0 {
        lemma_advertising_signals(
            a,
            crate::iface::slaac::ipv6_default(),
            source,
            preference,
            Some(now.after(lifetime)),
        );
    } else {
        assert(b == a);
    }
    lemma_infos_signal(b, source, infos, now);
    crate::sequences::lemma_filter_all(c.routes, |x: Route| !x.withdrawn());
    assert(live(c.routes) == c.routes);
}

/// A filter that leaves as many as there were leaves all.
proof fn lemma_filter_full(routes: Seq<Route>, keep: spec_fn(Route) -> bool)
    requires
        routes.filter(keep).len() == routes.len(),
    ensures
        routes.filter(keep) == routes,
{
    assert forall|i: int| 0 <= i < routes.len() implies keep(#[trigger] routes[i]) by {
        if !keep(routes[i]) {
            crate::iface::slaac::lemma_filter_drops(routes, keep, i);
        }
    }
    crate::sequences::lemma_filter_all(routes, keep);
}

/// Which prefixes can be routed.
pub proof fn law_routable_prefixes(cidr: Ipv6Cidr)
    ensures
        routable(cidr) <==> can_be_routed(cidr.prefix_len, cidr.address),
{
}

/// Whether a route of a full table can be spared: another one, or the one that is
/// advertised, has its prefix.
pub open spec fn can_be_spared(routes: Seq<Route>, cidr: Ipv6Cidr, i: int) -> bool {
    ||| routes[i].cidr == cidr
    ||| exists|j: int|
        0 <= j < routes.len() && j != i && (#[trigger] routes[j]).cidr == routes[i].cidr
}

/// What a route that is new to a full table meets there: the table with orders
/// counted anew if need be, and itself as the newest.
proof fn lemma_full_table(
    s: State,
    cidr: Ipv6Cidr,
    router: Ipv6Address,
    preference: NdiscRoutePreference,
    valid_until: Option<Instant>,
) -> (r: (Seq<Route>, Route))
    requires
        valid_state(s),
        identities_sorted(s.routes),
        none_withdrawn(s.routes),
        s.routes.len() == SLAAC_ROUTE_CANDIDATE_COUNT,
        !has_identity(s.routes, (cidr, router)),
    ensures
        r.0.len() == s.routes.len(),
        same_but_order(r.0, s.routes),
        none_withdrawn(r.0),
        r.1.cidr == cidr && r.1.via_router == router && r.1.preference == preference
            && r.1.valid_until == valid_until && r.1.order != u32::MAX,
        forall|i: int| 0 <= i < r.0.len() ==> (#[trigger] r.0[i]).order < r.1.order,
        forall|i: int, j: int|
            0 <= i < r.0.len() && 0 <= j < r.0.len() ==> ((#[trigger] r.0[i]).order < (
            #[trigger] r.0[j]).order <==> s.routes[i].order < s.routes[j].order),
        route_advertised(s, cidr, router, preference, valid_until).routes == match victim(
            r.0,
            r.1,
        ) {
            Some(v) => crate::iface::slaac::inserted(r.0.remove(v), r.1),
            None => r.0,
        },
        route_advertised(s, cidr, router, preference, valid_until).sync_required == (
        s.sync_required || victim(r.0, r.1) is Some),
{
    crate::sequences::lemma_filter_all(s.routes, |x: Route| !x.withdrawn());
    let purged = State { routes: live(s.routes), ..s };
    assert(purged.routes == s.routes);
    lemma_with_spare_order(purged);
    crate::iface::properties::law_drawn_order_is_the_newest(purged);
    let t = with_spare_order(purged);
    let incoming = Route {
        cidr,
        via_router: router,
        valid_until,
        preference,
        order: t.next_route_order,
    };
    assert forall|i: int| 0 <= i < t.routes.len() implies !(#[trigger] t.routes[i]).withdrawn() by {
        assert(!s.routes[i].withdrawn());
    }
    (t.routes, incoming)
}

/// What stands in a table after one route has left and another was inserted.
proof fn lemma_exchanged(routes: Seq<Route>, incoming: Route, v: int, j: int)
    requires
        0 <= v < routes.len(),
        0 <= j < routes.len(),
        j != v,
    ensures
        crate::iface::slaac::inserted(routes.remove(v), incoming).contains(routes[j]),
        crate::iface::slaac::inserted(routes.remove(v), incoming).contains(incoming),
        forall|x: int|
            0 <= x < crate::iface::slaac::inserted(routes.remove(v), incoming).len() ==> {
                let r = #[trigger] crate::iface::slaac::inserted(routes.remove(v), incoming)[x];
                r == incoming || exists|i: int|
                    0 <= i < routes.len() && i != v && r == #[trigger] routes[i]
            },
{
    let rest = routes.remove(v);
    let own = incoming.identity();
    lemma_identities_before_len(rest, own);
    let p = identities_before(rest, own) as int;
    let all = rest.insert(p, incoming);
    let m = if j < v {
        j
    } else {
        j - 1
    };
    assert(rest[m] == routes[j]);
    assert(all[if m < p {
        m
    } else {
        m + 1
    }] == routes[j]);
    assert(all[p] == incoming);
    assert forall|x: int| 0 <= x < all.len() implies {
        let r = #[trigger] all[x];
        r == incoming || exists|i: int| 0 <= i < routes.len() && i != v && r == #[trigger] routes[i]
    } by {
        if x != p {
            let y = if x < p {
                x
            } else {
                x - 1
            };
            assert(all[x] == rest[y]);
            let i = if y < v {
                y
            } else {
                y + 1
            };
            assert(rest[y] == routes[i]);
        }
    }
}

/// Whether the route at `i` is in use in another table, whatever its order.
pub open spec fn still_in_use(after: Seq<Route>, before: Seq<Route>, i: int) -> bool {
    in_use(
        after,
        before[i].cidr,
        before[i].via_router,
        before[i].preference,
        before[i].valid_until,
    )
}

/// Where a new route costs a full table the route at `k`, the new one is in use,
/// and so are all others. The one lost can be spared if any can.
///
/// No other that could be lost in its place has a shorter prefix, nor one as long
/// and a weaker preference, nor is it newer with all that alike. And unless the
/// new route brings a prefix, and the one lost can be spared, the new one has the
/// longer prefix, or one as long and the stronger preference.
pub proof fn law_what_a_full_table_loses(
    s: State,
    cidr: Ipv6Cidr,
    router: Ipv6Address,
    preference: NdiscRoutePreference,
    valid_until: Option<Instant>,
    k: int,
    j: int,
)
    requires
        valid_state(s),
        identities_sorted(s.routes),
        none_withdrawn(s.routes),
        s.routes.len() == SLAAC_ROUTE_CANDIDATE_COUNT,
        !has_identity(s.routes, (cidr, router)),
        0 <= k < s.routes.len(),
        0 <= j < s.routes.len(),
        j != k,
        !still_in_use(
            route_advertised(s, cidr, router, preference, valid_until).routes,
            s.routes,
            k,
        ),
    ensures
        ({
            let t = route_advertised(s, cidr, router, preference, valid_until);
            let a = s.routes[k];
            let b = s.routes[j];
            &&& in_use(t.routes, cidr, router, preference, valid_until)
            &&& t.sync_required
            &&& still_in_use(t.routes, s.routes, j)
            &&& can_be_spared(s.routes, cidr, j) ==> can_be_spared(s.routes, cidr, k)
            &&& can_be_spared(s.routes, cidr, j) || !can_be_spared(s.routes, cidr, k) ==> {
                &&& a.cidr.prefix_len <= b.cidr.prefix_len
                &&& a.cidr.prefix_len == b.cidr.prefix_len ==> a.preference.rank_of()
                    <= b.preference.rank_of()
                &&& a.cidr.prefix_len == b.cidr.prefix_len && a.preference.rank_of()
                    == b.preference.rank_of() ==> a.order >= b.order
            }
            &&& !can_be_spared(s.routes, cidr, k) || (exists|i: int|
                0 <= i < s.routes.len() && (#[trigger] s.routes[i]).cidr == cidr) ==> {
                ||| a.cidr.prefix_len < cidr.prefix_len
                ||| a.cidr.prefix_len == cidr.prefix_len && a.preference.rank_of()
                    < preference.rank_of()
            }
        }),
{
    let t = route_advertised(s, cidr, router, preference, valid_until);
    let (routes, incoming) = lemma_full_table(s, cidr, router, preference, valid_until);
    assert(routes[k].cidr == s.routes[k].cidr);
    assert(routes[j].cidr == s.routes[j].cidr);
    lemma_victim(routes, incoming);
    match victim(routes, incoming) {
        None => {
            assert(!routes[k].withdrawn());
            assert(t.routes[k].cidr == s.routes[k].cidr);
            assert(still_in_use(t.routes, s.routes, k));
        },
        Some(v) => {
            if v != k {
                lemma_exchanged(routes, incoming, v, k);
                let x = choose|x: int| 0 <= x < t.routes.len() && t.routes[x] == routes[k];
                assert(!routes[k].withdrawn());
                assert(t.routes[x].cidr == s.routes[k].cidr);
                assert(still_in_use(t.routes, s.routes, k));
            }
            lemma_exchanged(routes, incoming, v, j);
            let y = choose|y: int| 0 <= y < t.routes.len() && t.routes[y] == routes[j];
            assert(!routes[j].withdrawn());
            assert(t.routes[y].cidr == s.routes[j].cidr);
            let z = choose|z: int| 0 <= z < t.routes.len() && t.routes[z] == incoming;
            assert(t.routes[z].cidr == cidr);
            lemma_spared(s.routes, routes, incoming, k);
            lemma_spared(s.routes, routes, incoming, j);
            law_route_that_leaves_a_full_table(routes, incoming, v, j);
            assert(routes[k].order < incoming.order);
            assert(routes[j].order <= routes[k].order <==> s.routes[j].order <= s.routes[k].order)
                by {
                assert(routes[k].order < routes[j].order <==> s.routes[k].order
                    < s.routes[j].order);
            }
            if exists|i: int| 0 <= i < s.routes.len() && (#[trigger] s.routes[i]).cidr == cidr {
                let i = choose|i: int|
                    0 <= i < s.routes.len() && (#[trigger] s.routes[i]).cidr == cidr;
                assert(routes[i].cidr == cidr);
                assert(crate::iface::slaac::covers(routes, cidr));
                crate::iface::properties::law_admission_is_a_gain(routes, incoming);
            }
        },
    }
}

proof fn lemma_spared(before: Seq<Route>, routes: Seq<Route>, incoming: Route, i: int)
    requires
        same_but_order(routes, before),
        0 <= i < routes.len(),
    ensures
        has_substitute(routes, incoming, i) <==> can_be_spared(before, incoming.cidr, i),
{
    assert(routes[i].cidr == before[i].cidr);
    if exists|j: int|
        0 <= j < routes.len() && j != i && (#[trigger] routes[j]).cidr == routes[i].cidr {
        let j = choose|j: int|
            0 <= j < routes.len() && j != i && (#[trigger] routes[j]).cidr == routes[i].cidr;
        assert(before[j].cidr == before[i].cidr);
    }
    if exists|j: int|
        0 <= j < before.len() && j != i && (#[trigger] before[j]).cidr == before[i].cidr {
        let j = choose|j: int|
            0 <= j < before.len() && j != i && (#[trigger] before[j]).cidr == before[i].cidr;
        assert(routes[j].cidr == routes[i].cidr);
    }
}

/// Where a full table refuses a new route, it stays as it is but for orders. The
/// new route brings no prefix, or no route can be spared; and every route that
/// could have been lost has a longer prefix, or one as long and a preference no
/// weaker.
pub proof fn law_what_a_full_table_refuses(
    s: State,
    cidr: Ipv6Cidr,
    router: Ipv6Address,
    preference: NdiscRoutePreference,
    valid_until: Option<Instant>,
    j: int,
)
    requires
        valid_state(s),
        identities_sorted(s.routes),
        none_withdrawn(s.routes),
        s.routes.len() == SLAAC_ROUTE_CANDIDATE_COUNT,
        !has_identity(s.routes, (cidr, router)),
        0 <= j < s.routes.len(),
        !in_use(
            route_advertised(s, cidr, router, preference, valid_until).routes,
            cidr,
            router,
            preference,
            valid_until,
        ),
    ensures
        ({
            let t = route_advertised(s, cidr, router, preference, valid_until);
            let b = s.routes[j];
            &&& same_but_order(t.routes, s.routes)
            &&& t.sync_required == s.sync_required
            &&& can_be_spared(s.routes, cidr, j) ==> exists|i: int|
                0 <= i < s.routes.len() && (#[trigger] s.routes[i]).cidr == cidr
            &&& can_be_spared(s.routes, cidr, j) || (forall|i: int|
                0 <= i < s.routes.len() ==> !#[trigger] can_be_spared(s.routes, cidr, i)) ==> {
                ||| b.cidr.prefix_len > cidr.prefix_len
                ||| b.cidr.prefix_len == cidr.prefix_len && b.preference.rank_of()
                    >= preference.rank_of()
            }
        }),
{
    let t = route_advertised(s, cidr, router, preference, valid_until);
    let (routes, incoming) = lemma_full_table(s, cidr, router, preference, valid_until);
    lemma_victim(routes, incoming);
    match victim(routes, incoming) {
        Some(v) => {
            let other: int = if v == 0 {
                1
            } else {
                0
            };
            lemma_exchanged(routes, incoming, v, other);
            let z = choose|z: int| 0 <= z < t.routes.len() && t.routes[z] == incoming;
            assert(t.routes[z].cidr == cidr);
            assert(false);
        },
        None => {
            lemma_spared(s.routes, routes, incoming, j);
            assert(routes[j].cidr == s.routes[j].cidr);
            if can_be_spared(s.routes, cidr, j) {
                if forall|i: int|
                    0 <= i < s.routes.len() ==> (#[trigger] s.routes[i]).cidr != cidr {
                    assert forall|i: int| 0 <= i < routes.len() implies (
                    #[trigger] routes[i]).cidr != incoming.cidr by {
                        assert(s.routes[i].cidr != cidr);
                    }
                    law_new_prefix_finds_a_place(routes, incoming, j);
                }
            }
            if can_be_spared(s.routes, cidr, j) || (forall|i: int|
                0 <= i < s.routes.len() ==> !#[trigger] can_be_spared(s.routes, cidr, i)) {
                assert forall|k: int|
                    0 <= k < routes.len() && !can_be_spared(
                        s.routes,
                        cidr,
                        j,
                    ) implies !#[trigger] has_substitute(routes, incoming, k) by {
                    lemma_spared(s.routes, routes, incoming, k);
                    assert(!can_be_spared(s.routes, cidr, k));
                }
                law_route_that_is_refused(routes, incoming, j);
            }
        },
    }
}

/// The routes of an advertisement are processed one after the other, however many
/// there are: each is advertised for its lifetime, or withdrawn if it has none.
pub proof fn law_routes_are_processed_in_turn(
    s: State,
    source: Ipv6Address,
    infos: Seq<NdiscRouteInformation>,
    info: NdiscRouteInformation,
    now: Instant,
)
    requires
        can_be_routed(info.prefix_len, info.prefix),
    ensures
        ({
            let before = infos_processed(s, source, infos, now);
            let after = infos_processed(s, source, infos.push(info), now);
            let cidr = Ipv6Cidr { address: info.prefix, prefix_len: info.prefix_len };
            &&& info.route_lifetime.micros == 0 ==> after == route_withdrawn(before, (cidr, source))
            &&& info.route_lifetime.micros == 4_294_967_295_000_000 ==> after == route_advertised(
                before,
                cidr,
                source,
                info.preference,
                None,
            )
            &&& info.route_lifetime.micros > 0 && info.route_lifetime.micros
                != 4_294_967_295_000_000 ==> after == route_advertised(
                before,
                cidr,
                source,
                info.preference,
                Some(Instant { micros: (now.micros + info.route_lifetime.micros) as i64 }),
            )
        }),
{
    assert(infos.push(info).drop_last() =~= infos);
}

/// An advertisement first makes its sender a default router, for its lifetime, or
/// no longer one if it has none.
pub proof fn law_header_offers_the_default_route(
    s: State,
    source: Ipv6Address,
    lifetime: Duration,
    preference: NdiscRoutePreference,
    now: Instant,
)
    ensures
        ({
            let cidr = Ipv6Cidr { address: Ipv6Address { bits: 0 }, prefix_len: 0 };
            let t = header_processed(s, source, lifetime, preference, now);
            &&& lifetime.micros > 0 ==> t == route_advertised(
                s,
                cidr,
                source,
                preference,
                Some(Instant { micros: (now.micros + lifetime.micros) as i64 }),
            )
            &&& lifetime.micros == 0 ==> t == route_withdrawn(s, (cidr, source))
        }),
{
}

/// A route is withdrawn just if it is held and was not withdrawn before. Then it
/// is not in use any more, others stay as they are, and that is signalled.
pub proof fn law_withdrawing(s: State, cidr: Ipv6Cidr, router: Ipv6Address, j: int)
    requires
        valid_state(s),
        0 <= j < s.routes.len(),
    ensures
        ({
            let t = route_withdrawn(s, (cidr, router));
            let own = s.routes[j].cidr == cidr && s.routes[j].via_router == router;
            &&& t.routes.len() == s.routes.len()
            &&& own ==> t.routes[j].order == u32::MAX
            &&& own && s.routes[j].order != u32::MAX ==> t.sync_required
                && crate::iface::slaac::can_withdraw(s, (cidr, router))
            &&& own && s.routes[j].order == u32::MAX ==> t == s
                && !crate::iface::slaac::can_withdraw(s, (cidr, router))
            &&& !own ==> t.routes[j] == s.routes[j]
            &&& t.prefixes == s.prefixes
        }),
{
    let id: Identity = (cidr, router);
    if has_identity(s.routes, id) {
        let i = identity_index(s.routes, id);
        assert(s.routes[i].identity() == id);
        if s.routes[j].identity() == id {
            if i < j {
                assert(s.routes[i].identity() != s.routes[j].identity());
            } else if j < i {
                assert(s.routes[j].identity() != s.routes[i].identity());
            }
        }
    } else {
        assert(s.routes[j].identity() != id);
    }
}

} // verus!
