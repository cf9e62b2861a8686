//! What callers of the neighbor cache can count on, in numbers.

use vstd::prelude::*;
use crate::collections::{
    has_key, keys_distinct, lemma_key_index, lemma_push_key, lemma_with_value, lemma_without_key,
    value_of, without_key, Key,
};
use crate::config::IFACE_NEIGHBOR_CACHE_COUNT;
use crate::iface::neighbor::{
    abandoned_first, answer, expired_dropped, expires_first, flushed, key_of, known_router,
    law_key_names_address, lemma_expires_first, lemma_neighbor_set, mapped, mapping_changes,
    probe_recorded, refilled, request_sent, router_noted, traffic_seen, valid_state, Answer,
    Neighbor, NeighborResolution, State,
};
use crate::time::Instant;
use crate::wire::hwaddr::HardwareAddress;
use crate::wire::ip::{IpAddress, Ipv6Address};

verus! {

/// A lookup finds the link-layer address of a neighbor up to the time at which
/// it expires, and never from then on.
pub proof fn law_lookup_finds_until_expiry(s: State, address: IpAddress, now: Instant)
    ensures
        match s.neighbor(address) {
            Some(n) => {
                &&& now.micros < n.expires_at.micros ==> answer(s, address, now) == Answer::Found(
                    n.hardware_addr,
                )
                &&& now.micros >= n.expires_at.micros ==> !(answer(s, address, now) is Found)
            },
            None => !(answer(s, address, now) is Found),
        },
{
}

/// Where a lookup finds nothing, it tells whether a request was sent within the
/// last second.
pub proof fn law_requests_are_a_second_apart(s: State, t: Instant, address: IpAddress, now: Instant)
    requires
        t.micros + 1_000_000 <= i64::MAX,
    ensures
        ({
            let r = answer(request_sent(s, t), address, now);
            &&& r is Found <==> answer(s, address, now) is Found
            &&& r is Found ==> r == answer(s, address, now)
            &&& r is RateLimited <==> !(r is Found) && now.micros < t.micros + 1_000_000
            &&& r is NotFound <==> !(r is Found) && now.micros >= t.micros + 1_000_000
        }),
        request_sent(s, t).neighbors == s.neighbors,
        request_sent(s, t).resolutions == s.resolutions,
{
}

/// A neighbor that was mapped until a given time is found until then, and not
/// from then on.
pub proof fn law_mapping_lasts_until_its_end(
    s: State,
    address: IpAddress,
    hardware_addr: HardwareAddress,
    expires_at: Instant,
    now: Instant,
)
    requires
        valid_state(s),
    ensures
        ({
            let r = answer(mapped(s, address, hardware_addr, expires_at), address, now);
            &&& now.micros < expires_at.micros ==> r == Answer::Found(hardware_addr)
            &&& now.micros >= expires_at.micros ==> !(r is Found)
        }),
{
    let is_router = s.neighbor(address) matches Some(n) && n.is_router;
    let n = Neighbor { hardware_addr, expires_at, is_router };
    lemma_neighbor_set(s.neighbors, key_of(address), n);
}

/// A neighbor that traffic maps is found for one minute, and not from then on.
pub proof fn law_mapping_lasts_one_minute(
    s: State,
    address: IpAddress,
    hardware_addr: HardwareAddress,
    t: Instant,
    now: Instant,
)
    requires
        valid_state(s),
        t.micros + 60_000_000 <= i64::MAX,
    ensures
        ({
            let r = answer(refilled(s, address, hardware_addr, t), address, now);
            &&& now.micros < t.micros + 60_000_000 ==> r == Answer::Found(hardware_addr)
            &&& now.micros >= t.micros + 60_000_000 ==> !(r is Found)
        }),
{
    lemma_without_key(s.neighbors, key_of(address));
    let e = Instant { micros: (t.micros + 60_000_000) as i64 };
    law_mapping_lasts_until_its_end(
        expired_dropped(s, address, t),
        address,
        hardware_addr,
        e,
        now,
    );
}

/// A packet from the link-layer address that the cache has of a neighbor prolongs
/// the life of that neighbor to a minute from then, be it a router or a host.
/// One of IPv6 must still be alive for that.
pub proof fn law_traffic_prolongs_neighbors(
    s: State,
    address: IpAddress,
    t: Instant,
    now: Instant,
)
    requires
        valid_state(s),
        t.micros + 60_000_000 <= i64::MAX,
        s.neighbor(address) is Some,
        address is Ipv6 ==> t.micros < s.neighbor(address)->0.expires_at.micros,
    ensures
        ({
            let n = s.neighbor(address)->0;
            let after = traffic_seen(s, address, n.hardware_addr, t);
            let r = answer(after, address, now);
            &&& after.neighbor(address) is Some
            &&& after.neighbor(address)->0.expires_at.micros == t.micros + 60_000_000
            &&& after.neighbor(address)->0.hardware_addr == n.hardware_addr
            &&& after.neighbor(address)->0.is_router == n.is_router
            &&& now.micros < t.micros + 60_000_000 ==> r == Answer::Found(n.hardware_addr)
            &&& now.micros >= t.micros + 60_000_000 ==> !(r is Found)
        }),
{
    let n = s.neighbor(address)->0;
    let updated = Neighbor { expires_at: Instant { micros: (t.micros + 60_000_000) as i64 }, ..n };
    lemma_with_value(s.neighbors, key_of(address), updated);
}

/// A packet changes nothing of the cache if it comes from another link-layer
/// address, or from a neighbor that is unknown or, being of IPv6, has expired.
/// In any case it changes no other neighbor and no resolution.
pub proof fn law_traffic_changes_nothing_else(
    s: State,
    address: IpAddress,
    hardware_addr: HardwareAddress,
    t: Instant,
    other: IpAddress,
)
    requires
        valid_state(s),
        address != other,
    ensures
        ({
            let n = s.neighbor(address);
            n is None || n->0.hardware_addr != hardware_addr || address is Ipv6 && t.micros
                >= n->0.expires_at.micros
        }) ==> traffic_seen(s, address, hardware_addr, t) == s,
        traffic_seen(s, address, hardware_addr, t).neighbor(other) == s.neighbor(other),
        traffic_seen(s, address, hardware_addr, t).resolutions == s.resolutions,
        traffic_seen(s, address, hardware_addr, t).silent_until == s.silent_until,
{
    if s.neighbor(address) is Some {
        let n = s.neighbor(address)->0;
        let updated = Neighbor {
            expires_at: t.after(crate::time::Duration { micros: 60_000_000 }),
            ..n
        };
        lemma_with_value(s.neighbors, key_of(address), updated);
    }
    law_key_names_address(address);
    law_key_names_address(other);
}

/// A neighbor leaves the cache for another one only if the cache is full and the
/// other one is new. None expires before the one that leaves, and of those that
/// expire at the same time it was stored first.
pub proof fn law_first_to_expire_leaves(
    s: State,
    address: IpAddress,
    hardware_addr: HardwareAddress,
    expires_at: Instant,
    lost: IpAddress,
    other: IpAddress,
)
    requires
        valid_state(s),
        lost != address,
        s.neighbor(lost) is Some,
        mapped(s, address, hardware_addr, expires_at).neighbor(lost) is None,
        other != address,
    ensures
        s.neighbor(address) is None,
        s.neighbors.len() == IFACE_NEIGHBOR_CACHE_COUNT,
        s.neighbor(other) is Some ==> s.neighbor(lost)->0.expires_at.micros <= s.neighbor(
            other,
        )->0.expires_at.micros,
        other != lost ==> mapped(s, address, hardware_addr, expires_at).neighbor(other)
            == s.neighbor(other),
        forall|i: int, j: int|
            0 <= i < j < s.neighbors.len() && (#[trigger] s.neighbors[j]).0 == key_of(lost)
                ==> s.neighbor(
                lost,
            )->0.expires_at.micros < (#[trigger] s.neighbors[i]).1.expires_at.micros,
{
    let is_router = s.neighbor(address) matches Some(n) && n.is_router;
    let n = Neighbor { hardware_addr, expires_at, is_router };
    lemma_neighbor_set(s.neighbors, key_of(address), n);
    law_key_names_address(address);
    law_key_names_address(lost);
    law_key_names_address(other);
    assert(key_of(lost) != key_of(address));
    assert(key_of(other) != key_of(address));
    assert(value_of(mapped(s, address, hardware_addr, expires_at).neighbors, key_of(lost)) is None);
    lemma_expires_first(s.neighbors);
    let v = choose|i: int| expires_first(s.neighbors, i);
    assert(key_of(lost) == s.neighbors[v].0);
    lemma_key_index(s.neighbors, key_of(lost));
    lemma_stored_at(s.neighbors, v);
    if s.neighbor(other) is Some {
        lemma_key_index(s.neighbors, key_of(other));
    }
    assert forall|i: int, j: int|
        0 <= i < j < s.neighbors.len() && (#[trigger] s.neighbors[j]).0 == key_of(
            lost,
        ) implies s.neighbor(lost)->0.expires_at.micros < (
    #[trigger] s.neighbors[i]).1.expires_at.micros by {
        if j < v {
            assert(s.neighbors[j].0 != s.neighbors[v].0);
        } else if v < j {
            assert(s.neighbors[v].0 != s.neighbors[j].0);
        }
    }
}

/// The value of the key of an entry is that of the entry.
proof fn lemma_stored_at<V>(s: Seq<(Key, V)>, i: int)
    requires
        keys_distinct(s),
        0 <= i < s.len(),
    ensures
        value_of(s, s[i].0) == Some(s[i].1),
{
    let k = s[i].0;
    assert(has_key(s, k));
    lemma_key_index(s, k);
    let j = crate::collections::key_index(s, k);
    if j < i {
        assert(s[j].0 != s[i].0);
    }
}

/// Mapping an address that the cache has, or that it has room for, costs no other
/// neighbor its place, and changes none.
pub proof fn law_known_neighbor_costs_no_place(
    s: State,
    address: IpAddress,
    hardware_addr: HardwareAddress,
    t: Instant,
    other: IpAddress,
)
    requires
        valid_state(s),
        other != address,
        s.neighbor(address) is Some || s.neighbors.len() < IFACE_NEIGHBOR_CACHE_COUNT,
    ensures
        refilled(s, address, hardware_addr, t).neighbor(other) == s.neighbor(other),
{
    let d = expired_dropped(s, address, t);
    lemma_without_key(s.neighbors, key_of(address));
    law_key_names_address(address);
    law_key_names_address(other);
    assert(key_of(other) != key_of(address));
    let is_router = d.neighbor(address) matches Some(n) && n.is_router;
    let n = Neighbor {
        hardware_addr,
        expires_at: t.after(crate::time::Duration { micros: 60_000_000 }),
        is_router,
    };
    lemma_neighbor_set(d.neighbors, key_of(address), n);
}

/// Whether a live neighbor is a router is what was noted last. Noting it changes
/// nothing else of the neighbor, and nothing of the others.
pub proof fn law_router_state_is_noted(
    s: State,
    address: Ipv6Address,
    is_router: bool,
    t: Instant,
    now: Instant,
    other: IpAddress,
)
    requires
        valid_state(s),
    ensures
        ({
            let a = IpAddress::Ipv6(address);
            let after = router_noted(s, address, is_router, t);
            let live = s.neighbor(a) is Some && t.micros < s.neighbor(a)->0.expires_at.micros;
            &&& !live ==> after == s
            &&& live ==> after.neighbor(a) is Some && after.neighbor(a)->0.is_router == is_router
            &&& live ==> after.neighbor(a)->0.expires_at == s.neighbor(a)->0.expires_at
            &&& answer(after, other, now) == answer(s, other, now)
            &&& other != a ==> after.neighbor(other) == s.neighbor(other)
            &&& live && now.micros < s.neighbor(a)->0.expires_at.micros ==> known_router(
                after,
                address,
                now,
            ) == is_router
            &&& s.neighbor(a) is Some && now.micros >= s.neighbor(a)->0.expires_at.micros
                ==> !known_router(after, address, now)
        }),
{
    let a = IpAddress::Ipv6(address);
    law_key_names_address(a);
    law_key_names_address(other);
    if s.neighbor(a) is Some {
        let updated = Neighbor { is_router, ..s.neighbor(a)->0 };
        lemma_with_value(s.neighbors, key_of(a), updated);
    }
}

/// A mapping is reported as a change unless a lookup finds just that mapping.
pub proof fn law_change_of_mapping_is_reported(
    s: State,
    address: Ipv6Address,
    hardware_addr: HardwareAddress,
    now: Instant,
)
    ensures
        mapping_changes(s, address, hardware_addr, now) <==> answer(
            s,
            IpAddress::Ipv6(address),
            now,
        ) != Answer::Found(hardware_addr),
{
}

/// The resolution of an address after its first, second and third probe lasts
/// three, two and one seconds.
pub proof fn law_resolution_windows(r: NeighborResolution, now: Instant)
    requires
        r.wf(),
    ensures
        r.probes_sent == 1 ==> (r.outstanding(now) <==> r.last_probe_at.micros <= now.micros
            < r.last_probe_at.micros + 3_000_000),
        r.probes_sent == 2 ==> (r.outstanding(now) <==> r.last_probe_at.micros <= now.micros
            < r.last_probe_at.micros + 2_000_000),
        r.probes_sent == 3 ==> (r.outstanding(now) <==> r.last_probe_at.micros <= now.micros
            < r.last_probe_at.micros + 1_000_000),
        1 <= r.probes_sent <= 3,
{
}

/// Three probes, each sent while the resolution is under way, keep it under way
/// until one second after the third, and not longer.
pub proof fn law_three_probes(t1: Instant, t2: Instant, t3: Instant, now: Instant)
    requires
        t1.micros <= t2.micros < t1.micros + 3_000_000,
        t2.micros <= t3.micros < t2.micros + 2_000_000,
    ensures
        NeighborResolution::first(t1).outstanding(now) <==> t1.micros <= now.micros < t1.micros
            + 3_000_000,
        NeighborResolution::first(t1).probed(t2).outstanding(now) <==> t2.micros <= now.micros
            < t2.micros + 2_000_000,
        NeighborResolution::first(t1).probed(t2).probed(t3).outstanding(now) <==> t3.micros
            <= now.micros < t3.micros + 1_000_000,
{
}

/// The address of a probe that was sent is under resolution, from then on for at
/// least a second.
pub proof fn law_probed_address_is_under_resolution(
    s: State,
    address: Ipv6Address,
    t: Instant,
    now: Instant,
)
    requires
        valid_state(s),
        t.micros <= now.micros < t.micros + 1_000_000,
    ensures
        value_of(
            probe_recorded(s.resolutions, key_of(IpAddress::Ipv6(address)), t),
            key_of(IpAddress::Ipv6(address)),
        ) matches Some(r) && r.outstanding(now) && r.last_probe_at == t,
{
    lemma_probe_recorded(s.resolutions, key_of(IpAddress::Ipv6(address)), t);
    if has_key(s.resolutions, key_of(IpAddress::Ipv6(address))) {
        lemma_key_index(s.resolutions, key_of(IpAddress::Ipv6(address)));
    }
}

/// What recording a probe leaves of each resolution.
proof fn lemma_probe_recorded(resolutions: Seq<(Key, NeighborResolution)>, key: Key, now: Instant)
    requires
        keys_distinct(resolutions),
        resolutions.len() <= IFACE_NEIGHBOR_CACHE_COUNT,
    ensures
        value_of(probe_recorded(resolutions, key, now), key) == Some(
            match value_of(resolutions, key) {
                Some(r) => r.probed(now),
                None => NeighborResolution::first(now),
            },
        ),
        has_key(resolutions, key) || resolutions.len() < IFACE_NEIGHBOR_CACHE_COUNT ==> forall|
            m: Key,
        |
            m != key ==> #[trigger] value_of(probe_recorded(resolutions, key, now), m)
                == value_of(resolutions, m),
        !has_key(resolutions, key) && resolutions.len() == IFACE_NEIGHBOR_CACHE_COUNT ==> ({
            let v = choose|i: int| abandoned_first(resolutions, now, i);
            &&& abandoned_first(resolutions, now, v)
            &&& forall|m: Key|
                m != key ==> #[trigger] value_of(probe_recorded(resolutions, key, now), m) == if m
                    == resolutions[v].0 {
                    None
                } else {
                    value_of(resolutions, m)
                }
        }),
{
    if has_key(resolutions, key) {
        lemma_with_value(resolutions, key, value_of(resolutions, key)->0.probed(now));
    } else if resolutions.len() < IFACE_NEIGHBOR_CACHE_COUNT {
        lemma_push_key(resolutions, key, NeighborResolution::first(now));
    } else {
        lemma_some_abandoned(resolutions, now);
        let v = choose|i: int| abandoned_first(resolutions, now, i);
        let k = resolutions[v].0;
        lemma_without_key(resolutions, k);
        assert(has_key(resolutions, k));
        assert(value_of(without_key(resolutions, k), key) is None);
        lemma_push_key(without_key(resolutions, k), key, NeighborResolution::first(now));
    }
}

/// Some resolution is the first to be abandoned.
proof fn lemma_some_abandoned(resolutions: Seq<(Key, NeighborResolution)>, now: Instant)
    requires
        resolutions.len() > 0,
    ensures
        exists|i: int| abandoned_first(resolutions, now, i),
    decreases resolutions.len(),
{
    let n = resolutions.len() - 1;
    if n == 0 {
        assert(abandoned_first(resolutions, now, 0));
    } else {
        let rest = resolutions.drop_last();
        lemma_some_abandoned(rest, now);
        let i = choose|i: int| abandoned_first(rest, now, i);
        assert forall|j: int| 0 <= j < n implies rest[j] == #[trigger] resolutions[j] by {}
        let a = resolutions[i].1;
        let b = resolutions[n].1;
        if a.outstanding(now) && !b.outstanding(now) || a.outstanding(now) == b.outstanding(now)
            && b.last_probe_at.micros < a.last_probe_at.micros {
            assert(abandoned_first(resolutions, now, n));
        } else {
            assert(abandoned_first(resolutions, now, i));
        }
    }
}

/// A probe costs another resolution its place only if there is no room and the
/// probed address is new. A resolution under way is lost only if all are under
/// way, and none of the same standing was probed longer ago than the one lost.
/// Every other resolution stays as it is.
pub proof fn law_ended_resolutions_are_lost_first(
    s: State,
    address: Ipv6Address,
    now: Instant,
    lost: Ipv6Address,
    other: Ipv6Address,
)
    requires
        valid_state(s),
        lost != address,
        other != address,
        s.resolution(lost) is Some,
        value_of(
            probe_recorded(s.resolutions, key_of(IpAddress::Ipv6(address)), now),
            key_of(IpAddress::Ipv6(lost)),
        ) is None,
    ensures
        s.resolution(address) is None,
        s.resolutions.len() == IFACE_NEIGHBOR_CACHE_COUNT,
        s.resolution(other) is Some && s.resolution(lost)->0.outstanding(now) ==> s.resolution(
            other,
        )->0.outstanding(now),
        s.resolution(other) is Some && s.resolution(other)->0.outstanding(now) == s.resolution(
            lost,
        )->0.outstanding(now) ==> s.resolution(lost)->0.last_probe_at.micros <= s.resolution(
            other,
        )->0.last_probe_at.micros,
        other != lost ==> value_of(
            probe_recorded(s.resolutions, key_of(IpAddress::Ipv6(address)), now),
            key_of(IpAddress::Ipv6(other)),
        ) == s.resolution(other),
{
    let key = key_of(IpAddress::Ipv6(address));
    let k = key_of(IpAddress::Ipv6(lost));
    let m = key_of(IpAddress::Ipv6(other));
    law_key_names_address(IpAddress::Ipv6(address));
    law_key_names_address(IpAddress::Ipv6(lost));
    law_key_names_address(IpAddress::Ipv6(other));
    assert(k != key && m != key);
    lemma_probe_recorded(s.resolutions, key, now);
    assert(value_of(probe_recorded(s.resolutions, key, now), k) is None);
    let v = choose|i: int| abandoned_first(s.resolutions, now, i);
    assert(s.resolutions[v].0 == k);
    lemma_stored_at(s.resolutions, v);
    if s.resolution(other) is Some {
        lemma_key_index(s.resolutions, m);
        let j = crate::collections::key_index(s.resolutions, m);
        assert(s.resolutions[j].1 == s.resolution(other)->0);
    }
}

/// Where there is room for it, or it is known, a probe costs no resolution its
/// place.
pub proof fn law_probe_with_room_costs_nothing(
    s: State,
    address: Ipv6Address,
    now: Instant,
    other: Ipv6Address,
)
    requires
        valid_state(s),
        other != address,
        s.resolution(address) is Some || s.resolutions.len() < IFACE_NEIGHBOR_CACHE_COUNT,
    ensures
        value_of(
            probe_recorded(s.resolutions, key_of(IpAddress::Ipv6(address)), now),
            key_of(IpAddress::Ipv6(other)),
        ) == s.resolution(other),
{
    let key = key_of(IpAddress::Ipv6(address));
    law_key_names_address(IpAddress::Ipv6(address));
    law_key_names_address(IpAddress::Ipv6(other));
    assert(key_of(IpAddress::Ipv6(other)) != key);
    lemma_probe_recorded(s.resolutions, key, now);
}

/// Mapping an address of IPv4 leaves every resolution as it is, and no mapping
/// changes when requests may be sent.
pub proof fn law_mapping_leaves_the_rest(
    s: State,
    address: IpAddress,
    hardware_addr: HardwareAddress,
    expires_at: Instant,
)
    ensures
        address is Ipv4 ==> mapped(s, address, hardware_addr, expires_at).resolutions
            == s.resolutions,
        mapped(s, address, hardware_addr, expires_at).silent_until == s.silent_until,
{
}

/// Mapping an address until a given time keeps whether the neighbor is a router,
/// expired or not; a new neighbor is a host.
pub proof fn law_mapping_until_a_time_keeps_router_state(
    s: State,
    address: IpAddress,
    hardware_addr: HardwareAddress,
    expires_at: Instant,
)
    requires
        valid_state(s),
    ensures
        mapped(s, address, hardware_addr, expires_at).neighbor(address) is Some,
        mapped(s, address, hardware_addr, expires_at).neighbor(address)->0.is_router == (s.neighbor(
            address,
        ) is Some && s.neighbor(address)->0.is_router),
{
    let is_router = s.neighbor(address) matches Some(n) && n.is_router;
    let n = Neighbor { hardware_addr, expires_at, is_router };
    lemma_neighbor_set(s.neighbors, key_of(address), n);
}

/// A neighbor that traffic maps again keeps its place among the others, unless it
/// is of IPv6 and has expired.
pub proof fn law_mapping_keeps_the_place(
    s: State,
    address: IpAddress,
    hardware_addr: HardwareAddress,
    t: Instant,
    i: int,
)
    requires
        valid_state(s),
        s.neighbor(address) is Some,
        address is Ipv4 || t.micros < s.neighbor(address)->0.expires_at.micros,
        0 <= i < s.neighbors.len(),
    ensures
        refilled(s, address, hardware_addr, t).neighbors.len() == s.neighbors.len(),
        refilled(s, address, hardware_addr, t).neighbors[i].0 == s.neighbors[i].0,
{
    lemma_key_index(s.neighbors, key_of(address));
}

/// After everything was forgotten, nothing is found and nothing is under
/// resolution. When requests may be sent stays.
pub proof fn law_flushed_cache_finds_nothing(
    s: State,
    address: IpAddress,
    target: Ipv6Address,
    now: Instant,
)
    ensures
        !(answer(flushed(s), address, now) is Found),
        flushed(s).neighbor(address) is None,
        flushed(s).resolution(target) is None,
        flushed(s).silent_until == s.silent_until,
{
    let n = flushed(s).neighbors;
    let r = flushed(s).resolutions;
    assert(!has_key(n, key_of(address)));
    assert(!has_key(r, key_of(IpAddress::Ipv6(target))));
}

/// A router that sent an advertisement with its link-layer address is found there
/// and known as a router for one minute.
pub proof fn law_advertising_router_is_known(
    s: State,
    address: Ipv6Address,
    hardware_addr: HardwareAddress,
    t: Instant,
    now: Instant,
)
    requires
        valid_state(s),
        t.micros + 60_000_000 <= i64::MAX,
    ensures
        ({
            let m = refilled(s, IpAddress::Ipv6(address), hardware_addr, t);
            let after = router_noted(m, address, true, t);
            &&& known_router(after, address, now) <==> now.micros < t.micros + 60_000_000
            &&& now.micros < t.micros + 60_000_000 ==> answer(
                after,
                IpAddress::Ipv6(address),
                now,
            ) == Answer::Found(hardware_addr)
        }),
{
    let a = IpAddress::Ipv6(address);
    let d = expired_dropped(s, a, t);
    lemma_without_key(s.neighbors, key_of(a));
    let is_router = d.neighbor(a) matches Some(n) && n.is_router;
    let n = Neighbor {
        hardware_addr,
        expires_at: Instant { micros: (t.micros + 60_000_000) as i64 },
        is_router,
    };
    lemma_neighbor_set(d.neighbors, key_of(a), n);
    let m = refilled(s, a, hardware_addr, t);
    assert(m.neighbor(a) == Some(n));
    lemma_with_value(m.neighbors, key_of(a), Neighbor { is_router: true, ..n });
}

} // verus!
