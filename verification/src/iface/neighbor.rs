//! The neighbor cache: the link-layer addresses of nodes on the link.

use vstd::prelude::*;
use crate::collections::{
    has_key, keys_distinct, lemma_key_index, lemma_push_key, lemma_with_value,
    lemma_without_key, map_clear, map_entries, map_get, map_get_mut, map_insert, map_remove,
    value_of, with_value, without_key, Entries, Key,
};
use crate::config::IFACE_NEIGHBOR_CACHE_COUNT;
use crate::time::{Duration, Instant};
use crate::wire::hwaddr::HardwareAddress;
use crate::wire::ip::{IpAddress, Ipv4Address, Ipv6Address};

verus! {

/// The number of solicitations that are sent before resolving an address is
/// given up.
pub const MAX_NEIGHBOR_PROBES: u8 = 3;

/// The resolution of an address that is under way.
#[derive(Debug, Clone, Copy, PartialEq, Eq, Structural)]
pub struct NeighborResolution {
    pub probes_sent: u8,
    pub last_probe_at: Instant,
}

impl NeighborResolution {
    /// Whether the number of probes is one that was reached by sending, and the
    /// end of the resolution can be represented.
    pub open spec fn wf(self) -> bool {
        &&& 1 <= self.probes_sent <= MAX_NEIGHBOR_PROBES
        &&& self.last_probe_at.micros + (MAX_NEIGHBOR_PROBES - self.probes_sent + 1) * 1_000_000
            <= i64::MAX
    }

    /// When the resolution has failed, in microseconds: every probe that is
    /// still to be sent, and the last one that was, has a second to be
    /// answered.
    pub open spec fn fails_at(self) -> int {
        self.last_probe_at.micros + (MAX_NEIGHBOR_PROBES - self.probes_sent + 1) * 1_000_000
    }

    /// Whether the resolution is under way.
    pub open spec fn outstanding(self, now: Instant) -> bool {
        self.last_probe_at.micros <= now.micros < self.fails_at()
    }

    /// The resolution after another probe was sent. One that had ended begins
    /// anew.
    pub open spec fn probed(self, now: Instant) -> NeighborResolution {
        NeighborResolution {
            probes_sent: if !self.outstanding(now) {
                1
            } else if self.probes_sent < MAX_NEIGHBOR_PROBES {
                (self.probes_sent + 1) as u8
            } else {
                MAX_NEIGHBOR_PROBES
            },
            last_probe_at: now,
        }
    }

    /// The resolution after the first probe.
    pub open spec fn first(now: Instant) -> NeighborResolution {
        NeighborResolution { probes_sent: 1, last_probe_at: now }
    }

    /// The resolution after the first probe.
    fn new(now: Instant) -> (r: NeighborResolution)
        ensures
            r == NeighborResolution::first(now),
    {
        NeighborResolution { probes_sent: 1, last_probe_at: now }
    }

    /// When the resolution has failed.
    fn failure_at(&self) -> (r: Instant)
        requires
            self.wf(),
        ensures
            r.micros == self.fails_at(),
    {
        let remaining_windows: u32 = (MAX_NEIGHBOR_PROBES - self.probes_sent) as u32 + 1;
        self.last_probe_at + Cache::silent_time() * remaining_windows
    }

    /// Whether the resolution is under way.
    fn is_outstanding(&self, now: Instant) -> (r: bool)
        requires
            self.wf(),
        ensures
            r == self.outstanding(now),
    {
        self.last_probe_at.micros <= now.micros && now.micros < self.failure_at().micros
    }

    /// Takes note of another probe.
    fn record_probe(&mut self, now: Instant)
        requires
            old(self).wf(),
            now.micros + 3_000_000 <= i64::MAX,
        ensures
            *final(self) == old(self).probed(now),
            final(self).wf(),
    {
        if self.is_outstanding(now) {
            if self.probes_sent < MAX_NEIGHBOR_PROBES {
                self.probes_sent = self.probes_sent + 1;
            }
        } else {
            self.probes_sent = 1;
        }
        self.last_probe_at = now;
    }
}

/// A neighbor: its link-layer address, the time from which on that is not to be
/// used any more, and whether the neighbor is a router.
#[derive(Debug, Clone, Copy)]
pub struct Neighbor {
    pub hardware_addr: HardwareAddress,
    pub expires_at: Instant,
    pub is_router: bool,
}

/// The answer to a lookup.
#[derive(Debug, Clone, Copy, Eq)]
pub enum Answer {
    /// The neighbor is in the cache and has not expired.
    Found(HardwareAddress),
    /// The neighbor is not in the cache, or has expired.
    NotFound,
    /// The neighbor is not in the cache, or has expired, and a lookup has been
    /// made recently.
    RateLimited,
}

impl PartialEq for Answer {
    fn eq(&self, other: &Answer) -> (r: bool) {
        match (self, other) {
            (Answer::Found(a), Answer::Found(b)) => *a == *b,
            (Answer::NotFound, Answer::NotFound) => true,
            (Answer::RateLimited, Answer::RateLimited) => true,
            _ => false,
        }
    }
}

impl vstd::std_specs::cmp::PartialEqSpecImpl for Answer {
    open spec fn obeys_eq_spec() -> bool {
        true
    }

    open spec fn eq_spec(&self, other: &Answer) -> bool {
        *self == *other
    }
}

impl Answer {
    /// Whether an address was found.
    pub fn found(&self) -> (r: bool)
        ensures
            r == (self is Found),
    {
        match self {
            Answer::Found(_) => true,
            _ => false,
        }
    }
}

/// The key under which an address is stored.
pub open spec fn key_of(address: IpAddress) -> Key {
    match address {
        IpAddress::Ipv4(a) => (4, a.bits as u128),
        IpAddress::Ipv6(a) => (6, a.bits),
    }
}

/// The address that is stored under a key.
pub open spec fn address_of(key: Key) -> IpAddress {
    if key.0 == 4 {
        IpAddress::Ipv4(Ipv4Address { bits: (key.1 % 0x1_0000_0000) as u32 })
    } else {
        IpAddress::Ipv6(Ipv6Address { bits: key.1 })
    }
}

/// Every address is found again under its key.
pub proof fn law_key_names_address(address: IpAddress)
    ensures
        address_of(key_of(address)) == address,
{
}

/// The key under which an address is stored.
fn address_key(address: &IpAddress) -> (r: Key)
    ensures
        r == key_of(*address),
{
    match address {
        IpAddress::Ipv4(a) => (4, a.bits as u128),
        IpAddress::Ipv6(a) => (6, a.bits),
    }
}

/// The neighbors of a cache.
pub uninterp spec fn neighbor_entries(
    m: heapless::LinearMap<Key, Neighbor, IFACE_NEIGHBOR_CACHE_COUNT>,
) -> Seq<(Key, Neighbor)>;

/// The resolutions of a cache.
pub uninterp spec fn resolution_entries(
    m: heapless::LinearMap<Key, NeighborResolution, IFACE_NEIGHBOR_CACHE_COUNT>,
) -> Seq<(Key, NeighborResolution)>;

impl Entries<Neighbor> for heapless::LinearMap<Key, Neighbor, IFACE_NEIGHBOR_CACHE_COUNT> {
    open spec fn entries(&self) -> Seq<(Key, Neighbor)> {
        neighbor_entries(*self)
    }
}

impl Entries<NeighborResolution> for heapless::LinearMap<
    Key,
    NeighborResolution,
    IFACE_NEIGHBOR_CACHE_COUNT,
> {
    open spec fn entries(&self) -> Seq<(Key, NeighborResolution)> {
        resolution_entries(*self)
    }
}

/// A map of neighbors: `heapless::LinearMap::new`. The contract claims that it
/// is empty.
#[verifier::external_body]
fn no_neighbors() -> (m: heapless::LinearMap<Key, Neighbor, IFACE_NEIGHBOR_CACHE_COUNT>)
    ensures
        neighbor_entries(m) == Seq::<(Key, Neighbor)>::empty(),
{
    heapless::LinearMap::new()
}

/// A map of resolutions: `heapless::LinearMap::new`. The contract claims that
/// it is empty.
#[verifier::external_body]
fn no_resolutions() -> (m: heapless::LinearMap<
    Key,
    NeighborResolution,
    IFACE_NEIGHBOR_CACHE_COUNT,
>)
    ensures
        resolution_entries(m) == Seq::<(Key, NeighborResolution)>::empty(),
{
    heapless::LinearMap::new()
}

/// What a [`Cache`] holds.
pub struct State {
    /// The neighbors, each under its key.
    pub neighbors: Seq<(Key, Neighbor)>,
    /// The end of the time in which no request for an address is sent.
    pub silent_until: Instant,
    /// The resolutions under way, each under its key.
    pub resolutions: Seq<(Key, NeighborResolution)>,
}

/// Whether a state makes sense.
pub open spec fn valid_state(s: State) -> bool {
    &&& s.neighbors.len() <= IFACE_NEIGHBOR_CACHE_COUNT
    &&& s.resolutions.len() <= IFACE_NEIGHBOR_CACHE_COUNT
    &&& keys_distinct(s.neighbors)
    &&& keys_distinct(s.resolutions)
    &&& forall|i: int| 0 <= i < s.resolutions.len() ==> (#[trigger] s.resolutions[i]).1.wf()
}

impl State {
    /// What the cache holds of an address, expired or not.
    pub open spec fn neighbor(self, address: IpAddress) -> Option<Neighbor> {
        value_of(self.neighbors, key_of(address))
    }

    /// What the cache holds of an address that has not expired.
    pub open spec fn live_neighbor(self, address: IpAddress, now: Instant) -> Option<Neighbor> {
        match self.neighbor(address) {
            Some(n) if now.micros < n.expires_at.micros => Some(n),
            _ => None,
        }
    }

    /// The resolution of an address.
    pub open spec fn resolution(self, address: Ipv6Address) -> Option<NeighborResolution> {
        value_of(self.resolutions, key_of(IpAddress::Ipv6(address)))
    }
}

/// Whether the neighbor at `i` is the one to leave a full cache: the first of
/// those that expire the earliest.
pub open spec fn expires_first(neighbors: Seq<(Key, Neighbor)>, i: int) -> bool {
    &&& 0 <= i < neighbors.len()
    &&& forall|j: int|
        0 <= j < neighbors.len() ==> {
            ||| neighbors[i].1.expires_at.micros < (#[trigger] neighbors[j]).1.expires_at.micros
            ||| neighbors[i].1.expires_at.micros == neighbors[j].1.expires_at.micros && i <= j
        }
}

/// The neighbors after one was set. A new one takes the place of the one that
/// expires first if the cache is full.
pub open spec fn neighbor_set(neighbors: Seq<(Key, Neighbor)>, key: Key, n: Neighbor) -> Seq<
    (Key, Neighbor),
> {
    if has_key(neighbors, key) {
        with_value(neighbors, key, n)
    } else if neighbors.len() < IFACE_NEIGHBOR_CACHE_COUNT {
        neighbors.push((key, n))
    } else {
        let evicted = choose|i: int| expires_first(neighbors, i);
        without_key(neighbors, neighbors[evicted].0).push((key, n))
    }
}

/// The state after an address was mapped: whether the neighbor is a router is
/// kept, and the resolution of the address is complete.
pub open spec fn mapped(
    s: State,
    address: IpAddress,
    hardware_addr: HardwareAddress,
    expires_at: Instant,
) -> State {
    let is_router = s.neighbor(address) matches Some(n) && n.is_router;
    State {
        neighbors: neighbor_set(
            s.neighbors,
            key_of(address),
            Neighbor { hardware_addr, expires_at, is_router },
        ),
        resolutions: match address {
            IpAddress::Ipv6(_) => without_key(s.resolutions, key_of(address)),
            IpAddress::Ipv4(_) => s.resolutions,
        },
        ..s
    }
}

/// The state without the neighbor of an address, if that is of IPv6 and has
/// expired.
pub open spec fn expired_dropped(s: State, address: IpAddress, now: Instant) -> State {
    if address is Ipv6 && s.neighbor(address) is Some && s.live_neighbor(address, now) is None {
        State { neighbors: without_key(s.neighbors, key_of(address)), ..s }
    } else {
        s
    }
}

/// The state after an address was mapped by traffic at `now`. A neighbor of
/// IPv6 that has expired is forgotten first.
pub open spec fn refilled(
    s: State,
    address: IpAddress,
    hardware_addr: HardwareAddress,
    now: Instant,
) -> State {
    mapped(
        expired_dropped(s, address, now),
        address,
        hardware_addr,
        now.after(Duration { micros: 60_000_000 }),
    )
}

/// Whether a packet prolongs the life of a neighbor: it comes from the
/// link-layer address that the cache has, and the neighbor has not expired,
/// which does not matter for IPv4.
pub open spec fn refreshes(
    s: State,
    address: IpAddress,
    hardware_addr: HardwareAddress,
    now: Instant,
) -> bool {
    s.neighbor(address) matches Some(n) && n.hardware_addr == hardware_addr && (address is Ipv4
        || now.micros < n.expires_at.micros)
}

/// The state after a packet of a neighbor was seen.
pub open spec fn traffic_seen(
    s: State,
    address: IpAddress,
    hardware_addr: HardwareAddress,
    now: Instant,
) -> State {
    if refreshes(s, address, hardware_addr, now) {
        State {
            neighbors: with_value(
                s.neighbors,
                key_of(address),
                Neighbor {
                    expires_at: now.after(Duration { micros: 60_000_000 }),
                    ..s.neighbor(address)->0
                },
            ),
            ..s
        }
    } else {
        s
    }
}

/// The state after it was noted whether a neighbor is a router. Nothing is noted
/// of one that is absent or has expired.
pub open spec fn router_noted(
    s: State,
    address: Ipv6Address,
    is_router: bool,
    now: Instant,
) -> State {
    match s.live_neighbor(IpAddress::Ipv6(address), now) {
        Some(n) => State {
            neighbors: with_value(
                s.neighbors,
                key_of(IpAddress::Ipv6(address)),
                Neighbor { is_router, ..n },
            ),
            ..s
        },
        None => s,
    }
}

/// The state after a request for an address was sent.
pub open spec fn request_sent(s: State, now: Instant) -> State {
    State { silent_until: now.after(Duration { micros: 1_000_000 }), ..s }
}

/// The state after everything was forgotten.
pub open spec fn flushed(s: State) -> State {
    State { neighbors: Seq::empty(), resolutions: Seq::empty(), ..s }
}

/// Whether a mapping is new or another one than the cache has.
pub open spec fn mapping_changes(
    s: State,
    address: Ipv6Address,
    hardware_addr: HardwareAddress,
    now: Instant,
) -> bool {
    match s.live_neighbor(IpAddress::Ipv6(address), now) {
        Some(n) => n.hardware_addr != hardware_addr,
        None => true,
    }
}

/// Whether a neighbor that has not expired is a router.
pub open spec fn known_router(s: State, address: Ipv6Address, now: Instant) -> bool {
    s.live_neighbor(IpAddress::Ipv6(address), now) matches Some(n) && n.is_router
}

/// The answer to a lookup.
pub open spec fn answer(s: State, address: IpAddress, now: Instant) -> Answer {
    match s.live_neighbor(address, now) {
        Some(n) => Answer::Found(n.hardware_addr),
        None => if now.micros < s.silent_until.micros {
            Answer::RateLimited
        } else {
            Answer::NotFound
        },
    }
}

/// Whether the resolution at `i` is the one to leave when there is no room: the
/// first of those that have ended, or else of all, whose last probe is the
/// oldest.
pub open spec fn abandoned_first(
    resolutions: Seq<(Key, NeighborResolution)>,
    now: Instant,
    i: int,
) -> bool {
    &&& 0 <= i < resolutions.len()
    &&& forall|j: int|
        0 <= j < resolutions.len() ==> {
            let a = resolutions[i].1;
            let b = (#[trigger] resolutions[j]).1;
            ||| !a.outstanding(now) && b.outstanding(now)
            ||| a.outstanding(now) == b.outstanding(now) && a.last_probe_at.micros
                < b.last_probe_at.micros
            ||| a.outstanding(now) == b.outstanding(now) && a.last_probe_at.micros
                == b.last_probe_at.micros && i <= j
        }
}

/// The resolutions after a probe was sent.
pub open spec fn probe_recorded(
    resolutions: Seq<(Key, NeighborResolution)>,
    key: Key,
    now: Instant,
) -> Seq<(Key, NeighborResolution)> {
    match value_of(resolutions, key) {
        Some(r) => with_value(resolutions, key, r.probed(now)),
        None => if resolutions.len() < IFACE_NEIGHBOR_CACHE_COUNT {
            resolutions.push((key, NeighborResolution::first(now)))
        } else {
            let victim = choose|i: int| abandoned_first(resolutions, now, i);
            without_key(resolutions, resolutions[victim].0).push(
                (key, NeighborResolution::first(now)),
            )
        },
    }
}

/// A neighbor cache.
#[derive(Debug)]
pub struct Cache {
    storage: heapless::LinearMap<Key, Neighbor, IFACE_NEIGHBOR_CACHE_COUNT>,
    silent_until: Instant,
    neighbor_resolution: heapless::LinearMap<Key, NeighborResolution, IFACE_NEIGHBOR_CACHE_COUNT>,
}

impl View for Cache {
    type V = State;

    closed spec fn view(&self) -> State {
        State {
            neighbors: self.storage.entries(),
            silent_until: self.silent_until,
            resolutions: self.neighbor_resolution.entries(),
        }
    }
}

impl Cache {
    /// Whether the state makes sense.
    pub open spec fn wf(&self) -> bool {
        valid_state(self@)
    }

    /// The shortest time between two requests for an address: one second.
    pub fn silent_time() -> (r: Duration)
        ensures
            r.micros == 1_000_000,
    {
        Duration::from_millis(1_000)
    }

    /// How long a neighbor is kept: one minute.
    pub fn entry_lifetime() -> (r: Duration)
        ensures
            r.micros == 60_000_000,
    {
        Duration::from_millis(60_000)
    }

    /// Creates an empty cache.
    pub fn new() -> (r: Cache)
        ensures
            r.wf(),
            r@ == (State {
                neighbors: Seq::empty(),
                silent_until: Instant { micros: 0 },
                resolutions: Seq::empty(),
            }),
    {
        Cache {
            storage: no_neighbors(),
            silent_until: Instant::zero(),
            neighbor_resolution: no_resolutions(),
        }
    }

    /// The addresses of the neighbors, expired or not, in the order in which they
    /// are stored.
    pub fn addresses(&self) -> (r: Vec<IpAddress>)
        ensures
            r@ == self@.neighbors.map_values(|e: (Key, Neighbor)| address_of(e.0)),
    {
        let entries = map_entries(&self.storage);
        let mut r: Vec<IpAddress> = Vec::new();
        let mut i: usize = 0;
        while i < entries.len()
            invariant
                i <= entries@.len(),
                entries@ == self@.neighbors,
                r@.len() == i,
                forall|k: int| 0 <= k < i ==> #[trigger] r@[k] == address_of(entries@[k].0),
            decreases entries@.len() - i,
        {
            let (version, bits) = entries[i].0;
            if version == 4 {
                r.push(IpAddress::Ipv4(Ipv4Address { bits: (bits % 0x1_0000_0000) as u32 }));
            } else {
                r.push(IpAddress::Ipv6(Ipv6Address { bits }));
            }
            i = i + 1;
        }
        assert(r@ =~= self@.neighbors.map_values(|e: (Key, Neighbor)| address_of(e.0)));
        r
    }

    /// Prolongs the life of a neighbor that sent a packet from the link-layer
    /// address that the cache has of it. A neighbor of IPv6 that has expired
    /// stays so.
    pub fn reset_expiry_if_existing(
        &mut self,
        protocol_addr: IpAddress,
        source_hardware_addr: HardwareAddress,
        timestamp: Instant,
    )
        requires
            old(self).wf(),
            refreshes(old(self)@, protocol_addr, source_hardware_addr, timestamp)
                ==> timestamp.can_add(Duration { micros: 60_000_000 }),
        ensures
            final(self).wf(),
            final(self)@ == traffic_seen(
                old(self)@,
                protocol_addr,
                source_hardware_addr,
                timestamp,
            ),
    {
        let key = address_key(&protocol_addr);
        let neighbor = match map_get(&self.storage, &key) {
            Some(n) => *n,
            None => {
                return;
            },
        };
        let is_current = match protocol_addr {
            IpAddress::Ipv6(_) => timestamp.micros < neighbor.expires_at.micros,
            IpAddress::Ipv4(_) => true,
        };
        if source_hardware_addr == neighbor.hardware_addr && is_current {
            let updated = Neighbor { expires_at: timestamp + Cache::entry_lifetime(), ..neighbor };
            proof {
                lemma_with_value(self@.neighbors, key, updated);
            }
            if let Some(slot) = map_get_mut(&mut self.storage, &key) {
                *slot = updated;
            }
        }
    }

    /// Maps an address that was learned from traffic.
    pub fn fill(
        &mut self,
        protocol_addr: IpAddress,
        hardware_addr: HardwareAddress,
        timestamp: Instant,
    )
        requires
            old(self).wf(),
            protocol_addr.unicast(),
            hardware_addr.unicast(),
            timestamp.can_add(Duration { micros: 60_000_000 }),
        ensures
            final(self).wf(),
            final(self)@ == refilled(old(self)@, protocol_addr, hardware_addr, timestamp),
            final(self)@.neighbor(protocol_addr) matches Some(n) && n.hardware_addr
                == hardware_addr && n.expires_at == timestamp.after(
                Duration { micros: 60_000_000 },
            ),
    {
        let expires_at = timestamp + Cache::entry_lifetime();
        let key = address_key(&protocol_addr);
        if let IpAddress::Ipv6(_) = protocol_addr {
            let is_expired = match map_get(&self.storage, &key) {
                Some(n) => timestamp.micros >= n.expires_at.micros,
                None => false,
            };
            if is_expired {
                proof {
                    lemma_without_key(self@.neighbors, key);
                }
                let _ = map_remove(&mut self.storage, &key);
            }
        }
        self.fill_with_expiration(protocol_addr, hardware_addr, expires_at);
    }

    /// Maps an address until a given time.
    pub fn fill_with_expiration(
        &mut self,
        protocol_addr: IpAddress,
        hardware_addr: HardwareAddress,
        expires_at: Instant,
    )
        requires
            old(self).wf(),
            protocol_addr.unicast(),
            hardware_addr.unicast(),
        ensures
            final(self).wf(),
            final(self)@ == mapped(old(self)@, protocol_addr, hardware_addr, expires_at),
            final(self)@.neighbor(protocol_addr) matches Some(n) && n.hardware_addr
                == hardware_addr && n.expires_at == expires_at,
    {
        let ghost start = self@;
        let key = address_key(&protocol_addr);
        let is_router = match map_get(&self.storage, &key) {
            Some(n) => n.is_router,
            None => false,
        };
        let neighbor = Neighbor { hardware_addr, expires_at, is_router };
        proof {
            lemma_neighbor_set(start.neighbors, key, neighbor);
        }
        match map_insert(&mut self.storage, key, neighbor) {
            Ok(_) => {},
            Err(_) => {
                // The cache is full.
                let entries = map_entries(&self.storage);
                let victim = first_to_expire(&entries);
                let evicted = entries[victim].0;
                proof {
                    lemma_without_key(start.neighbors, evicted);
                    assert(start.neighbors[victim as int].0 == evicted);
                    assert(has_key(start.neighbors, evicted));
                    assert(value_of(without_key(start.neighbors, evicted), key) is None);
                }
                let _ = map_remove(&mut self.storage, &evicted);
                let _ = map_insert(&mut self.storage, key, neighbor);
            },
        }
        assert(self@.neighbors == neighbor_set(start.neighbors, key, neighbor));
        if let IpAddress::Ipv6(_) = protocol_addr {
            proof {
                lemma_without_key(self@.resolutions, key);
            }
            let ghost before = self@.resolutions;
            let _ = map_remove(&mut self.neighbor_resolution, &key);
            proof {
                lemma_resolutions_within(before, self@.resolutions);
            }
        }
    }

    /// Maps an address that a Neighbor Discovery message gave, and tells whether
    /// that is new or another one than before.
    fn fill_ndisc_mapping(
        &mut self,
        protocol_addr: Ipv6Address,
        hardware_addr: HardwareAddress,
        timestamp: Instant,
    ) -> (r: bool)
        requires
            old(self).wf(),
            protocol_addr.unicast(),
            hardware_addr.unicast(),
            timestamp.can_add(Duration { micros: 60_000_000 }),
        ensures
            final(self).wf(),
            final(self)@ == refilled(
                old(self)@,
                IpAddress::Ipv6(protocol_addr),
                hardware_addr,
                timestamp,
            ),
            r == mapping_changes(old(self)@, protocol_addr, hardware_addr, timestamp),
    {
        let address = IpAddress::Ipv6(protocol_addr);
        let changed = match map_get(&self.storage, &address_key(&address)) {
            Some(n) => timestamp.micros >= n.expires_at.micros || !(n.hardware_addr
                == hardware_addr),
            None => true,
        };
        self.fill(address, hardware_addr, timestamp);
        changed
    }

    /// Maps the address of a router that sent an advertisement, and tells
    /// whether that is new or another one than before.
    pub fn fill_from_router_advertisement(
        &mut self,
        protocol_addr: Ipv6Address,
        hardware_addr: HardwareAddress,
        timestamp: Instant,
    ) -> (r: bool)
        requires
            old(self).wf(),
            protocol_addr.unicast(),
            hardware_addr.unicast(),
            timestamp.can_add(Duration { micros: 60_000_000 }),
        ensures
            final(self).wf(),
            ({
                let address = IpAddress::Ipv6(protocol_addr);
                let s = refilled(old(self)@, address, hardware_addr, timestamp);
                &&& s.live_neighbor(address, timestamp) is Some
                &&& final(self)@ == router_noted(s, protocol_addr, true, timestamp)
            }),
            r == mapping_changes(old(self)@, protocol_addr, hardware_addr, timestamp),
    {
        proof {
            law_refilled_neighbor_is_found(
                self@,
                IpAddress::Ipv6(protocol_addr),
                hardware_addr,
                timestamp,
            );
        }
        let changed = self.fill_ndisc_mapping(protocol_addr, hardware_addr, timestamp);
        let _ = self.set_router_if_live(&protocol_addr, true, timestamp);
        changed
    }

    /// Maps the address of a neighbor that sent a solicitation, and tells
    /// whether that is new or another one than before.
    pub fn fill_from_neighbor_solicitation(
        &mut self,
        protocol_addr: Ipv6Address,
        hardware_addr: HardwareAddress,
        timestamp: Instant,
    ) -> (r: bool)
        requires
            old(self).wf(),
            protocol_addr.unicast(),
            hardware_addr.unicast(),
            timestamp.can_add(Duration { micros: 60_000_000 }),
        ensures
            final(self).wf(),
            final(self)@ == refilled(
                old(self)@,
                IpAddress::Ipv6(protocol_addr),
                hardware_addr,
                timestamp,
            ),
            r == mapping_changes(old(self)@, protocol_addr, hardware_addr, timestamp),
    {
        self.fill_ndisc_mapping(protocol_addr, hardware_addr, timestamp)
    }

    /// Sets whether a neighbor is a router, and returns what the cache had of
    /// that before, or `None` if the neighbor is absent or has expired.
    pub fn set_router_if_live(
        &mut self,
        protocol_addr: &Ipv6Address,
        is_router: bool,
        timestamp: Instant,
    ) -> (r: Option<bool>)
        requires
            old(self).wf(),
        ensures
            final(self).wf(),
            r == match old(self)@.live_neighbor(IpAddress::Ipv6(*protocol_addr), timestamp) {
                Some(n) => Some(n.is_router),
                None => None,
            },
            r is Some <==> answer(old(self)@, IpAddress::Ipv6(*protocol_addr), timestamp) is Found,
            r matches Some(was) ==> was == known_router(old(self)@, *protocol_addr, timestamp),
            final(self)@ == router_noted(old(self)@, *protocol_addr, is_router, timestamp),
    {
        let key = address_key(&IpAddress::Ipv6(*protocol_addr));
        let neighbor = match map_get(&self.storage, &key) {
            Some(n) => *n,
            None => {
                return None;
            },
        };
        if timestamp.micros >= neighbor.expires_at.micros {
            return None;
        }
        let updated = Neighbor { is_router, ..neighbor };
        proof {
            lemma_with_value(self@.neighbors, key, updated);
        }
        if let Some(slot) = map_get_mut(&mut self.storage, &key) {
            *slot = updated;
        }
        Some(neighbor.is_router)
    }

    /// Whether a neighbor that has not expired is a router.
    pub fn is_router(&self, protocol_addr: &Ipv6Address, timestamp: Instant) -> (r: bool)
        ensures
            r == known_router(self@, *protocol_addr, timestamp),
    {
        match map_get(&self.storage, &address_key(&IpAddress::Ipv6(*protocol_addr))) {
            Some(n) => timestamp.micros < n.expires_at.micros && n.is_router,
            None => false,
        }
    }

    /// Takes note that a solicitation for an address was sent.
    pub fn record_neighbor_probe(&mut self, address: Ipv6Address, now: Instant)
        requires
            old(self).wf(),
            now.can_add(Duration { micros: 3_000_000 }),
        ensures
            final(self).wf(),
            final(self)@ == (State {
                resolutions: probe_recorded(
                    old(self)@.resolutions,
                    key_of(IpAddress::Ipv6(address)),
                    now,
                ),
                ..old(self)@
            }),
            final(self)@.resolution(address) == Some(
                match old(self)@.resolution(address) {
                    Some(r) => r.probed(now),
                    None => NeighborResolution::first(now),
                },
            ),
    {
        let ghost start = self@.resolutions;
        let key = address_key(&IpAddress::Ipv6(address));
        let known = match map_get(&self.neighbor_resolution, &key) {
            Some(r) => Some(*r),
            None => None,
        };
        if let Some(resolution) = known {
            let mut updated = resolution;
            proof {
                lemma_key_index(start, key);
            }
            updated.record_probe(now);
            proof {
                lemma_with_value(start, key, updated);
            }
            if let Some(slot) = map_get_mut(&mut self.neighbor_resolution, &key) {
                *slot = updated;
            }
            return;
        }
        let resolution = NeighborResolution::new(now);
        proof {
            lemma_push_key(start, key, resolution);
        }
        match map_insert(&mut self.neighbor_resolution, key, resolution) {
            Ok(_) => {},
            Err(_) => {
                let entries = map_entries(&self.neighbor_resolution);
                let victim = first_to_abandon(&entries, now);
                let abandoned = entries[victim].0;
                proof {
                    lemma_without_key(start, abandoned);
                    assert(start[victim as int].0 == abandoned);
                    assert(has_key(start, abandoned));
                    assert(value_of(without_key(start, abandoned), key) is None);
                    lemma_resolutions_within(start, without_key(start, abandoned));
                    lemma_push_key(without_key(start, abandoned), key, resolution);
                }
                let _ = map_remove(&mut self.neighbor_resolution, &abandoned);
                let _ = map_insert(&mut self.neighbor_resolution, key, resolution);
            },
        }
    }

    /// Whether the resolution of an address is under way.
    pub fn neighbor_probe_outstanding(&self, address: &Ipv6Address, now: Instant) -> (r: bool)
        requires
            self.wf(),
        ensures
            r == (self@.resolution(*address) matches Some(x) && x.outstanding(now)),
    {
        let key = address_key(&IpAddress::Ipv6(*address));
        match map_get(&self.neighbor_resolution, &key) {
            Some(x) => {
                proof {
                    lemma_key_index(self@.resolutions, key);
                }
                x.is_outstanding(now)
            },
            None => false,
        }
    }

    /// Looks up the link-layer address of a neighbor.
    pub fn lookup(&self, protocol_addr: &IpAddress, timestamp: Instant) -> (r: Answer)
        requires
            protocol_addr.unicast(),
        ensures
            r == answer(self@, *protocol_addr, timestamp),
    {
        if let Some(n) = map_get(&self.storage, &address_key(protocol_addr)) {
            if timestamp.micros < n.expires_at.micros {
                return Answer::Found(n.hardware_addr);
            }
        }
        if timestamp.micros < self.silent_until.micros {
            Answer::RateLimited
        } else {
            Answer::NotFound
        }
    }

    /// Takes note that a request for an address was sent.
    pub fn limit_rate(&mut self, timestamp: Instant)
        requires
            timestamp.can_add(Duration { micros: 1_000_000 }),
        ensures
            final(self)@ == request_sent(old(self)@, timestamp),
    {
        self.silent_until = timestamp + Cache::silent_time();
    }

    /// Forgets every neighbor and every resolution.
    pub fn flush(&mut self)
        ensures
            final(self).wf(),
            final(self)@ == flushed(old(self)@),
    {
        map_clear(&mut self.storage);
        map_clear(&mut self.neighbor_resolution);
        assert(self@.neighbors =~= Seq::empty());
        assert(self@.resolutions =~= Seq::empty());
    }
}

/// The position of the neighbor to leave a full cache.
fn first_to_expire(entries: &Vec<(Key, Neighbor)>) -> (r: usize)
    requires
        entries@.len() > 0,
    ensures
        r < entries@.len(),
        expires_first(entries@, r as int),
        r == (choose|i: int| expires_first(entries@, i)),
{
    let mut first: usize = 0;
    let mut i: usize = 1;
    while i < entries.len()
        invariant
            1 <= i <= entries@.len(),
            first < i,
            forall|j: int|
                0 <= j < i ==> {
                    ||| entries@[first as int].1.expires_at.micros < (
                    #[trigger] entries@[j]).1.expires_at.micros
                    ||| entries@[first as int].1.expires_at.micros
                        == entries@[j].1.expires_at.micros && first <= j
                },
        decreases entries@.len() - i,
    {
        if entries[i].1.expires_at.micros < entries[first].1.expires_at.micros {
            first = i;
        }
        i = i + 1;
    }
    proof {
        assert(expires_first(entries@, first as int));
        let c = choose|i: int| expires_first(entries@, i);
        assert(expires_first(entries@, c));
        let _ = entries@[c].1;
        assert(entries@[first as int].1.expires_at.micros <= entries@[c].1.expires_at.micros);
        assert(entries@[c].1.expires_at.micros <= entries@[first as int].1.expires_at.micros);
    }
    first
}

/// The position of the resolution to leave when there is no room.
fn first_to_abandon(entries: &Vec<(Key, NeighborResolution)>, now: Instant) -> (r: usize)
    requires
        entries@.len() > 0,
        forall|i: int| 0 <= i < entries@.len() ==> (#[trigger] entries@[i]).1.wf(),
    ensures
        r < entries@.len(),
        abandoned_first(entries@, now, r as int),
        r == (choose|i: int| abandoned_first(entries@, now, i)),
{
    let mut first: usize = 0;
    let mut i: usize = 1;
    while i < entries.len()
        invariant
            1 <= i <= entries@.len(),
            first < i,
            forall|i: int| 0 <= i < entries@.len() ==> (#[trigger] entries@[i]).1.wf(),
            abandoned_first(entries@.take(i as int), now, first as int),
        decreases entries@.len() - i,
    {
        let ghost some = entries@.take(i as int);
        let ghost more = entries@.take(i + 1);
        assert(forall|j: int| 0 <= j < i ==> some[j] == #[trigger] more[j]);
        assert(more[i as int] == entries@[i as int]);
        let a = entries[i].1;
        let b = entries[first].1;
        let a_outstanding = a.is_outstanding(now);
        let b_outstanding = b.is_outstanding(now);
        if !a_outstanding && b_outstanding || a_outstanding == b_outstanding
            && a.last_probe_at.micros < b.last_probe_at.micros {
            first = i;
        }
        assert(abandoned_first(more, now, first as int));
        i = i + 1;
    }
    proof {
        assert(entries@.take(i as int) =~= entries@);
        let c = choose|i: int| abandoned_first(entries@, now, i);
        assert(abandoned_first(entries@, now, c));
        let x = entries@[first as int].1;
        let y = entries@[c].1;
        assert(x.outstanding(now) == y.outstanding(now));
        assert(x.last_probe_at.micros == y.last_probe_at.micros);
    }
    first
}

/// Resolutions that were there before make sense.
proof fn lemma_resolutions_within(
    before: Seq<(Key, NeighborResolution)>,
    after: Seq<(Key, NeighborResolution)>,
)
    requires
        forall|i: int| 0 <= i < before.len() ==> (#[trigger] before[i]).1.wf(),
        forall|i: int| 0 <= i < after.len() ==> before.contains(#[trigger] after[i]),
    ensures
        forall|i: int| 0 <= i < after.len() ==> (#[trigger] after[i]).1.wf(),
{
    assert forall|i: int| 0 <= i < after.len() implies (#[trigger] after[i]).1.wf() by {
        let j = choose|j: int| 0 <= j < before.len() && before[j] == after[i];
        assert(before.contains(after[i]));
        assert(before[j].1.wf());
    }
}

/// Some neighbor is the first to expire.
pub(crate) proof fn lemma_expires_first(neighbors: Seq<(Key, Neighbor)>)
    requires
        neighbors.len() > 0,
    ensures
        expires_first(neighbors, choose|i: int| expires_first(neighbors, i)),
    decreases neighbors.len(),
{
    let n = neighbors.len() - 1;
    if n == 0 {
        assert(expires_first(neighbors, 0));
    } else {
        let rest = neighbors.drop_last();
        lemma_expires_first(rest);
        let i = choose|i: int| expires_first(rest, i);
        assert forall|j: int| 0 <= j < n implies rest[j] == #[trigger] neighbors[j] by {}
        if neighbors[n].1.expires_at.micros < neighbors[i].1.expires_at.micros {
            assert(expires_first(neighbors, n));
        } else {
            assert(expires_first(neighbors, i));
        }
    }
}

/// Setting a neighbor keeps the keys distinct. It stands under its key then,
/// and of the others at most one has left: none if there was room.
pub(crate) proof fn lemma_neighbor_set(neighbors: Seq<(Key, Neighbor)>, key: Key, n: Neighbor)
    requires
        keys_distinct(neighbors),
        neighbors.len() <= IFACE_NEIGHBOR_CACHE_COUNT,
    ensures
        keys_distinct(neighbor_set(neighbors, key, n)),
        neighbor_set(neighbors, key, n).len() <= IFACE_NEIGHBOR_CACHE_COUNT,
        value_of(neighbor_set(neighbors, key, n), key) == Some(n),
        has_key(neighbors, key) || neighbors.len() < IFACE_NEIGHBOR_CACHE_COUNT ==> forall|m: Key|
            m != key ==> #[trigger] value_of(neighbor_set(neighbors, key, n), m) == value_of(
                neighbors,
                m,
            ),
        !has_key(neighbors, key) && neighbors.len() == IFACE_NEIGHBOR_CACHE_COUNT ==> ({
            let evicted = neighbors[choose|i: int| expires_first(neighbors, i)].0;
            forall|m: Key|
                m != key ==> #[trigger] value_of(neighbor_set(neighbors, key, n), m) == if m
                    == evicted {
                    None
                } else {
                    value_of(neighbors, m)
                }
        }),
{
    if has_key(neighbors, key) {
        lemma_with_value(neighbors, key, n);
    } else if neighbors.len() < IFACE_NEIGHBOR_CACHE_COUNT {
        lemma_push_key(neighbors, key, n);
    } else {
        lemma_expires_first(neighbors);
        let evicted = neighbors[choose|i: int| expires_first(neighbors, i)].0;
        lemma_without_key(neighbors, evicted);
        assert(has_key(neighbors, evicted));
        assert(value_of(without_key(neighbors, evicted), key) is None);
        lemma_push_key(without_key(neighbors, evicted), key, n);
    }
}

/// A neighbor that was just mapped is found.
pub proof fn law_refilled_neighbor_is_found(
    s: State,
    address: IpAddress,
    hardware_addr: HardwareAddress,
    now: Instant,
)
    requires
        valid_state(s),
        now.can_add(Duration { micros: 60_000_000 }),
    ensures
        refilled(s, address, hardware_addr, now).live_neighbor(address, now) matches Some(n)
            && n.hardware_addr == hardware_addr,
{
    let t = expired_dropped(s, address, now);
    lemma_without_key(s.neighbors, key_of(address));
    let is_router = t.neighbor(address) matches Some(n) && n.is_router;
    let n = Neighbor {
        hardware_addr,
        expires_at: now.after(Duration { micros: 60_000_000 }),
        is_router,
    };
    lemma_neighbor_set(t.neighbors, key_of(address), n);
}

} // verus!
