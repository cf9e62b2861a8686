use ipv6_nd::config::IFACE_NEIGHBOR_CACHE_COUNT;
use ipv6_nd::iface::neighbor::{Answer, Cache};
use ipv6_nd::time::{Duration, Instant};
use ipv6_nd::wire::hwaddr::{EthernetAddress, HardwareAddress};
use ipv6_nd::wire::ip::{IpAddress, Ipv4Address, Ipv6Address};

const HADDR_A: HardwareAddress = HardwareAddress::Ethernet(EthernetAddress([0, 0, 0, 0, 0, 1]));
const HADDR_B: HardwareAddress = HardwareAddress::Ethernet(EthernetAddress([0, 0, 0, 0, 0, 2]));
const HADDR_C: HardwareAddress = HardwareAddress::Ethernet(EthernetAddress([0, 0, 0, 0, 0, 3]));
const HADDR_D: HardwareAddress = HardwareAddress::Ethernet(EthernetAddress([0, 0, 0, 0, 0, 4]));

fn mock(n: u16) -> Ipv6Address {
    Ipv6Address::new(0xfe80, 0, 0, 0, 0, 0, 0, n)
}

fn ip(n: u16) -> IpAddress {
    mock(n).into()
}

#[test]
fn neighbor_test_fill() {
    let mut cache = Cache::new();

    assert!(!cache.lookup(&ip(1), Instant::from_millis(0)).found());
    assert!(!cache.lookup(&ip(2), Instant::from_millis(0)).found());

    cache.fill(ip(1), HADDR_A, Instant::from_millis(0));
    assert_eq!(
        cache.lookup(&ip(1), Instant::from_millis(0)),
        Answer::Found(HADDR_A)
    );
    assert!(!cache.lookup(&ip(2), Instant::from_millis(0)).found());
    assert!(!cache
        .lookup(
            &ip(1),
            Instant::from_millis(0) + Cache::entry_lifetime() * 2
        )
        .found());

    cache.fill(ip(1), HADDR_A, Instant::from_millis(0));
    assert!(!cache.lookup(&ip(2), Instant::from_millis(0)).found());
}

#[test]
fn test_ndisc_mapping_reports_changes_and_preserves_is_router() {
    let mut cache = Cache::new();
    let address = mock(1);
    let t0 = Instant::from_secs(10);

    assert!(cache.fill_from_neighbor_solicitation(address, HADDR_A, t0));
    assert!(!cache.is_router(&address, t0));
    assert!(!cache.fill_from_neighbor_solicitation(address, HADDR_A, t0));

    assert_eq!(cache.set_router_if_live(&address, true, t0), Some(false));
    assert!(cache.is_router(&address, t0));

    assert!(cache.fill_from_neighbor_solicitation(address, HADDR_B, t0));
    assert!(cache.is_router(&address, t0));
    cache.fill(address.into(), HADDR_C, t0);
    assert!(cache.is_router(&address, t0));

    assert!(!cache.fill_from_router_advertisement(address, HADDR_C, t0));
    assert!(cache.fill_from_router_advertisement(address, HADDR_D, t0));
    assert!(cache.is_router(&address, t0));

    assert_eq!(cache.set_router_if_live(&address, false, t0), Some(true));
    assert!(!cache.is_router(&address, t0));
}

#[test]
fn test_expired_neighbor_has_no_is_router_state() {
    let mut cache = Cache::new();
    let address = mock(1);
    let t0 = Instant::from_secs(10);
    let expired_at = t0 + Cache::entry_lifetime();

    assert!(cache.fill_from_router_advertisement(address, HADDR_A, t0));
    assert!(cache.is_router(&address, t0));
    assert!(!cache.is_router(&address, expired_at));
    assert_eq!(cache.set_router_if_live(&address, true, expired_at), None);

    cache.reset_expiry_if_existing(address.into(), HADDR_A, expired_at);
    assert_eq!(cache.lookup(&address.into(), expired_at), Answer::NotFound);

    assert!(cache.fill_from_neighbor_solicitation(address, HADDR_A, expired_at));
    assert!(!cache.is_router(&address, expired_at));
    assert_eq!(
        cache.set_router_if_live(&address, true, expired_at),
        Some(false)
    );
    assert!(cache.is_router(&address, expired_at));
}

#[test]
fn test_ipv6_expiry_rules_preserve_ipv4_cache_behavior() {
    let mut cache = Cache::new();
    let first = Ipv4Address::new(192, 0, 2, 1);
    let second = Ipv4Address::new(192, 0, 2, 2);
    let t0 = Instant::from_secs(10);
    let expired_at = t0 + Cache::entry_lifetime();

    cache.fill(first.into(), HADDR_A, t0);
    cache.reset_expiry_if_existing(first.into(), HADDR_A, expired_at);
    assert_eq!(
        cache.lookup(&first.into(), expired_at),
        Answer::Found(HADDR_A)
    );

    let mut cache = Cache::new();
    cache.fill(first.into(), HADDR_A, t0);
    cache.fill(second.into(), HADDR_B, t0);
    cache.fill(first.into(), HADDR_C, expired_at);

    // An IPv4 entry is updated in place.
    assert_eq!(cache.addresses().first().copied(), Some(first.into()));
}

#[test]
fn test_outbound_ndisc_probe_windows() {
    let mut cache = Cache::new();
    let t0 = Instant::from_secs(10);
    let t1 = t0 + Cache::silent_time();
    let t2 = t1 + Cache::silent_time();
    let t3 = t2 + Cache::silent_time();

    let mut abandoned_cache = Cache::new();
    abandoned_cache.record_neighbor_probe(mock(4), t0);
    assert!(abandoned_cache.neighbor_probe_outstanding(&mock(4), t2));
    assert!(!abandoned_cache.neighbor_probe_outstanding(&mock(4), t3));

    cache.record_neighbor_probe(mock(1), t0);
    assert!(cache.neighbor_probe_outstanding(&mock(1), t0));
    assert!(!cache.neighbor_probe_outstanding(&mock(2), t0));
    assert!(cache.neighbor_probe_outstanding(&mock(1), t1));

    assert!(IFACE_NEIGHBOR_CACHE_COUNT >= 2);
    cache.record_neighbor_probe(mock(2), t0);
    assert!(cache.neighbor_probe_outstanding(&mock(1), t0));
    assert!(cache.neighbor_probe_outstanding(&mock(2), t0));
    cache.fill(ip(2), HADDR_A, t0);
    assert!(!cache.neighbor_probe_outstanding(&mock(2), t0));
    assert!(cache.neighbor_probe_outstanding(&mock(1), t0));

    cache.record_neighbor_probe(mock(1), t1);
    assert!(cache.neighbor_probe_outstanding(&mock(1), t2));
    cache.record_neighbor_probe(mock(1), t2);
    assert!(cache.neighbor_probe_outstanding(&mock(1), t2 + Duration::from_millis(999)));
    assert!(!cache.neighbor_probe_outstanding(&mock(1), t3));

    cache.record_neighbor_probe(mock(1), t3);
    assert!(cache.neighbor_probe_outstanding(&mock(1), t3));
}

#[test]
fn test_expire() {
    let mut cache = Cache::new();

    cache.fill(ip(1), HADDR_A, Instant::from_millis(0));
    assert_eq!(
        cache.lookup(&ip(1), Instant::from_millis(0)),
        Answer::Found(HADDR_A)
    );
    assert!(!cache
        .lookup(
            &ip(1),
            Instant::from_millis(0) + Cache::entry_lifetime() * 2
        )
        .found());
}

#[test]
fn test_replace() {
    let mut cache = Cache::new();

    cache.fill(ip(1), HADDR_A, Instant::from_millis(0));
    assert_eq!(
        cache.lookup(&ip(1), Instant::from_millis(0)),
        Answer::Found(HADDR_A)
    );
    cache.fill(ip(1), HADDR_B, Instant::from_millis(0));
    assert_eq!(
        cache.lookup(&ip(1), Instant::from_millis(0)),
        Answer::Found(HADDR_B)
    );
}

#[test]
fn test_evict() {
    let mut cache = Cache::new();

    cache.fill(ip(1), HADDR_A, Instant::from_millis(100));
    cache.fill(ip(2), HADDR_B, Instant::from_millis(50));
    cache.fill(ip(3), HADDR_C, Instant::from_millis(200));
    assert_eq!(
        cache.lookup(&ip(2), Instant::from_millis(1000)),
        Answer::Found(HADDR_B)
    );
    assert!(!cache.lookup(&ip(4), Instant::from_millis(1000)).found());

    cache.fill(ip(4), HADDR_D, Instant::from_millis(300));
    assert!(!cache.lookup(&ip(2), Instant::from_millis(1000)).found());
    assert_eq!(
        cache.lookup(&ip(4), Instant::from_millis(1000)),
        Answer::Found(HADDR_D)
    );
}

#[test]
fn test_hush() {
    let mut cache = Cache::new();

    assert_eq!(
        cache.lookup(&ip(1), Instant::from_millis(0)),
        Answer::NotFound
    );

    cache.limit_rate(Instant::from_millis(0));
    assert_eq!(
        cache.lookup(&ip(1), Instant::from_millis(100)),
        Answer::RateLimited
    );
    assert_eq!(
        cache.lookup(&ip(1), Instant::from_millis(2000)),
        Answer::NotFound
    );
}

#[test]
fn test_flush() {
    let mut cache = Cache::new();

    cache.fill(ip(1), HADDR_A, Instant::from_millis(0));
    assert_eq!(
        cache.lookup(&ip(1), Instant::from_millis(0)),
        Answer::Found(HADDR_A)
    );
    assert!(!cache.lookup(&ip(2), Instant::from_millis(0)).found());

    cache.flush();
    assert!(!cache.lookup(&ip(1), Instant::from_millis(0)).found());
    assert!(!cache.lookup(&ip(1), Instant::from_millis(0)).found());
}

#[test]
fn full_cache_keeps_later_expiring_neighbors() {
    let mut cache = Cache::new();
    cache.fill_with_expiration(ip(1), HADDR_A, Instant::from_secs(30));
    cache.fill_with_expiration(ip(2), HADDR_B, Instant::from_secs(10));
    cache.fill_with_expiration(ip(3), HADDR_C, Instant::from_secs(10));
    cache.fill_with_expiration(ip(4), HADDR_D, Instant::from_secs(20));

    // Of the two that expire first, the one that was stored first leaves, and
    // the last one moves up to its place.
    assert_eq!(cache.addresses(), vec![ip(1), ip(3), ip(4)]);
    let now = Instant::from_secs(1);
    assert_eq!(cache.lookup(&ip(1), now), Answer::Found(HADDR_A));
    assert_eq!(cache.lookup(&ip(2), now), Answer::NotFound);
    assert_eq!(cache.lookup(&ip(3), now), Answer::Found(HADDR_C));
    assert_eq!(cache.lookup(&ip(4), now), Answer::Found(HADDR_D));
}

#[test]
fn refresh_needs_the_same_hardware_address() {
    let mut cache = Cache::new();
    cache.fill(ip(1), HADDR_A, Instant::from_secs(0));
    cache.reset_expiry_if_existing(ip(1), HADDR_B, Instant::from_secs(30));
    assert_eq!(
        cache.lookup(&ip(1), Instant::from_secs(60)),
        Answer::NotFound
    );
    cache.reset_expiry_if_existing(ip(1), HADDR_A, Instant::from_secs(30));
    assert_eq!(
        cache.lookup(&ip(1), Instant::from_secs(89)),
        Answer::Found(HADDR_A)
    );
    assert_eq!(
        cache.lookup(&ip(1), Instant::from_secs(90)),
        Answer::NotFound
    );
    // Of a neighbor that is not in the cache, nothing is kept.
    cache.reset_expiry_if_existing(ip(2), HADDR_A, Instant::from_secs(30));
    assert_eq!(cache.addresses(), vec![ip(1)]);
}

#[test]
fn full_resolution_table_forgets_ended_resolutions_first() {
    let mut cache = Cache::new();
    cache.record_neighbor_probe(mock(1), Instant::from_secs(5));
    cache.record_neighbor_probe(mock(2), Instant::from_secs(1));
    cache.record_neighbor_probe(mock(3), Instant::from_secs(6));
    let now = Instant::from_secs(7);
    assert!(!cache.neighbor_probe_outstanding(&mock(2), now));
    cache.record_neighbor_probe(mock(4), now);
    assert!(cache.neighbor_probe_outstanding(&mock(1), now));
    assert!(cache.neighbor_probe_outstanding(&mock(3), now));
    assert!(cache.neighbor_probe_outstanding(&mock(4), now));

    // None has ended: the oldest leaves.
    cache.record_neighbor_probe(mock(5), now);
    assert!(!cache.neighbor_probe_outstanding(&mock(1), now));
    assert!(cache.neighbor_probe_outstanding(&mock(3), now));
    assert!(cache.neighbor_probe_outstanding(&mock(4), now));
    assert!(cache.neighbor_probe_outstanding(&mock(5), now));
}

#[test]
fn an_address_of_one_version_is_not_found_under_the_other() {
    let mut cache = Cache::new();
    cache.fill(
        Ipv4Address::new(0, 0, 1, 1).into(),
        HADDR_A,
        Instant::from_secs(0),
    );
    let same_bits = IpAddress::Ipv6(Ipv6Address { bits: 0x0101 });
    assert_eq!(
        cache.lookup(&same_bits, Instant::from_secs(0)),
        Answer::NotFound
    );
}

#[test]
fn unicast_addresses() {
    assert!(HADDR_A.is_unicast());
    assert!(!HardwareAddress::Ethernet(EthernetAddress([1, 0, 0x5e, 0, 0, 1])).is_unicast());
    assert!(!HardwareAddress::Ethernet(EthernetAddress([0xff; 6])).is_unicast());
    assert!(!HardwareAddress::Ip.is_unicast());
    assert!(ip(1).is_unicast());
    assert!(!IpAddress::Ipv6(Ipv6Address::new(0xff02, 0, 0, 0, 0, 0, 0, 1)).is_unicast());
    assert!(!IpAddress::Ipv6(Ipv6Address::unspecified()).is_unicast());
    assert!(!IpAddress::Ipv4(Ipv4Address::new(224, 0, 0, 1)).is_unicast());
    assert!(!IpAddress::Ipv4(Ipv4Address::new(255, 255, 255, 255)).is_unicast());
    assert!(IpAddress::Ipv4(Ipv4Address::new(192, 0, 2, 1)).is_unicast());
}
