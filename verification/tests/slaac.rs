use std::cmp::Ordering;

use ipv6_nd::config::IFACE_MAX_ROUTE_COUNT;
use ipv6_nd::iface::route::{Route as InterfaceRoute, Routes};
use ipv6_nd::iface::selection::reconcile_routes;
use ipv6_nd::iface::slaac::{
    rtr_solicitation_interval, Phase, Route, Slaac, SLAAC_ROUTE_CANDIDATE_COUNT,
};
use ipv6_nd::time::{Duration, Instant};
use ipv6_nd::wire::icmpv6::{Message, Packet};
use ipv6_nd::wire::ip::{IpCidr, Ipv6Address, Ipv6Cidr};
use ipv6_nd::wire::ndisc::{Repr, RouterFlags};
use ipv6_nd::wire::ndiscoption::{
    NdiscOptionRepr, NdiscPrefixInfoFlags, NdiscPrefixInformation, NdiscRouteInformation,
    NdiscRouteInformationList, NdiscRoutePreference,
};

const SOURCE: Ipv6Address = Ipv6Address {
    bits: 0xfe80_0db8_0000_0000_0000_0000_0000_0000,
};
const SOURCE_2: Ipv6Address = Ipv6Address {
    bits: 0xfe80_0db8_0000_0000_0000_0000_0000_0002,
};
const SOURCE_3: Ipv6Address = Ipv6Address {
    bits: 0xfe80_0db8_0000_0000_0000_0000_0000_0003,
};
const PREFIX: NdiscPrefixInformation = NdiscPrefixInformation {
    prefix_len: 64,
    flags: NdiscPrefixInfoFlags {
        on_link: false,
        addrconf: true,
    },
    valid_lifetime: Duration {
        micros: 700_000_000,
    },
    preferred_lifetime: Duration {
        micros: 300_000_000,
    },
    prefix: Ipv6Address {
        bits: 0x2001_0db8_0000_0000_0000_0000_0000_0000,
    },
};
const VALID: Duration = Duration {
    micros: 600_000_000,
};
const IPV6_DEFAULT: Ipv6Cidr = Ipv6Cidr {
    address: Ipv6Address { bits: 0 },
    prefix_len: 0,
};
const ROUTE: Route = Route {
    cidr: IPV6_DEFAULT,
    via_router: SOURCE,
    valid_until: Some(Instant {
        micros: 100_000_000,
    }),
    preference: NdiscRoutePreference::Medium,
    order: 0,
};
const ROUTE_INFO: NdiscRouteInformation = NdiscRouteInformation {
    prefix_len: 64,
    preference: NdiscRoutePreference::High,
    route_lifetime: Duration {
        micros: 1_800_000_000,
    },
    prefix: Ipv6Address {
        bits: 0xfd00_0db8_0000_0000_0000_0000_0000_0000,
    },
};

fn route_info_list(route: NdiscRouteInformation) -> NdiscRouteInformationList {
    NdiscRouteInformationList::try_from(&[route]).unwrap()
}

fn parsed_route_info(
    bytes: &mut [u8],
    entries: &[NdiscRouteInformation],
) -> NdiscRouteInformationList {
    {
        let mut packet = Packet::new_unchecked(&mut *bytes);
        packet.set_msg_type(Message::RouterAdvert);
        packet.set_msg_code(0);
        packet.set_router_flags(RouterFlags::empty());
        packet.set_router_preference(NdiscRoutePreference::Medium);
        packet.set_router_lifetime(Duration::zero());

        let mut offset = 0;
        for entry in entries {
            let repr = NdiscOptionRepr::RouteInformation(*entry);
            repr.emit(packet.payload_mut(), offset);
            offset += repr.buffer_len();
        }
        assert_eq!(offset, packet.payload_mut().len());
    }

    let packet = Packet::new_unchecked(&*bytes);
    let Repr::RouterAdvert { .. } = Repr::parse(&packet).unwrap() else {
        panic!("expected router advertisement");
    };
    NdiscRouteInformationList::parse(packet.payload()).unwrap()
}

#[test]
fn test_route() {
    assert!(ROUTE.same_route(&Ipv6Cidr::new(Ipv6Address::unspecified(), 0), &SOURCE));
    assert!(!ROUTE.same_route(&Ipv6Cidr::new(Ipv6Address::unspecified(), 64), &SOURCE));
    assert!(!ROUTE.same_route(
        &Ipv6Cidr::new(Ipv6Address::unspecified(), 0),
        &Ipv6Address::unspecified()
    ));
    assert!(!ROUTE.same_route(&Ipv6Cidr::new(SOURCE, 0), &Ipv6Address::unspecified()));
    assert!(!ROUTE.same_route(&Ipv6Cidr::new(SOURCE, 64), &Ipv6Address::unspecified()));
}

#[test]
fn test_route_valid() {
    assert!(ROUTE.is_valid(Instant::zero()));
    assert!(!ROUTE.is_valid(Instant::from_secs(200)));
}

#[test]
fn test_solicitation() {
    let mut slaac = Slaac::new();
    let now = Instant::from_millis(1);
    assert!(slaac.rs_required(now));

    slaac.rs_sent(now);
    assert_eq!(slaac.num_solicitations, 2);
    assert!(!slaac.rs_required(now));

    let next_poll = slaac.poll_at(now).unwrap();
    assert_eq!(next_poll, now + rtr_solicitation_interval());

    let now = next_poll;
    assert!(slaac.rs_required(now));

    slaac.num_solicitations = 0;
    assert!(!slaac.rs_required(now));
    slaac.rs_sent(now);
    assert_eq!(slaac.phase, Phase::Stopped);
    assert!(slaac.poll_at(now).is_none());
}

#[test]
fn test_ra_state() {
    let mut slaac = Slaac::new();
    assert_eq!(slaac.phase, Phase::Start);
    let now = Instant::from_millis(1);
    assert!(!slaac.has_ra_update());

    // Unsolicited advertisement
    slaac.process_advertisement(
        &SOURCE,
        VALID,
        NdiscRoutePreference::Medium,
        Some(PREFIX),
        NdiscRouteInformationList::new(),
        now,
    );
    assert_eq!(slaac.phase, Phase::Start);
    assert!(slaac.has_ra_update());

    let now = Instant::from_secs(300);
    slaac.rs_sent(now);
    assert_eq!(slaac.phase, Phase::Discovering);

    // Solicited advertisement
    slaac.process_advertisement(
        &SOURCE,
        VALID,
        NdiscRoutePreference::Medium,
        Some(PREFIX),
        NdiscRouteInformationList::new(),
        now,
    );
    slaac.process_advertisement(
        &SOURCE,
        VALID,
        NdiscRoutePreference::Medium,
        Some(PREFIX),
        NdiscRouteInformationList::new(),
        now,
    );
    assert_eq!(slaac.phase, Phase::Maintaining);
    assert_eq!(slaac.poll_at(now), Some(now));

    for (prefix, info) in slaac.prefix() {
        assert_eq!(prefix.address(), PREFIX.prefix);
        assert_eq!(prefix.prefix_len(), PREFIX.prefix_len);
        assert_eq!(info.valid_until, now + PREFIX.valid_lifetime);
        assert_eq!(info.preferred_until, now + PREFIX.preferred_lifetime);
        assert!(info.is_valid(now));
    }

    for route in slaac.routes() {
        assert_eq!(route.cidr, Ipv6Cidr::new(Ipv6Address::unspecified(), 0));
        assert_eq!(route.via_router, SOURCE);
        assert_eq!(route.valid_until, Some(now + VALID));
        assert!(route.is_valid(now));
    }
    assert_eq!(slaac.prefix().len(), 1);
    assert_eq!(slaac.routes().len(), 1);
    assert!(slaac.sync_required(now));

    slaac.update_slaac_state(now);
    assert!(!slaac.sync_required(now));
    let poll_at = slaac.poll_at(now).unwrap();
    assert_eq!(poll_at, now + VALID);

    // Skip time until the route expires
    let now = poll_at;
    assert!(slaac.sync_required(now));
    for (_prefix, info) in slaac.prefix() {
        assert!(info.is_valid(now));
    }
    for route in slaac.routes() {
        assert!(!route.is_valid(now));
    }

    slaac.update_slaac_state(now);
    assert!(!slaac.sync_required(now));
    assert_eq!(slaac.routes().len(), 0);

    // Skip time until the prefix expires
    let poll_at = slaac.poll_at(now).unwrap();
    let now = poll_at;
    assert!(slaac.sync_required(now));
    for (_prefix, info) in slaac.prefix() {
        assert!(!info.is_valid(now));
    }
    {
        // RIO wakes split pollers immediately so route selection cannot
        // keep using an expired learned candidate.
        assert_eq!(slaac.poll_at(now), Some(now));
    }
    slaac.update_slaac_state(now);
    assert!(!slaac.sync_required(now));
    assert_eq!(slaac.routes().len(), 0);
    assert_eq!(slaac.prefix().len(), 0);

    // No state remaining, nothing to wait on
    assert!(slaac.poll_at(now).is_none());
}

#[test]
fn test_ra_expire() {
    let mut slaac = Slaac::new();
    let now = Instant::from_millis(1);
    slaac.rs_sent(now);
    slaac.process_advertisement(
        &SOURCE,
        VALID,
        NdiscRoutePreference::Medium,
        Some(PREFIX),
        NdiscRouteInformationList::new(),
        now,
    );

    let now = Instant::from_secs(300);

    assert!(slaac.sync_required(now));
    for (_prefix, info) in slaac.prefix() {
        assert!(info.is_valid(now));
    }
    for route in slaac.routes() {
        assert!(route.is_valid(now));
    }
    slaac.update_slaac_state(now);

    let mut expire_prefix = PREFIX;
    expire_prefix.preferred_lifetime = Duration::zero();
    expire_prefix.valid_lifetime = Duration::zero();

    // Invalidate the prefix, but not the route
    slaac.process_advertisement(
        &SOURCE,
        VALID,
        NdiscRoutePreference::Medium,
        Some(expire_prefix),
        NdiscRouteInformationList::new(),
        now,
    );

    assert!(slaac.sync_required(now));
    for (_prefix, info) in slaac.prefix() {
        assert!(!info.is_valid(now));
    }
    for route in slaac.routes() {
        assert!(route.is_valid(now));
    }
    slaac.update_slaac_state(now);
    assert_eq!(slaac.prefix().len(), 0);
    assert_eq!(slaac.routes().len(), 1);

    assert!(!slaac.sync_required(now));
    // Invalidate also the route
    slaac.process_advertisement(
        &SOURCE,
        Duration::zero(),
        NdiscRoutePreference::Medium,
        Some(expire_prefix),
        NdiscRouteInformationList::new(),
        now,
    );
    assert!(slaac.sync_required(now));
    {
        assert!(slaac.routes().is_empty());
        assert_eq!(slaac.poll_at(now), Some(now));
    }

    slaac.update_slaac_state(now);
    assert_eq!(slaac.prefix().len(), 0);
    assert_eq!(slaac.routes().len(), 0);
    assert!(!slaac.sync_required(now));
    // No state remaining, nothing to wait on
    assert!(slaac.poll_at(now).is_none());
}

#[test]
fn test_ra_route_info() {
    let mut slaac = Slaac::new();
    let now = Instant::from_millis(1);
    slaac.rs_sent(now);
    let cidr = Ipv6Cidr::new(ROUTE_INFO.prefix, ROUTE_INFO.prefix_len);

    // RIO adds a route to the advertised prefix (alongside the default route)
    slaac.process_advertisement(
        &SOURCE,
        VALID,
        NdiscRoutePreference::Medium,
        None,
        route_info_list(ROUTE_INFO),
        now,
    );
    assert_eq!(slaac.routes().len(), 2);
    let route = slaac.routes().iter().find(|r| r.cidr == cidr).unwrap();
    assert_eq!(route.via_router, SOURCE);
    assert_eq!(route.valid_until, Some(now + ROUTE_INFO.route_lifetime));
    assert_eq!(route.preference, ROUTE_INFO.preference);
    assert!(route.is_valid(now));

    // A zero route lifetime expires only the RIO-learned route
    let mut expire = ROUTE_INFO;
    expire.route_lifetime = Duration::zero();
    slaac.process_advertisement(
        &SOURCE,
        VALID,
        NdiscRoutePreference::Medium,
        None,
        route_info_list(expire),
        now,
    );
    assert!(slaac.routes().iter().all(|route| route.cidr != cidr));
    assert!(
        slaac
            .routes()
            .iter()
            .find(|r| r.cidr == IPV6_DEFAULT)
            .unwrap()
            .is_valid(now)
    );

    slaac.update_slaac_state(now);
    assert_eq!(slaac.routes().len(), 1);
}

#[test]
fn test_ra_ignores_unroutable_route_info_prefixes() {
    let now = Instant::from_millis(1);
    for (prefix, prefix_len) in [
        (Ipv6Address::new(0xfe80, 0, 0, 0, 0, 0, 0, 0), 64),
        (Ipv6Address::new(0, 0, 0, 0, 0, 0, 0, 1), 128),
        (Ipv6Address::new(0xff02, 0, 0, 0, 0, 0, 0, 0), 64),
        (Ipv6Address::unspecified(), 64),
    ] {
        let mut slaac = Slaac::new();
        let mut info = ROUTE_INFO;
        info.prefix = prefix;
        info.prefix_len = prefix_len;
        slaac.process_advertisement(
            &SOURCE,
            Duration::zero(),
            NdiscRoutePreference::Medium,
            None,
            route_info_list(info),
            now,
        );
        assert!(slaac.routes().is_empty());
    }

    // A zero-length prefix is the RFC 4191 default route and stays valid.
    let mut slaac = Slaac::new();
    let mut info = ROUTE_INFO;
    info.prefix = Ipv6Address::unspecified();
    info.prefix_len = 0;
    slaac.process_advertisement(
        &SOURCE,
        Duration::zero(),
        NdiscRoutePreference::Medium,
        None,
        route_info_list(info),
        now,
    );
    assert_eq!(slaac.routes().len(), 1);
}

#[test]
fn test_ra_multiple_route_info() {
    let mut slaac = Slaac::new();
    let now = Instant::from_millis(1);
    let mut second = ROUTE_INFO;
    second.prefix = Ipv6Address::new(0xfd00, 0xdb8, 1, 0, 0, 0, 0, 0);
    let route_info_entries = [ROUTE_INFO, second];
    let route_info =
        NdiscRouteInformationList::try_from(route_info_entries.as_slice()).unwrap();

    slaac.process_advertisement(
        &SOURCE,
        VALID,
        NdiscRoutePreference::Medium,
        None,
        route_info,
        now,
    );

    // The RA header's default and both RIOs must fit simultaneously.
    assert_eq!(slaac.routes().len(), 3);
    assert!(
        slaac
            .routes()
            .iter()
            .any(|route| route.cidr.address() == ROUTE_INFO.prefix)
    );
    assert!(
        slaac
            .routes()
            .iter()
            .any(|route| route.cidr.address() == second.prefix)
    );
}

#[test]
fn test_duplicate_route_info_preserves_sequential_semantics() {
    let now = Instant::from_millis(1);
    let destination = Ipv6Address::new(0xfd00, 0xdb8, 0, 0, 0, 0, 0, 1);
    let mut medium = ROUTE_INFO;
    medium.preference = NdiscRoutePreference::Medium;
    let mut slaac = Slaac::new();

    for source in [SOURCE, SOURCE_2] {
        slaac.process_advertisement(
            &source,
            Duration::zero(),
            NdiscRoutePreference::Medium,
            None,
            route_info_list(medium),
            now,
        );
    }

    let mut withdrawn = medium;
    withdrawn.route_lifetime = Duration::zero();
    let mut bytes = [0; 48];
    let route_info = parsed_route_info(&mut bytes, &[withdrawn, medium]);
    assert_eq!(route_info.iter().len(), 2);
    slaac.process_advertisement(
        &SOURCE,
        Duration::zero(),
        NdiscRoutePreference::Medium,
        None,
        route_info,
        now,
    );

    // The later positive duplicate revives the route as a new
    // arrival. The untouched equal-rank router must therefore win the
    // stable arrival-order tie.
    let mut routes = Routes::new();
    reconcile_routes(&mut slaac, &mut routes, now);
    assert_eq!(
        slaac
            .lookup_route(&routes, &destination, now, |_| false)
            .next_hop,
        Some(SOURCE_2.into())
    );

    let mut bytes = [0; 48];
    let route_info = parsed_route_info(&mut bytes, &[medium, withdrawn]);
    slaac.process_advertisement(
        &SOURCE,
        Duration::zero(),
        NdiscRoutePreference::Medium,
        None,
        route_info,
        now,
    );
    assert!(
        slaac
            .routes()
            .iter()
            .all(|route| route.via_router != SOURCE)
    );
}

#[test]
fn test_withdrawal_batch_frees_capacity_for_later_options() {
    let now = Instant::from_millis(1);
    let valid_until = Some(now + VALID);
    let prefix = |index| Ipv6Address::new(0x2001, 0xdb8, index, 0, 0, 0, 0, 0);
    let route = |index, lifetime| NdiscRouteInformation {
        prefix_len: 64,
        preference: NdiscRoutePreference::Medium,
        route_lifetime: lifetime,
        prefix: prefix(index),
    };
    let mut slaac = Slaac::new();

    for index in 0..4 {
        slaac.add_route(
            &Ipv6Cidr::new(prefix(index), 64),
            &SOURCE,
            NdiscRoutePreference::Medium,
            valid_until,
        );
    }
    let entries = [
        route(0, Duration::zero()),
        route(1, Duration::zero()),
        route(4, VALID),
        route(5, VALID),
    ];
    let route_info = NdiscRouteInformationList::try_from(entries.as_slice()).unwrap();
    slaac.process_advertisement(
        &SOURCE,
        Duration::zero(),
        NdiscRoutePreference::Medium,
        None,
        route_info,
        now,
    );

    assert_eq!(slaac.routes().len(), IFACE_MAX_ROUTE_COUNT);
    for index in [2, 3, 4, 5] {
        assert!(
            slaac
                .routes()
                .iter()
                .any(|candidate| candidate.cidr.address() == prefix(index))
        );
    }
    assert!(
        slaac
            .routes()
            .windows(2)
            .all(|pair| pair[0].identity_cmp(&pair[1]) == Ordering::Less)
    );
}

#[test]
fn test_advertisement_prunes_expired_candidates_before_admission() {
    if IFACE_MAX_ROUTE_COUNT == 0 {
        return;
    }

    let mut slaac = Slaac::new();
    let expired_at = Instant::from_secs(1);
    for index in 0..IFACE_MAX_ROUTE_COUNT {
        let address = Ipv6Address::new(
            0x2001,
            0xdb8,
            0,
            0,
            0,
            0,
            (index >> 16) as u16,
            index as u16,
        );
        slaac.add_route(
            &Ipv6Cidr::new(address, 128),
            &SOURCE,
            NdiscRoutePreference::High,
            Some(expired_at),
        );
    }
    assert!(slaac.routes().len() == SLAAC_ROUTE_CANDIDATE_COUNT);

    let now = Instant::from_secs(2);
    let fresh = NdiscRouteInformation {
        prefix_len: 1,
        preference: NdiscRoutePreference::Low,
        route_lifetime: Duration::from_secs(600),
        prefix: Ipv6Address::new(0x8000, 0, 0, 0, 0, 0, 0, 0),
    };
    slaac.process_advertisement(
        &SOURCE_2,
        Duration::zero(),
        NdiscRoutePreference::Medium,
        None,
        route_info_list(fresh),
        now,
    );

    // The fresh /1 is deliberately less useful than every expired /128.
    // It is retained because expired routes are no longer candidates.
    assert_eq!(slaac.routes().len(), 1);
    assert_eq!(slaac.routes()[0].cidr, Ipv6Cidr::new(fresh.prefix, 1));
    assert_eq!(slaac.routes()[0].via_router, SOURCE_2);
    assert_eq!(
        slaac.routes()[0].valid_until,
        Some(now + fresh.route_lifetime)
    );
}

#[test]
fn test_default_route_info_overrides_header() {
    let now = Instant::from_millis(1);
    let route_info = NdiscRouteInformation {
        prefix_len: 0,
        prefix: Ipv6Address::unspecified(),
        preference: NdiscRoutePreference::High,
        route_lifetime: Duration::from_secs(1800),
    };
    let mut slaac = Slaac::new();

    slaac.process_advertisement(
        &SOURCE,
        VALID,
        NdiscRoutePreference::Medium,
        None,
        route_info_list(route_info),
        now,
    );

    let route = slaac.routes().first().unwrap();
    assert_eq!(route.cidr, IPV6_DEFAULT);
    assert_eq!(route.valid_until, Some(now + route_info.route_lifetime));
    assert_eq!(route.preference, NdiscRoutePreference::High);

    let mut withdrawn = route_info;
    withdrawn.route_lifetime = Duration::zero();
    slaac.process_advertisement(
        &SOURCE,
        VALID,
        NdiscRoutePreference::Medium,
        None,
        route_info_list(withdrawn),
        now,
    );
    assert!(slaac.routes().is_empty());
}

#[test]
fn test_header_default_route_preference() {
    let now = Instant::from_millis(1);
    let mut slaac = Slaac::new();

    slaac.process_advertisement(
        &SOURCE,
        VALID,
        NdiscRoutePreference::Low,
        None,
        NdiscRouteInformationList::new(),
        now,
    );
    slaac.process_advertisement(
        &SOURCE_2,
        VALID,
        NdiscRoutePreference::High,
        None,
        NdiscRouteInformationList::new(),
        now,
    );

    let mut routes = Routes::new();
    reconcile_routes(&mut slaac, &mut routes, now);
    let selection = slaac.lookup_route(
        &routes,
        &Ipv6Address::new(0x2001, 0xdb8, 0, 0, 0, 0, 0, 1),
        now,
        |_| false,
    );
    assert_eq!(selection.next_hop, Some(SOURCE_2.into()));
}

#[test]
fn test_configured_route_wins_equal_prefix_but_not_longer_learned_prefix() {
    let now = Instant::from_millis(1);
    let destination = Ipv6Address::new(0xfd00, 0xdb8, 0, 0, 0, 0, 0, 1);
    let learned_cidr = Ipv6Cidr::new(ROUTE_INFO.prefix, ROUTE_INFO.prefix_len);
    let mut slaac = Slaac::new();
    slaac.process_advertisement(
        &SOURCE,
        Duration::zero(),
        NdiscRoutePreference::Medium,
        None,
        route_info_list(ROUTE_INFO),
        now,
    );

    let configured = |cidr: Ipv6Cidr| InterfaceRoute {
        cidr: cidr.into(),
        via_router: SOURCE_3.into(),
        preferred_until: None,
        expires_at: None,
    };

    let mut equal_routes = Routes::new();
    equal_routes.update(|storage| storage.push(configured(learned_cidr)).unwrap());
    reconcile_routes(&mut slaac, &mut equal_routes, now);
    assert_eq!(
        slaac
            .lookup_route(&equal_routes, &destination, now, |_| false)
            .next_hop,
        Some(SOURCE_3.into())
    );

    let mut less_specific_routes = Routes::new();
    less_specific_routes.update(|storage| {
        storage
            .push(configured(Ipv6Cidr::new(ROUTE_INFO.prefix, 48)))
            .unwrap()
    });
    reconcile_routes(&mut slaac, &mut less_specific_routes, now);
    assert_eq!(
        slaac
            .lookup_route(&less_specific_routes, &destination, now, |_| false)
            .next_hop,
        Some(SOURCE.into())
    );
    assert_eq!(
        slaac
            .lookup_route(&less_specific_routes, &destination, now, |router| {
                *router == SOURCE
            })
            .next_hop,
        Some(SOURCE_3.into())
    );
}

#[test]
fn test_lookup_falls_back_and_recovers() {
    let now = Instant::from_millis(1);
    let destination = Ipv6Address::new(0xfd00, 0xdb8, 0, 0, 0, 0, 0, 1);
    let mut low = ROUTE_INFO;
    low.preference = NdiscRoutePreference::Low;
    let mut slaac = Slaac::new();

    slaac.process_advertisement(
        &SOURCE,
        Duration::zero(),
        NdiscRoutePreference::Medium,
        None,
        route_info_list(ROUTE_INFO),
        now,
    );
    slaac.process_advertisement(
        &SOURCE_2,
        Duration::zero(),
        NdiscRoutePreference::Medium,
        None,
        route_info_list(low),
        now,
    );
    slaac.process_advertisement(
        &SOURCE_3,
        VALID,
        NdiscRoutePreference::Medium,
        None,
        NdiscRouteInformationList::new(),
        now,
    );

    let mut routes = Routes::new();
    reconcile_routes(&mut slaac, &mut routes, now);
    let selection = |unreachable: &[Ipv6Address]| {
        slaac.lookup_route(&routes, &destination, now, |router| {
            unreachable.contains(router)
        })
    };
    assert_eq!(selection(&[]).next_hop, Some(SOURCE.into()));
    let fallback = selection(&[SOURCE]);
    assert_eq!(fallback.next_hop, Some(SOURCE_2.into()));
    let probes: Vec<_> = slaac
        .recovery_probe_candidates(&routes, &destination, now, fallback)
        .into_iter()
        .filter(|router| [SOURCE].contains(router))
        .collect();
    assert_eq!(probes.as_slice(), &[SOURCE]);

    let default = selection(&[SOURCE, SOURCE_2]);
    assert_eq!(default.next_hop, Some(SOURCE_3.into()));
    let probes: Vec<_> = slaac
        .recovery_probe_candidates(&routes, &destination, now, default)
        .into_iter()
        .filter(|router| [SOURCE, SOURCE_2].contains(router))
        .collect();
    assert_eq!(probes.as_slice(), &[SOURCE, SOURCE_2]);

    let all_unreachable = selection(&[SOURCE, SOURCE_2, SOURCE_3]);
    assert_eq!(all_unreachable.next_hop, Some(SOURCE.into()));
    let probes: Vec<_> = slaac
        .recovery_probe_candidates(&routes, &destination, now, all_unreachable)
        .into_iter()
        .filter(|router| [SOURCE, SOURCE_2, SOURCE_3].contains(router))
        .collect();
    assert_eq!(probes.as_slice(), &[SOURCE_2, SOURCE_3]);
}

#[test]
fn test_equal_rank_recovery_preserves_selection_order() {
    let now = Instant::from_millis(1);
    let destination = Ipv6Address::new(0xfd00, 0xdb8, 0, 0, 0, 0, 0, 1);
    let mut slaac = Slaac::new();

    for source in [SOURCE, SOURCE_2] {
        slaac.process_advertisement(
            &source,
            Duration::zero(),
            NdiscRoutePreference::Medium,
            None,
            route_info_list(ROUTE_INFO),
            now,
        );
    }

    let mut routes = Routes::new();
    reconcile_routes(&mut slaac, &mut routes, now);
    let first_unreachable =
        slaac.lookup_route(&routes, &destination, now, |router| *router == SOURCE);
    assert_eq!(first_unreachable.next_hop, Some(SOURCE_2.into()));
    assert!(
        slaac
            .recovery_probe_candidates(&routes, &destination, now, first_unreachable)
            .eq(&[SOURCE])
    );

    let second_unreachable =
        slaac.lookup_route(&routes, &destination, now, |router| *router == SOURCE_2);
    assert_eq!(second_unreachable.next_hop, Some(SOURCE.into()));
    assert!(
        slaac
            .recovery_probe_candidates(&routes, &destination, now, second_unreachable)
            .is_empty()
    );
}

#[test]
fn test_candidate_capacity_keeps_three_router_fallbacks() {
    let now = Instant::from_millis(1);
    let mut low = ROUTE_INFO;
    low.preference = NdiscRoutePreference::Low;
    let mut medium = ROUTE_INFO;
    medium.preference = NdiscRoutePreference::Medium;
    let mut slaac = Slaac::new();

    for (source, route) in [(SOURCE_3, ROUTE_INFO), (SOURCE, low), (SOURCE_2, medium)] {
        slaac.process_advertisement(
            &source,
            Duration::zero(),
            NdiscRoutePreference::Medium,
            None,
            route_info_list(route),
            now,
        );
    }

    let cidr = Ipv6Cidr::new(ROUTE_INFO.prefix, ROUTE_INFO.prefix_len);
    let candidates: Vec<_> = slaac
        .routes()
        .iter()
        .filter(|route| route.cidr == cidr)
        .copied()
        .collect();
    // All three routers fit within the total route capacity. Keeping
    // only two would lose the final reachable fallback for this prefix.
    assert_eq!(candidates.len(), 3);

    assert!(
        slaac
            .routes()
            .windows(2)
            .all(|pair| pair[0].identity_cmp(&pair[1]) == Ordering::Less)
    );
    slaac.sort_learned_routes_by_usefulness();
    assert_eq!(
        slaac
            .routes()
            .iter()
            .map(|route| route.via_router)
            .collect::<Vec<_>>()
            .as_slice(),
        &[SOURCE_3, SOURCE_2, SOURCE]
    );
    assert_eq!(
        (0..3)
            .map(|index| slaac.learned_route_at(index, now).unwrap().order)
            .collect::<Vec<_>>()
            .as_slice(),
        &[0, 2, 1]
    );
    slaac.restore_learned_route_identity_order();

    let destination = Ipv6Address::new(0xfd00, 0xdb8, 0, 0, 0, 0, 0, 1);
    let mut routes = Routes::new();
    reconcile_routes(&mut slaac, &mut routes, now);
    assert_eq!(
        slaac
            .lookup_route(&routes, &destination, now, |router| *router == SOURCE_3)
            .next_hop,
        Some(SOURCE_2.into())
    );
    assert_eq!(
        slaac
            .lookup_route(&routes, &destination, now, |router| {
                [SOURCE_3, SOURCE_2].contains(router)
            })
            .next_hop,
        Some(SOURCE.into())
    );
}

#[test]
fn test_candidate_storage_respects_total_route_capacity() {
    assert_eq!(SLAAC_ROUTE_CANDIDATE_COUNT, IFACE_MAX_ROUTE_COUNT);

    let now = Instant::from_millis(1);
    let valid_until = Some(now + VALID);
    let prefix =
        |index| Ipv6Cidr::new(Ipv6Address::new(0x2001, 0xdb8, index, 0, 0, 0, 0, 0), 64);
    let source_4 = Ipv6Address::new(0xfe80, 0xdb8, 0, 0, 0, 0, 0, 4);
    let mut slaac = Slaac::new();

    // Fill the explicit total bound while one prefix has a fallback.
    slaac.add_route(&prefix(1), &SOURCE, NdiscRoutePreference::Low, valid_until);
    slaac.add_route(
        &prefix(1),
        &SOURCE_2,
        NdiscRoutePreference::High,
        valid_until,
    );
    slaac.add_route(
        &prefix(2),
        &SOURCE_3,
        NdiscRoutePreference::Medium,
        valid_until,
    );
    slaac.add_route(
        &prefix(3),
        &source_4,
        NdiscRoutePreference::Medium,
        valid_until,
    );
    assert_eq!(slaac.routes().len(), IFACE_MAX_ROUTE_COUNT);

    // A new prefix adds coverage, so a bounded table should spend
    // the redundant slot before dropping any already covered prefix.
    slaac.add_route(&prefix(4), &SOURCE, NdiscRoutePreference::Low, valid_until);
    assert_eq!(slaac.routes().len(), IFACE_MAX_ROUTE_COUNT);
    for index in 1..=4 {
        assert!(
            slaac
                .routes()
                .iter()
                .any(|route| route.cidr == prefix(index))
        );
    }
    assert!(
        slaac
            .routes()
            .iter()
            .all(|route| route.cidr != prefix(1) || route.via_router == SOURCE_2)
    );
}

#[test]
fn test_full_candidate_storage_keeps_better_fallbacks() {
    let now = Instant::from_millis(1);
    let valid_until = Some(now + VALID);
    let prefix =
        |index| Ipv6Cidr::new(Ipv6Address::new(0x2001, 0xdb8, index, 0, 0, 0, 0, 0), 64);
    let source_4 = Ipv6Address::new(0xfe80, 0xdb8, 0, 0, 0, 0, 0, 4);
    let source_5 = Ipv6Address::new(0xfe80, 0xdb8, 0, 0, 0, 0, 0, 5);
    let source_6 = Ipv6Address::new(0xfe80, 0xdb8, 0, 0, 0, 0, 0, 6);
    let mut slaac = Slaac::new();

    slaac.add_route(&prefix(1), &SOURCE, NdiscRoutePreference::Low, valid_until);
    slaac.add_route(
        &prefix(1),
        &SOURCE_2,
        NdiscRoutePreference::Medium,
        valid_until,
    );
    slaac.add_route(
        &prefix(2),
        &SOURCE_3,
        NdiscRoutePreference::Low,
        valid_until,
    );
    slaac.add_route(
        &prefix(3),
        &source_4,
        NdiscRoutePreference::Low,
        valid_until,
    );

    // A better same-prefix route replaces the least useful removable
    // fallback without reducing prefix coverage.
    slaac.add_route(
        &prefix(1),
        &source_5,
        NdiscRoutePreference::High,
        valid_until,
    );
    assert!(
        slaac
            .routes()
            .iter()
            .all(|route| route.via_router != SOURCE)
    );
    assert!(
        slaac
            .routes()
            .iter()
            .any(|route| route.via_router == source_5)
    );

    // A worse arrival cannot displace either retained fallback merely
    // because the table happens to be full.
    slaac.add_route(
        &prefix(1),
        &source_6,
        NdiscRoutePreference::Low,
        valid_until,
    );
    assert!(
        slaac
            .routes()
            .iter()
            .all(|route| route.via_router != source_6)
    );
    assert!(
        slaac
            .routes()
            .windows(2)
            .all(|pair| pair[0].identity_cmp(&pair[1]) == Ordering::Less)
    );
}

#[test]
fn test_removed_public_learned_route_no_longer_affects_selection() {
    let now = Instant::from_millis(1);
    let mut slaac = Slaac::new();
    let destination = Ipv6Address::new(0xfd00, 0xdb8, 0, 0, 0, 0, 0, 1);
    let mut low = ROUTE_INFO;
    low.preference = NdiscRoutePreference::Low;

    slaac.process_advertisement(
        &SOURCE,
        Duration::zero(),
        NdiscRoutePreference::Medium,
        None,
        route_info_list(ROUTE_INFO),
        now,
    );
    slaac.process_advertisement(
        &SOURCE_2,
        Duration::zero(),
        NdiscRoutePreference::Medium,
        None,
        route_info_list(low),
        now,
    );

    let mut routes = Routes::new();
    reconcile_routes(&mut slaac, &mut routes, now);
    assert_eq!(
        slaac
            .lookup_route(&routes, &destination, now, |_| false)
            .next_hop,
        Some(SOURCE.into())
    );

    routes.update(|storage| {
        let index = storage
            .iter()
            .position(|route| route.via_router == SOURCE.into())
            .unwrap();
        storage.remove(index);
    });

    // The public table is authoritative. A retained RA candidate
    // must not remain a hidden forwarding or router-recovery source after
    // the application removes its public learned entry.
    assert_eq!(
        slaac
            .lookup_route(&routes, &destination, now, |_| false)
            .next_hop,
        Some(SOURCE_2.into())
    );
    assert!(!slaac.is_router(&routes, &SOURCE, now));
}

#[test]
fn test_recovery_candidates_leave_router_coalescing_to_caller() {
    let now = Instant::from_millis(1);
    let destination = Ipv6Address::new(0x2001, 0xdb8, 1, 2, 0, 0, 0, 1);
    let mut slaac = Slaac::new();
    let more_specific = Ipv6Cidr::new(Ipv6Address::new(0x2001, 0xdb8, 1, 2, 0, 0, 0, 0), 64);
    let less_specific = Ipv6Cidr::new(Ipv6Address::new(0x2001, 0xdb8, 1, 0, 0, 0, 0, 0), 48);

    slaac.add_route(
        &more_specific,
        &SOURCE,
        NdiscRoutePreference::High,
        Some(now + VALID),
    );
    slaac.add_route(
        &less_specific,
        &SOURCE,
        NdiscRoutePreference::High,
        Some(now + VALID),
    );
    slaac.add_route(
        &IPV6_DEFAULT,
        &SOURCE_2,
        NdiscRoutePreference::Medium,
        Some(now + VALID),
    );

    let mut routes = Routes::new();
    reconcile_routes(&mut slaac, &mut routes, now);
    let selection = slaac.lookup_route(&routes, &destination, now, |router| *router == SOURCE);
    assert_eq!(selection.next_hop, Some(SOURCE_2.into()));
    assert!(
        slaac
            .recovery_probe_candidates(&routes, &destination, now, selection)
            .eq(&[SOURCE, SOURCE])
    );
}

#[test]
fn test_infinite_route_lifetime() {
    let now = Instant::from_millis(1);
    let mut route_info = ROUTE_INFO;
    route_info.route_lifetime = NdiscRouteInformation::infinite_lifetime();
    let mut slaac = Slaac::new();

    slaac.process_advertisement(
        &SOURCE,
        Duration::zero(),
        NdiscRoutePreference::Medium,
        None,
        route_info_list(route_info),
        now,
    );

    let route = slaac.routes().first().unwrap();
    assert_eq!(route.valid_until, None);
    assert!(route.is_valid(Instant::from_secs(10_000_000_000_i64)));
}

fn maintain(slaac: &mut Slaac, routes: &mut Routes, now: Instant) {
    if slaac.sync_required(now) {
        reconcile_routes(slaac, routes, now);
        slaac.update_slaac_state(now);
    }
}

#[test]
fn test_slaac_withdrawal_preserves_static_route() {
    let mut slaac = Slaac::new();
    let mut public = Routes::new();
    let prefix = Ipv6Address::new(0xfd00, 0xdb8, 0, 0, 0, 0, 0, 0);
    let cidr = IpCidr::Ipv6(Ipv6Cidr::new(prefix, 64));
    let router = Ipv6Address::new(0xfe80, 0, 0, 0, 0, 0, 0, 2);
    let mut route_info = NdiscRouteInformation {
        prefix_len: 64,
        preference: NdiscRoutePreference::High,
        route_lifetime: Duration::from_secs(1800),
        prefix,
    };

    public.update(|routes| {
        routes
            .push(InterfaceRoute {
                cidr,
                via_router: router.into(),
                preferred_until: None,
                expires_at: None,
            })
            .unwrap();
    });
    slaac.process_advertisement(
        &router,
        Duration::zero(),
        NdiscRoutePreference::Medium,
        None,
        route_info_list(route_info),
        Instant::zero(),
    );
    maintain(&mut slaac, &mut public, Instant::zero());

    route_info.route_lifetime = Duration::zero();
    slaac.process_advertisement(
        &router,
        Duration::zero(),
        NdiscRoutePreference::Medium,
        None,
        route_info_list(route_info),
        Instant::from_secs(1),
    );
    maintain(&mut slaac, &mut public, Instant::from_secs(1));

    public.update(|routes| {
        assert_eq!(routes.len(), 1);
        assert_eq!(routes[0].cidr, cidr);
        assert_eq!(routes[0].via_router, router.into());
        assert_eq!(routes[0].expires_at, None);
    });
}

#[test]
fn test_slaac_withdrawal_preserves_application_copy_of_learned_route() {
    let mut slaac = Slaac::new();
    let mut public = Routes::new();
    let prefix = Ipv6Address::new(0xfd00, 0xdb8, 0, 0, 0, 0, 0, 0);
    let cidr = IpCidr::Ipv6(Ipv6Cidr::new(prefix, 64));
    let router = Ipv6Address::new(0xfe80, 0, 0, 0, 0, 0, 0, 2);
    let mut route_info = NdiscRouteInformation {
        prefix_len: 64,
        preference: NdiscRoutePreference::High,
        route_lifetime: Duration::from_secs(1800),
        prefix,
    };

    slaac.process_advertisement(
        &router,
        Duration::zero(),
        NdiscRoutePreference::Medium,
        None,
        route_info_list(route_info),
        Instant::zero(),
    );
    maintain(&mut slaac, &mut public, Instant::zero());

    public.update(|routes| {
        let learned = *routes
            .iter()
            .find(|route| route.cidr == cidr && route.via_router == router.into())
            .unwrap();
        routes.push(learned).unwrap();
    });
    public.update(|routes| {
        let first = routes
            .iter()
            .position(|route| route.cidr == cidr && route.via_router == router.into())
            .unwrap();
        routes.remove(first);
    });

    route_info.route_lifetime = Duration::zero();
    slaac.process_advertisement(
        &router,
        Duration::zero(),
        NdiscRoutePreference::Medium,
        None,
        route_info_list(route_info),
        Instant::from_secs(1),
    );
    maintain(&mut slaac, &mut public, Instant::from_secs(1));

    public.update(|routes| {
        assert_eq!(routes.len(), 1);
        assert_eq!(routes[0].cidr, cidr);
        assert_eq!(routes[0].via_router, router.into());
    });
}

fn numbered(index: u16) -> Ipv6Cidr {
    Ipv6Cidr::new(Ipv6Address::new(0x2001, 0xdb8, index, 0, 0, 0, 0, 0), 64)
}

#[test]
fn orders_are_counted_anew_before_they_run_out() {
    let mut slaac = Slaac::new();
    slaac.next_route_order = 7;
    slaac.add_route(&numbered(2), &SOURCE, NdiscRoutePreference::High, None);
    slaac.next_route_order = u32::MAX - 1;
    slaac.add_route(&numbered(1), &SOURCE, NdiscRoutePreference::High, None);
    assert_eq!(slaac.next_route_order, u32::MAX);
    slaac.add_route(&numbered(3), &SOURCE, NdiscRoutePreference::High, None);
    let orders: Vec<u32> = slaac.routes().iter().map(|r| r.order).collect();
    assert_eq!(orders, vec![1, 0, 2]);
    assert_eq!(slaac.next_route_order, 3);
    let cidrs: Vec<Ipv6Cidr> = slaac.routes().iter().map(|r| r.cidr).collect();
    assert_eq!(cidrs, vec![numbered(1), numbered(2), numbered(3)]);
}

#[test]
fn a_revived_route_is_the_newest() {
    let mut slaac = Slaac::new();
    slaac.add_route(&numbered(1), &SOURCE, NdiscRoutePreference::High, None);
    slaac.add_route(&numbered(2), &SOURCE, NdiscRoutePreference::High, None);
    slaac.update_slaac_state(Instant::zero());

    // The same again changes nothing.
    slaac.add_route(&numbered(1), &SOURCE, NdiscRoutePreference::High, None);
    assert!(!slaac.has_ra_update());
    assert_eq!(slaac.routes()[0].order, 0);

    assert!(slaac.expire_route(&numbered(1), &SOURCE));
    assert!(slaac.has_ra_update());
    assert!(!slaac.expire_route(&numbered(1), &SOURCE));
    assert!(!slaac.expire_route(&numbered(3), &SOURCE));
    slaac.add_route(&numbered(1), &SOURCE, NdiscRoutePreference::Low, None);
    assert_eq!(slaac.routes()[0].order, 2);
    assert_eq!(slaac.routes()[0].preference, NdiscRoutePreference::Low);
}

#[test]
fn a_full_table_refuses_a_less_useful_route() {
    let mut slaac = Slaac::new();
    for index in 0..4 {
        slaac.add_route(&numbered(index), &SOURCE, NdiscRoutePreference::Medium, None);
    }
    slaac.update_slaac_state(Instant::zero());
    slaac.add_route(&numbered(9), &SOURCE, NdiscRoutePreference::Low, None);
    assert!(slaac.routes().iter().all(|r| r.cidr != numbered(9)));
    assert!(!slaac.has_ra_update());
    // One that is more useful takes the place of the newest.
    slaac.add_route(&numbered(9), &SOURCE, NdiscRoutePreference::High, None);
    assert!(slaac.has_ra_update());
    let cidrs: Vec<Ipv6Cidr> = slaac.routes().iter().map(|r| r.cidr).collect();
    assert_eq!(
        cidrs,
        vec![numbered(0), numbered(1), numbered(2), numbered(9)]
    );
}

#[test]
fn removing_a_router_removes_its_routes() {
    let mut slaac = Slaac::new();
    slaac.add_route(&numbered(1), &SOURCE, NdiscRoutePreference::High, None);
    slaac.add_route(&numbered(1), &SOURCE_2, NdiscRoutePreference::High, None);
    slaac.add_route(&numbered(2), &SOURCE, NdiscRoutePreference::High, None);
    slaac.update_slaac_state(Instant::zero());
    assert!(!slaac.remove_router(&SOURCE_3));
    assert!(!slaac.has_ra_update());
    assert!(slaac.remove_router(&SOURCE));
    assert!(slaac.has_ra_update());
    assert_eq!(slaac.routes().len(), 1);
    assert_eq!(slaac.routes()[0].via_router, SOURCE_2);
}

#[test]
fn prefixes_that_are_not_taken() {
    let now = Instant::from_secs(1);
    let offer = |prefix: NdiscPrefixInformation| {
        let mut slaac = Slaac::new();
        slaac.process_advertisement(
            &SOURCE,
            Duration::zero(),
            NdiscRoutePreference::Medium,
            Some(prefix),
            NdiscRouteInformationList::new(),
            now,
        );
        slaac.prefix().len()
    };
    assert_eq!(offer(PREFIX), 1);
    let mut link_local = PREFIX;
    link_local.prefix = Ipv6Address::new(0xfe80, 0, 0, 0, 0, 0, 0, 0);
    assert_eq!(offer(link_local), 0);
    let mut no_addresses = PREFIX;
    no_addresses.flags.addrconf = false;
    assert_eq!(offer(no_addresses), 0);
    let mut too_long = PREFIX;
    too_long.prefix_len = 129;
    assert_eq!(offer(too_long), 0);
    let mut preferred_too_long = PREFIX;
    preferred_too_long.preferred_lifetime = Duration::from_secs(701);
    assert_eq!(offer(preferred_too_long), 0);
    let mut expired = PREFIX;
    expired.valid_lifetime = Duration::zero();
    expired.preferred_lifetime = Duration::zero();
    assert_eq!(offer(expired), 0);
}

#[test]
fn a_second_prefix_finds_no_room() {
    let now = Instant::from_secs(1);
    let mut slaac = Slaac::new();
    let mut second = PREFIX;
    second.prefix = Ipv6Address::new(0x2001, 0xdb8, 7, 0, 0, 0, 0, 0);
    for prefix in [PREFIX, second] {
        slaac.process_advertisement(
            &SOURCE,
            Duration::zero(),
            NdiscRoutePreference::Medium,
            Some(prefix),
            NdiscRouteInformationList::new(),
            now,
        );
    }
    let stored = slaac.prefix();
    assert_eq!(stored.len(), 1);
    assert_eq!(stored[0].0, Ipv6Cidr::new(PREFIX.prefix, 64));
    assert_eq!(stored[0].1.valid_until, Instant::from_secs(701));
    assert_eq!(stored[0].1.preferred_until, Instant::from_secs(301));
}

#[test]
fn an_unreachable_router_is_chosen_only_without_another() {
    let now = Instant::from_millis(1);
    let destination = Ipv6Address::new(0xfd00, 0xdb8, 0, 0, 0, 0, 0, 1);
    let mut slaac = Slaac::new();
    let mut routes = Routes::new();
    let none = slaac.lookup_route(&routes, &destination, now, |_| true);
    assert_eq!(none.next_hop, None);
    assert!(!none.selected_is_unreachable);
    assert!(slaac
        .recovery_probe_candidates(&routes, &destination, now, none)
        .is_empty());

    slaac.add_route(
        &Ipv6Cidr::new(ROUTE_INFO.prefix, 64),
        &SOURCE,
        NdiscRoutePreference::Medium,
        Some(Instant::from_secs(9)),
    );
    reconcile_routes(&mut slaac, &mut routes, now);
    let only = slaac.lookup_route(&routes, &destination, now, |_| true);
    assert_eq!(only.next_hop, Some(SOURCE.into()));
    assert!(only.selected_is_unreachable);
    assert!(slaac.is_router(&routes, &SOURCE, now));
    // At its deadline the route is not used any more.
    let late = Instant::from_secs(9);
    assert!(!slaac.is_router(&routes, &SOURCE, late));
    assert_eq!(
        slaac
            .lookup_route(&routes, &destination, late, |_| false)
            .next_hop,
        None
    );
}

#[test]
fn configured_routes_are_chosen_as_by_a_plain_lookup() {
    let now = Instant::from_millis(1);
    let destination = Ipv6Address::new(0x2001, 0xdb8, 1, 0, 0, 0, 0, 1);
    let slaac = Slaac::new();
    let mut routes = Routes::new();
    let configured = |len: u8, via: Ipv6Address| InterfaceRoute {
        cidr: Ipv6Cidr::new(Ipv6Address::new(0x2001, 0xdb8, 1, 0, 0, 0, 0, 0), len).into(),
        via_router: via.into(),
        preferred_until: None,
        expires_at: None,
    };
    routes.update(|storage| {
        storage.push(configured(48, SOURCE)).unwrap();
        storage.push(configured(48, SOURCE_2)).unwrap();
        storage.push(configured(32, SOURCE_3)).unwrap();
    });
    let chosen = slaac.lookup_route(&routes, &destination, now, |_| true);
    assert_eq!(chosen.next_hop, Some(SOURCE_2.into()));
    assert_eq!(routes.lookup(&destination.into(), now), chosen.next_hop);
    assert!(!chosen.selected_is_unreachable);
}

#[test]
fn the_next_poll_is_at_the_first_deadline() {
    let now = Instant::from_secs(1);
    let mut slaac = Slaac::new();
    assert_eq!(slaac.poll_at(now), Some(Instant::zero()));
    slaac.rs_sent(now);
    slaac.process_advertisement(
        &SOURCE,
        VALID,
        NdiscRoutePreference::Medium,
        Some(PREFIX),
        route_info_list(ROUTE_INFO),
        now,
    );
    slaac.update_slaac_state(now);
    assert_eq!(slaac.poll_at(now), Some(now + VALID));
    assert!(!slaac.sync_required(Instant {
        micros: 600_999_999
    }));
    assert!(slaac.sync_required(now + VALID));
}

#[test]
fn a_drawn_order_comes_behind_all_others() {
    let mut slaac = Slaac::new();
    assert_eq!(slaac.take_route_order(), 0);
    slaac.add_route(&numbered(1), &SOURCE, NdiscRoutePreference::High, None);
    slaac.next_route_order = u32::MAX - 1;
    slaac.add_route(&numbered(2), &SOURCE, NdiscRoutePreference::High, None);
    slaac.add_route(&numbered(0), &SOURCE, NdiscRoutePreference::High, None);
    assert!(slaac.expire_route(&numbered(1), &SOURCE));
    slaac.next_route_order = u32::MAX;
    assert_eq!(slaac.take_route_order(), 2);
    let orders: Vec<u32> = slaac.routes().iter().map(|r| r.order).collect();
    assert_eq!(orders, vec![1, u32::MAX, 0]);
    assert_eq!(slaac.take_route_order(), 3);
}

#[test]
fn an_advertisement_leaves_other_routers_alone() {
    let now = Instant::from_secs(1);
    let deadline = Some(Instant::from_secs(50));
    let mut slaac = Slaac::new();
    let cidr = Ipv6Cidr::new(ROUTE_INFO.prefix, ROUTE_INFO.prefix_len);
    slaac.add_route(&cidr, &SOURCE, NdiscRoutePreference::Low, deadline);
    slaac.add_route(&IPV6_DEFAULT, &SOURCE, NdiscRoutePreference::Low, deadline);
    let before: Vec<Route> = slaac.routes().to_vec();
    slaac.rs_sent(now);

    // Another router offers one of the prefixes and withdraws the other.
    slaac.process_advertisement(
        &SOURCE_2,
        Duration::zero(),
        NdiscRoutePreference::High,
        None,
        route_info_list(ROUTE_INFO),
        now,
    );
    assert_eq!(slaac.phase, Phase::Maintaining);
    assert_eq!(slaac.routes().len(), 3);
    let others: Vec<Route> = slaac
        .routes()
        .iter()
        .filter(|r| r.via_router != SOURCE_2)
        .copied()
        .collect();
    assert_eq!(others, before);
}
