use ipv6_nd::config::IFACE_MAX_ROUTE_COUNT;
use ipv6_nd::iface::route::{LearnedRoute, Route, RouteTableFull, Routes};
use ipv6_nd::time::Instant;
use ipv6_nd::wire::ip::{IpAddress, IpCidr, Ipv4Address, Ipv4Cidr, Ipv6Address, Ipv6Cidr};
use ipv6_nd::wire::ndiscoption::NdiscRoutePreference;

fn addr_1a() -> Ipv6Address {
    Ipv6Address::new(0xfe80, 0, 0, 2, 0, 0, 0, 1)
}
fn addr_1b() -> Ipv6Address {
    Ipv6Address::new(0xfe80, 0, 0, 2, 0, 0, 0, 13)
}
fn addr_1c() -> Ipv6Address {
    Ipv6Address::new(0xfe80, 0, 0, 2, 0, 0, 0, 42)
}
fn cidr_1() -> Ipv6Cidr {
    Ipv6Cidr::new(Ipv6Address::new(0xfe80, 0, 0, 2, 0, 0, 0, 0), 64)
}
fn addr_2a() -> Ipv6Address {
    Ipv6Address::new(0xfe80, 0, 0, 0x3364, 0, 0, 0, 1)
}
fn addr_2b() -> Ipv6Address {
    Ipv6Address::new(0xfe80, 0, 0, 0x3364, 0, 0, 0, 21)
}
fn cidr_2() -> Ipv6Cidr {
    Ipv6Cidr::new(Ipv6Address::new(0xfe80, 0, 0, 0x3364, 0, 0, 0, 0), 64)
}

fn look(routes: &Routes, a: Ipv6Address, millis: i64) -> Option<IpAddress> {
    routes.lookup(&a.into(), Instant::from_millis(millis))
}

#[test]
fn route_test_fill() {
    let mut routes = Routes::new();

    assert_eq!(look(&routes, addr_1a(), 0), None);
    assert_eq!(look(&routes, addr_1b(), 0), None);
    assert_eq!(look(&routes, addr_1c(), 0), None);
    assert_eq!(look(&routes, addr_2a(), 0), None);
    assert_eq!(look(&routes, addr_2b(), 0), None);

    let route = Route {
        cidr: cidr_1().into(),
        via_router: addr_1a().into(),
        preferred_until: None,
        expires_at: None,
    };
    routes.update(|storage| {
        storage.push(route).unwrap();
    });

    assert_eq!(look(&routes, addr_1a(), 0), Some(addr_1a().into()));
    assert_eq!(look(&routes, addr_1b(), 0), Some(addr_1a().into()));
    assert_eq!(look(&routes, addr_1c(), 0), Some(addr_1a().into()));
    assert_eq!(look(&routes, addr_2a(), 0), None);
    assert_eq!(look(&routes, addr_2b(), 0), None);

    let route2 = Route {
        cidr: cidr_2().into(),
        via_router: addr_2a().into(),
        preferred_until: Some(Instant::from_millis(10)),
        expires_at: Some(Instant::from_millis(10)),
    };
    routes.update(|storage| {
        storage.push(route2).unwrap();
    });

    for millis in [0, 10] {
        assert_eq!(look(&routes, addr_1a(), millis), Some(addr_1a().into()));
        assert_eq!(look(&routes, addr_1b(), millis), Some(addr_1a().into()));
        assert_eq!(look(&routes, addr_1c(), millis), Some(addr_1a().into()));
        assert_eq!(look(&routes, addr_2a(), millis), Some(addr_2a().into()));
        assert_eq!(look(&routes, addr_2b(), millis), Some(addr_2a().into()));
    }
    assert_eq!(look(&routes, addr_2b(), 11), None);
}

#[test]
fn exact_application_duplicate_drops_learned_ownership() {
    let learned = LearnedRoute {
        cidr: cidr_1(),
        via_router: addr_2a(),
        valid_until: Some(Instant::from_millis(100)),
        preference: NdiscRoutePreference::High,
        order: 7,
    };
    let mut routes = Routes::new();
    routes.reconcile_learned(1, |index| (index == 0).then_some(learned));
    assert_eq!(routes.iter().len(), 1);
    assert_eq!(routes.learned(&routes.iter()[0]), Some(learned));

    let duplicate = learned.as_interface_route();
    routes.update(|storage| storage.push(duplicate).unwrap());

    assert!(routes
        .iter()
        .iter()
        .all(|route| routes.learned(route).is_none()));

    routes.update(|storage| {
        storage.remove(0);
    });
    routes.reconcile_learned(1, |index| (index == 0).then_some(learned));

    assert_eq!(routes.iter().len(), 1);
    assert_eq!(routes.iter()[0].cidr, duplicate.cidr);
    assert_eq!(routes.iter()[0].via_router, duplicate.via_router);
    assert!(routes.learned(&routes.iter()[0]).is_none());
}

#[test]
fn unrelated_application_update_preserves_unique_learned_slot() {
    let learned = LearnedRoute {
        cidr: cidr_1(),
        via_router: addr_2a(),
        valid_until: Some(Instant::from_millis(100)),
        preference: NdiscRoutePreference::Medium,
        order: 3,
    };
    let configured = Route::new_ipv6_gateway(addr_1a());
    let mut routes = Routes::new();
    routes.reconcile_learned(1, |index| (index == 0).then_some(learned));

    routes.update(|storage| storage.push(configured).unwrap());

    assert_eq!(routes.iter().len(), 2);
    assert_eq!(routes.learned(&routes.iter()[0]), Some(learned));
    assert!(routes.learned(&routes.iter()[1]).is_none());
}

#[test]
fn full_duplicate_identity_table_remains_configured() {
    let learned = LearnedRoute {
        cidr: cidr_1(),
        via_router: addr_2a(),
        valid_until: Some(Instant::from_millis(100)),
        preference: NdiscRoutePreference::High,
        order: 1,
    };
    let configured = learned.as_interface_route();
    let mut routes = Routes::new();
    routes.update(|storage| {
        for _ in 0..IFACE_MAX_ROUTE_COUNT {
            storage.push(configured).unwrap();
        }
    });

    routes.reconcile_learned(1, |index| (index == 0).then_some(learned));

    assert_eq!(routes.iter().len(), IFACE_MAX_ROUTE_COUNT);
    assert!(routes
        .iter()
        .iter()
        .all(|route| routes.learned(route).is_none()));
}

fn learned(n: u16, order: u32) -> LearnedRoute {
    LearnedRoute {
        cidr: Ipv6Cidr::new(Ipv6Address::new(0x2001, 0xdb8, n, 0, 0, 0, 0, 0), 48),
        via_router: addr_2a(),
        valid_until: None,
        preference: NdiscRoutePreference::Medium,
        order,
    }
}

#[test]
fn reconciling_keeps_configured_routes_and_takes_the_first_candidates() {
    let configured = Route::new_ipv4_gateway(Ipv4Address::new(192, 0, 2, 1));
    let mut routes = Routes::new();
    let first: Vec<LearnedRoute> = (1..=3).map(|n| learned(n, n as u32)).collect();
    routes.reconcile_learned(3, |i| first.get(i).copied());
    routes.update(|storage| storage.insert(1, configured).unwrap());
    assert_eq!(routes.iter().len(), 4);

    // One configured route leaves room for three: the second of the old ones
    // stays in its place, and the new ones follow.
    let second = [
        Some(learned(5, 9)),
        None,
        Some(learned(2, 8)),
        Some(learned(6, 7)),
        Some(learned(1, 6)),
    ];
    routes.reconcile_learned(5, |i| second[i]);
    assert_eq!(
        routes.iter(),
        &[
            configured,
            learned(2, 8).as_interface_route(),
            learned(5, 9).as_interface_route(),
            learned(6, 7).as_interface_route(),
        ]
    );
    assert_eq!(routes.learned(&routes.iter()[1]), Some(learned(2, 8)));
    assert_eq!(routes.learned(&routes.iter()[0]), None);

    // The same again changes nothing.
    let before: Vec<Route> = routes.iter().to_vec();
    routes.reconcile_learned(5, |i| second[i]);
    assert_eq!(routes.iter(), before.as_slice());

    // Without candidates, the learned routes leave.
    routes.reconcile_learned(0, |_| None);
    assert_eq!(routes.iter(), &[configured]);
}

#[test]
fn reconciling_updates_the_expiry() {
    let mut routes = Routes::new();
    routes.reconcile_learned(1, |_| Some(learned(1, 1)));
    let mut refreshed = learned(1, 2);
    refreshed.valid_until = Some(Instant::from_secs(5));
    refreshed.preference = NdiscRoutePreference::Low;
    routes.reconcile_learned(1, |_| Some(refreshed));
    assert_eq!(routes.iter().len(), 1);
    assert_eq!(routes.iter()[0].expires_at, Some(Instant::from_secs(5)));
    assert_eq!(routes.learned(&routes.iter()[0]), Some(refreshed));
}

#[test]
fn editing_a_learned_route_makes_it_configured() {
    let mut routes = Routes::new();
    routes.reconcile_learned(2, |i| Some(learned(i as u16, 1)));
    routes.update(|storage| storage[0].expires_at = Some(Instant::from_secs(1)));
    assert_eq!(routes.learned(&routes.iter()[0]), None);
    assert_eq!(routes.learned(&routes.iter()[1]), Some(learned(1, 1)));
    // An edit that changes nothing changes no ownership.
    routes.update(|_| {});
    assert_eq!(routes.learned(&routes.iter()[0]), None);
    assert_eq!(routes.learned(&routes.iter()[1]), Some(learned(1, 1)));
}

#[test]
fn default_routes() {
    let mut routes = Routes::new();
    let a = Ipv4Address::new(192, 0, 2, 1);
    let b = Ipv4Address::new(192, 0, 2, 2);
    assert_eq!(routes.get_default_ipv4_route(), None);
    assert_eq!(routes.add_default_ipv4_route(a), Ok(None));
    assert_eq!(
        routes.add_default_ipv4_route(b),
        Ok(Some(Route::new_ipv4_gateway(a)))
    );
    assert_eq!(routes.add_default_ipv6_route(addr_1a()), Ok(None));
    assert_eq!(
        routes.get_default_ipv4_route(),
        Some(Route::new_ipv4_gateway(b))
    );
    assert_eq!(
        routes.get_default_ipv6_route(),
        Some(Route::new_ipv6_gateway(addr_1a()))
    );
    assert!(routes.iter()[0].is_ipv4_gateway());
    assert!(!routes.iter()[0].is_ipv6_gateway());
    assert!(routes.iter()[1].is_ipv6_gateway());
    assert!(!routes.iter()[1].is_ipv4_gateway());
    let far = IpAddress::Ipv4(Ipv4Address::new(198, 51, 100, 7));
    assert_eq!(routes.lookup(&far, Instant::zero()), Some(b.into()));
    assert_eq!(
        routes.remove_default_ipv4_route(),
        Some(Route::new_ipv4_gateway(b))
    );
    assert_eq!(routes.remove_default_ipv4_route(), None);
    assert_eq!(routes.lookup(&far, Instant::zero()), None);
    assert_eq!(
        routes.remove_default_ipv6_route(),
        Some(Route::new_ipv6_gateway(addr_1a()))
    );
    assert_eq!(routes.iter().len(), 0);
}

#[test]
fn a_full_table_takes_no_default_route() {
    let mut routes = Routes::new();
    routes.reconcile_learned(4, |i| Some(learned(i as u16, 1)));
    assert_eq!(routes.iter().len(), IFACE_MAX_ROUTE_COUNT);
    let gateway = Ipv4Address::new(192, 0, 2, 1);
    assert_eq!(routes.add_default_ipv4_route(gateway), Err(RouteTableFull));
    assert_eq!(
        routes.add_default_ipv6_route(addr_1a()),
        Err(RouteTableFull)
    );
    assert_eq!(routes.iter().len(), IFACE_MAX_ROUTE_COUNT);
    assert_eq!(RouteTableFull.message(), "Route table full");
}

#[test]
fn lookup_takes_the_last_of_the_most_specific_routes() {
    let mut routes = Routes::new();
    let net = |a: u8, len: u8, via: u8| Route {
        cidr: IpCidr::Ipv4(Ipv4Cidr::new(Ipv4Address::new(10, a, 0, 0), len)),
        via_router: Ipv4Address::new(192, 0, 2, via).into(),
        preferred_until: None,
        expires_at: None,
    };
    routes.update(|storage| {
        storage.push(net(0, 8, 1)).unwrap();
        storage.push(net(1, 16, 2)).unwrap();
        storage.push(net(1, 16, 3)).unwrap();
        storage.push(net(0, 0, 4)).unwrap();
    });
    let look = |a: u8, b: u8| {
        routes.lookup(
            &IpAddress::Ipv4(Ipv4Address::new(a, b, 0, 9)),
            Instant::zero(),
        )
    };
    assert_eq!(look(10, 1), Some(Ipv4Address::new(192, 0, 2, 3).into()));
    assert_eq!(look(10, 2), Some(Ipv4Address::new(192, 0, 2, 1).into()));
    assert_eq!(look(11, 1), Some(Ipv4Address::new(192, 0, 2, 4).into()));
}

#[test]
fn networks_contain_their_addresses() {
    let cidr = Ipv6Cidr::new(Ipv6Address::new(0x2001, 0xdb8, 0x1ff, 0, 0, 0, 0, 0), 41);
    let at = |n: u16| Ipv6Address::new(0x2001, 0xdb8, n, 0, 0, 0, 0, 5);
    assert!(cidr.contains_addr(&at(0x180)));
    assert!(cidr.contains_addr(&at(0x1ff)));
    assert!(!cidr.contains_addr(&at(0x17f)));
    assert!(!cidr.contains_addr(&at(0x200)));
    assert!(Ipv6Cidr::new(at(1), 0).contains_addr(&addr_1a()));
    assert!(!Ipv6Cidr::new(at(1), 128).contains_addr(&at(2)));
    assert!(!IpCidr::Ipv6(Ipv6Cidr::new(at(1), 0))
        .contains_addr(&Ipv4Address::new(1, 2, 3, 4).into()));
    assert_eq!(
        at(0x1ff).mask(41),
        Ipv6Address::new(0x2001, 0xdb8, 0x180, 0, 0, 0, 0, 0)
    );
    assert_eq!(at(0x1ff).mask(0), Ipv6Address::unspecified());
    assert_eq!(at(0x1ff).mask(128), at(0x1ff));
}

#[test]
fn no_candidate_is_asked_for_without_room() {
    let mut routes = Routes::new();
    routes.update(|storage| {
        for n in 0..IFACE_MAX_ROUTE_COUNT {
            storage
                .push(learned(n as u16, 0).as_interface_route())
                .unwrap();
        }
    });
    routes.reconcile_learned(3, |_| panic!("there is no room"));
    assert_eq!(routes.iter().len(), IFACE_MAX_ROUTE_COUNT);

    // With room for two, the third that no configured route stands in for is
    // not asked for.
    routes.update(|storage| {
        storage.truncate(2);
    });
    let asked = std::cell::RefCell::new(Vec::new());
    routes.reconcile_learned(9, |i| {
        asked.borrow_mut().push(i);
        (i != 2).then_some(learned(i as u16, 1))
    });
    assert_eq!(asked.into_inner(), vec![0, 1, 2, 3, 4]);
    assert_eq!(routes.iter().len(), IFACE_MAX_ROUTE_COUNT);
    assert_eq!(routes.learned(&routes.iter()[2]), Some(learned(3, 1)));
    assert_eq!(routes.learned(&routes.iter()[3]), Some(learned(4, 1)));
}
