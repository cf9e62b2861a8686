use ipv6_nd::config::IFACE_MAX_ROUTE_COUNT;
use ipv6_nd::time::Duration;
use ipv6_nd::wire::hwaddr::{EthernetAddress, RawHardwareAddress};
use ipv6_nd::wire::icmpv6::{Message, Packet};
use ipv6_nd::wire::ip::Ipv6Address;
use ipv6_nd::wire::ipv6::Ipv6Repr;
use ipv6_nd::wire::message::{ChecksumCapabilities, Icmpv6Repr};
use ipv6_nd::wire::ndisc::{NeighborFlags, Repr, RouteInformationList, RouterFlags};
use ipv6_nd::wire::ndiscoption::{
    check_option, NdiscOptionRepr, NdiscPrefixInfoFlags, NdiscPrefixInformation,
    NdiscRedirectedHeader, NdiscRouteInformation, NdiscRouteInformationList, NdiscRoutePreference,
};
use ipv6_nd::wire::Error;

fn mock_1() -> Ipv6Address {
    Ipv6Address::new(0xfe80, 0, 0, 0, 0, 0, 0, 1)
}
fn mock_2() -> Ipv6Address {
    Ipv6Address::new(0xfe80, 0, 0, 0, 0, 0, 0, 2)
}
fn managed() -> RouterFlags {
    RouterFlags::from_bits_truncate(RouterFlags::MANAGED)
}

const ROUTER_ADVERT_BYTES: [u8; 24] = [
    0x86, 0x00, 0xa9, 0xde, 0x40, 0x80, 0x03, 0x84, 0x00, 0x00, 0x03, 0x84, 0x00, 0x00, 0x03, 0x84,
    0x01, 0x01, 0x52, 0x54, 0x00, 0x12, 0x34, 0x56,
];
const SOURCE_LINK_LAYER_OPT: [u8; 8] = [0x01, 0x01, 0x52, 0x54, 0x00, 0x12, 0x34, 0x56];

fn lladdr() -> RawHardwareAddress {
    EthernetAddress([0x52, 0x54, 0x00, 0x12, 0x34, 0x56]).into()
}

fn create_repr<'a>() -> Icmpv6Repr<'a> {
    Icmpv6Repr::Ndisc(Repr::RouterAdvert {
        hop_limit: 64,
        flags: managed(),
        preference: NdiscRoutePreference::Medium,
        router_lifetime: Duration::from_secs(900),
        reachable_time: Duration::from_millis(900),
        retrans_time: Duration::from_millis(900),
        lladdr: Some(lladdr()),
        mtu: None,
        prefix_info: None,
        route_info: RouteInformationList::new(),
    })
}

#[test]
fn test_router_advert_deconstruct() {
    let packet = Packet::new_unchecked(&ROUTER_ADVERT_BYTES[..]);
    assert_eq!(packet.msg_type(), Message::RouterAdvert);
    assert_eq!(packet.msg_code(), 0);
    assert_eq!(packet.current_hop_limit(), 64);
    assert_eq!(packet.router_flags(), managed());
    assert_eq!(packet.router_preference(), NdiscRoutePreference::Medium);
    assert_eq!(packet.router_lifetime(), Duration::from_secs(900));
    assert_eq!(packet.reachable_time(), Duration::from_millis(900));
    assert_eq!(packet.retrans_time(), Duration::from_millis(900));
    assert_eq!(packet.payload(), &SOURCE_LINK_LAYER_OPT[..]);
}

#[test]
fn test_router_advert_construct() {
    let mut bytes = vec![0x0; 24];
    let mut packet = Packet::new_unchecked(&mut bytes[..]);
    packet.set_msg_type(Message::RouterAdvert);
    packet.set_msg_code(0);
    packet.set_current_hop_limit(64);
    packet.set_router_flags(managed());
    packet.set_router_preference(NdiscRoutePreference::Medium);
    packet.set_router_lifetime(Duration::from_secs(900));
    packet.set_reachable_time(Duration::from_millis(900));
    packet.set_retrans_time(Duration::from_millis(900));
    packet
        .payload_mut()
        .copy_from_slice(&SOURCE_LINK_LAYER_OPT[..]);
    packet.fill_checksum(&mock_1(), &mock_2());
    assert_eq!(&*packet.into_inner(), &ROUTER_ADVERT_BYTES[..]);
}

#[test]
fn test_router_advert_preference() {
    let mut bytes = ROUTER_ADVERT_BYTES;
    let mut packet = Packet::new_unchecked(&mut bytes[..]);
    packet.set_router_preference(NdiscRoutePreference::High);
    packet.set_router_flags(managed());
    assert_eq!(packet.router_flags(), managed());
    assert_eq!(packet.router_preference(), NdiscRoutePreference::High);

    let packet = Packet::new_unchecked(&bytes[..]);
    assert!(matches!(
        Repr::parse(&packet),
        Ok(Repr::RouterAdvert {
            preference: NdiscRoutePreference::High,
            ..
        })
    ));

    let mut packet = Packet::new_unchecked(&mut bytes[..]);
    packet.set_router_preference(NdiscRoutePreference::Unknown(2));
    assert_eq!(packet.router_preference(), NdiscRoutePreference::Medium);

    bytes[5] = managed().bits() | (2 << 3);
    let packet = Packet::new_unchecked(&bytes[..]);
    assert!(matches!(
        Repr::parse(&packet),
        Ok(Repr::RouterAdvert {
            preference: NdiscRoutePreference::Medium,
            ..
        })
    ));

    bytes[5] = managed().bits() | (1 << 3);
    bytes[6..8].fill(0);
    let packet = Packet::new_unchecked(&bytes[..]);
    assert!(matches!(
        Repr::parse(&packet),
        Ok(Repr::RouterAdvert {
            preference: NdiscRoutePreference::Medium,
            ..
        })
    ));

    let repr = Repr::RouterAdvert {
        hop_limit: 64,
        flags: managed(),
        preference: NdiscRoutePreference::High,
        router_lifetime: Duration::zero(),
        reachable_time: Duration::zero(),
        retrans_time: Duration::zero(),
        lladdr: None,
        mtu: None,
        prefix_info: None,
        route_info: RouteInformationList::new(),
    };
    let mut bytes = [0; 16];
    let mut packet = Packet::new_unchecked(&mut bytes[..]);
    repr.emit(&mut packet);
    assert_eq!(packet.router_preference(), NdiscRoutePreference::Medium);
}

#[test]
fn test_router_advert_repr_parse() {
    let packet = Packet::new_unchecked(&ROUTER_ADVERT_BYTES[..]);
    assert_eq!(
        Icmpv6Repr::parse(
            &mock_1(),
            &mock_2(),
            &packet,
            &ChecksumCapabilities::default()
        )
        .unwrap(),
        create_repr()
    );
}

#[test]
fn test_router_advert_repr_emit() {
    let mut bytes = [0x2a; 24];
    let mut packet = Packet::new_unchecked(&mut bytes[..]);
    create_repr().emit(
        &mock_1(),
        &mock_2(),
        &mut packet,
        &ChecksumCapabilities::default(),
    );
    assert_eq!(&*packet.into_inner(), &ROUTER_ADVERT_BYTES[..]);
}

#[test]
fn test_router_advert_ignores_malformed_route_info() {
    let mut bytes = [0; 64];
    let mut packet = Packet::new_unchecked(&mut bytes[..]);
    packet.set_msg_type(Message::RouterAdvert);
    packet.set_msg_code(0);
    packet.set_current_hop_limit(64);
    packet.set_router_flags(managed());
    packet.set_router_preference(NdiscRoutePreference::High);
    packet.set_router_lifetime(Duration::from_secs(900));

    // Length 4 is not a valid length for a route, but it is nonzero and fully
    // present. The valid option following it must still be processed.
    packet.payload_mut()[..8].copy_from_slice(&[0x18, 0x04, 0x40, 0, 0, 0, 0x07, 0x08]);
    packet.payload_mut()[32..48].copy_from_slice(&[
        0x18, 0x02, 0x40, 0x08, 0x00, 0x00, 0x07, 0x08, 0x20, 0x01, 0x0d, 0xb8, 0x00, 0x00, 0x00,
        0x00,
    ]);

    let packet = Packet::new_unchecked(&bytes[..]);
    assert!(matches!(
        Repr::parse(&packet),
        Ok(Repr::RouterAdvert {
            preference: NdiscRoutePreference::High,
            route_info,
            ..
        }) if matches!(
            route_info.iter().into_iter().next(),
            Some(NdiscRouteInformation {
                prefix_len: 64,
                preference: NdiscRoutePreference::High,
                ..
            })
        )
    ));
}

#[test]
fn test_router_advert_multiple_route_info() {
    let first = NdiscRouteInformation {
        prefix_len: 64,
        preference: NdiscRoutePreference::High,
        route_lifetime: Duration::from_secs(1800),
        prefix: Ipv6Address::new(0x2001, 0xdb8, 1, 0, 0, 0, 0, 0),
    };
    let second = NdiscRouteInformation {
        prefix_len: 120,
        preference: NdiscRoutePreference::Low,
        route_lifetime: Duration::from_secs(900),
        prefix: Ipv6Address::new(0x2001, 0xdb8, 2, 0, 0, 0, 0, 0xff00),
    };
    let mut route_info = RouteInformationList::from(first);
    route_info.push(second).unwrap();
    let repr = Icmpv6Repr::Ndisc(Repr::RouterAdvert {
        hop_limit: 64,
        flags: RouterFlags::empty(),
        preference: NdiscRoutePreference::High,
        router_lifetime: Duration::from_secs(900),
        reachable_time: Duration::zero(),
        retrans_time: Duration::zero(),
        lladdr: None,
        mtu: None,
        prefix_info: None,
        route_info,
    });
    let mut bytes = vec![0; repr.buffer_len()];
    let mut packet = Packet::new_unchecked(&mut bytes[..]);
    repr.emit(
        &mock_1(),
        &mock_2(),
        &mut packet,
        &ChecksumCapabilities::default(),
    );
    let packet = Packet::new_unchecked(&bytes[..]);

    assert_eq!(
        Icmpv6Repr::parse(
            &mock_1(),
            &mock_2(),
            &packet,
            &ChecksumCapabilities::default()
        ),
        Ok(repr)
    );
}

#[test]
fn test_route_information_list_validation_and_replacement() {
    let base = NdiscRouteInformation {
        prefix_len: 53,
        preference: NdiscRoutePreference::Low,
        route_lifetime: Duration::from_secs(900),
        prefix: Ipv6Address::new(0x2001, 0xdb8, 1, 0xa800, 0, 0, 0, 1),
    };
    let mut list = RouteInformationList::from(base);

    let higher_duplicate = NdiscRouteInformation {
        preference: NdiscRoutePreference::High,
        prefix: Ipv6Address::new(0x2001, 0xdb8, 1, 0xafff, 0, 0, 0, 2),
        ..base
    };
    assert_eq!(list.push(higher_duplicate), Ok(()));
    assert_eq!(list.iter().len(), 1);
    assert_eq!(list.iter().first().copied(), Some(higher_duplicate));

    let lower_duplicate = NdiscRouteInformation {
        preference: NdiscRoutePreference::Medium,
        ..base
    };
    assert_eq!(list.push(lower_duplicate), Err(lower_duplicate));

    let withdrawal = NdiscRouteInformation {
        route_lifetime: Duration::zero(),
        ..base
    };
    assert_eq!(list.push(withdrawal), Ok(()));
    assert_eq!(list.iter().first().copied(), Some(withdrawal));

    let invalid_prefix = NdiscRouteInformation {
        prefix_len: 129,
        ..base
    };
    assert_eq!(list.push(invalid_prefix), Err(invalid_prefix));
    let invalid_preference = NdiscRouteInformation {
        preference: NdiscRoutePreference::Unknown(2),
        ..base
    };
    assert_eq!(list.push(invalid_preference), Err(invalid_preference));
}

fn route(index: u16, lifetime: Duration) -> NdiscRouteInformation {
    NdiscRouteInformation {
        prefix_len: 64,
        preference: NdiscRoutePreference::Medium,
        route_lifetime: lifetime,
        prefix: Ipv6Address::new(0x2001, 0xdb8, index, 0, 0, 0, 0, 0),
    }
}

#[test]
fn test_route_information_list_retains_withdrawal_when_full() {
    let mut list = RouteInformationList::new();
    for index in 1..=IFACE_MAX_ROUTE_COUNT as u16 {
        list.push(route(index, Duration::from_secs(900))).unwrap();
    }

    let withdrawal = route(0xff, Duration::zero());
    assert_eq!(list.push(withdrawal), Ok(()));
    assert_eq!(list.iter().len(), IFACE_MAX_ROUTE_COUNT);
    assert_eq!(list.iter().first().copied(), Some(withdrawal));
    assert!(!list
        .iter()
        .iter()
        .any(|entry| entry.prefix == route(1, Duration::zero()).prefix));
}

#[test]
fn a_list_of_withdrawals_takes_no_other_route() {
    let mut list = RouteInformationList::default();
    for index in 1..=IFACE_MAX_ROUTE_COUNT as u16 {
        list.push(route(index, Duration::zero())).unwrap();
    }
    let lasting = route(9, Duration::from_secs(1));
    assert_eq!(list.push(lasting), Err(lasting));
    let withdrawal = route(9, Duration::zero());
    assert_eq!(list.push(withdrawal), Err(withdrawal));
    // Only a stronger preference for one of them takes its place.
    let alike = route(2, Duration::from_secs(1));
    assert_eq!(list.push(alike), Err(alike));
    let mut stronger = route(2, Duration::from_secs(1));
    stronger.preference = NdiscRoutePreference::High;
    assert_eq!(list.push(stronger), Ok(()));
    assert_eq!(list.iter()[1], stronger);
    assert_eq!(list.iter().len(), IFACE_MAX_ROUTE_COUNT);
}

#[test]
fn a_stronger_duplicate_replaces_a_withdrawal() {
    let withdrawal = NdiscRouteInformation {
        prefix_len: 64,
        preference: NdiscRoutePreference::Low,
        route_lifetime: Duration::zero(),
        prefix: Ipv6Address::new(0x2001, 0xdb8, 0, 0, 0, 0, 0, 0),
    };
    let stronger = NdiscRouteInformation {
        preference: NdiscRoutePreference::High,
        route_lifetime: Duration::from_secs(900),
        ..withdrawal
    };
    let mut list = RouteInformationList::from(withdrawal);
    assert_eq!(list.push(stronger), Ok(()));
    assert_eq!(list.iter(), vec![stronger]);
}

#[test]
fn both_readers_see_the_same_routes() {
    let mut weaker = route(1, Duration::from_secs(5));
    weaker.preference = NdiscRoutePreference::Low;
    let entries = [
        weaker,
        route(2, Duration::from_secs(6)),
        route(1, Duration::from_secs(7)),
        weaker,
    ];
    let mut bytes = vec![0; 16 + 64];
    bytes[0] = 0x86;
    for (i, entry) in entries.iter().enumerate() {
        NdiscOptionRepr::RouteInformation(*entry).emit(&mut bytes[..], 16 + 16 * i);
    }
    let packet = Packet::new_unchecked(&bytes[..]);
    let carried = NdiscRouteInformationList::parse(packet.payload()).unwrap();
    assert_eq!(carried.iter(), &entries[..]);
    let mut offered = RouteInformationList::new();
    for entry in carried.iter() {
        let _ = offered.push(*entry);
    }
    assert!(matches!(
        Repr::parse(&packet),
        Ok(Repr::RouterAdvert { route_info, .. }) if route_info == offered
    ));
    assert_eq!(offered.iter(), vec![entries[2], entries[1]]);
}

fn round_trip(repr: Repr) -> Vec<u8> {
    let mut bytes = vec![0x55; repr.buffer_len()];
    let mut packet = Packet::new_unchecked(&mut bytes[..]);
    repr.emit(&mut packet);
    bytes
}

#[test]
fn router_advert_with_every_option() {
    let repr = Repr::RouterAdvert {
        hop_limit: 255,
        flags: RouterFlags {
            managed: true,
            other: true,
        },
        preference: NdiscRoutePreference::Low,
        router_lifetime: Duration::from_secs(0xffff),
        reachable_time: Duration::from_millis(0xffff_ffff),
        retrans_time: Duration::from_millis(1),
        lladdr: Some(lladdr()),
        mtu: Some(1280),
        prefix_info: Some(NdiscPrefixInformation {
            prefix_len: 64,
            flags: NdiscPrefixInfoFlags {
                on_link: true,
                addrconf: true,
            },
            valid_lifetime: Duration::from_secs(900),
            preferred_lifetime: Duration::from_secs(800),
            prefix: Ipv6Address::new(0xfe80, 0, 0, 0, 0, 0, 0, 1),
        }),
        route_info: RouteInformationList::from(route(7, Duration::from_secs(1800))),
    };
    let bytes = round_trip(repr);
    assert_eq!(
        bytes,
        vec![
            0x86, 0x00, 0x55, 0x55, 0xff, 0xd8, 0xff, 0xff, 0xff, 0xff, 0xff, 0xff, 0x00, 0x00,
            0x00, 0x01, // header
            0x01, 0x01, 0x52, 0x54, 0x00, 0x12, 0x34, 0x56, // address
            0x05, 0x01, 0x00, 0x00, 0x00, 0x00, 0x05, 0x00, // packet size
            0x03, 0x04, 0x40, 0xc0, 0x00, 0x00, 0x03, 0x84, 0x00, 0x00, 0x03, 0x20, 0x00, 0x00,
            0x00, 0x00, 0xfe, 0x80, 0, 0, 0, 0, 0, 0, 0, 0, 0, 0, 0, 0, 0, 1, // prefix
            0x18, 0x02, 0x40, 0x00, 0x00, 0x00, 0x07, 0x08, 0x20, 0x01, 0x0d, 0xb8, 0x00, 0x07,
            0x00, 0x00, // route
        ]
    );
    assert_eq!(Repr::parse(&Packet::new_unchecked(&bytes[..])), Ok(repr));
}

#[test]
fn neighbor_messages_round_trip() {
    let solicit = Repr::NeighborSolicit {
        target_addr: mock_1(),
        lladdr: Some(lladdr()),
    };
    let bytes = round_trip(solicit);
    assert_eq!(bytes.len(), 32);
    assert_eq!(&bytes[4..8], &[0, 0, 0, 0]);
    assert_eq!(&bytes[24..], &SOURCE_LINK_LAYER_OPT[..]);
    assert_eq!(Repr::parse(&Packet::new_unchecked(&bytes[..])), Ok(solicit));

    let advert = Repr::NeighborAdvert {
        flags: NeighborFlags::from_bits_truncate(
            NeighborFlags::SOLICITED | NeighborFlags::OVERRIDE | 1,
        ),
        target_addr: mock_2(),
        lladdr: Some(lladdr()),
    };
    let bytes = round_trip(advert);
    assert_eq!(bytes[4], 0x60);
    assert_eq!(bytes[24], 2);
    assert_eq!(Repr::parse(&Packet::new_unchecked(&bytes[..])), Ok(advert));

    let none = Repr::NeighborAdvert {
        flags: NeighborFlags::empty(),
        target_addr: mock_2(),
        lladdr: None,
    };
    let bytes = round_trip(none);
    assert_eq!(bytes.len(), 24);
    assert_eq!(Repr::parse(&Packet::new_unchecked(&bytes[..])), Ok(none));

    let solicit = Repr::RouterSolicit {
        lladdr: Some(lladdr()),
    };
    let bytes = round_trip(solicit);
    assert_eq!(bytes.len(), 16);
    assert_eq!(Repr::parse(&Packet::new_unchecked(&bytes[..])), Ok(solicit));
    assert_eq!(round_trip(Repr::RouterSolicit { lladdr: None }).len(), 8);
}

#[test]
fn redirect_round_trip() {
    let data = [1, 2, 3, 4, 5, 6, 7, 8];
    let header = Ipv6Repr {
        src_addr: mock_1(),
        dst_addr: mock_2(),
        next_header: 17,
        payload_len: 8,
        hop_limit: 3,
    };
    let redirect = Repr::Redirect {
        target_addr: mock_1(),
        dest_addr: mock_2(),
        lladdr: None,
        redirected_hdr: Some(NdiscRedirectedHeader {
            header,
            data: &data[..],
        }),
    };
    let bytes = round_trip(redirect);
    assert_eq!(bytes.len(), 40 + 56);
    assert_eq!(&bytes[40..48], &[4, 7, 0, 0, 0, 0, 0, 0]);
    assert_eq!(&bytes[48..56], &[0x60, 0, 0, 0, 0, 8, 17, 3]);
    assert_eq!(
        Repr::parse(&Packet::new_unchecked(&bytes[..])),
        Ok(redirect)
    );

    // The address of the target is sent but not taken note of.
    let with_address = Repr::Redirect {
        target_addr: mock_1(),
        dest_addr: mock_2(),
        lladdr: Some(lladdr()),
        redirected_hdr: None,
    };
    let bytes = round_trip(with_address);
    assert_eq!(&bytes[40..42], &[2, 1]);
    assert_eq!(
        Repr::parse(&Packet::new_unchecked(&bytes[..])),
        Ok(Repr::Redirect {
            target_addr: mock_1(),
            dest_addr: mock_2(),
            lladdr: None,
            redirected_hdr: None,
        })
    );
}

#[test]
fn malformed_messages_are_errors() {
    let parse = |bytes: &[u8]| Repr::parse(&Packet::new_unchecked(bytes)).is_err();
    // Too short for a type, and for the header of each type.
    assert!(parse(&[]));
    assert!(parse(&[0x85, 0, 0, 0, 0, 0, 0]));
    assert!(parse(&ROUTER_ADVERT_BYTES[..15]));
    assert!(parse(&[0x87; 23]));
    assert!(parse(&[0x88; 23]));
    assert!(parse(&[0x89; 39]));
    // Another type.
    assert!(parse(&[0x80, 0, 0, 0, 0, 0, 0, 0]));
    // An option that is cut off, one of length zero, and ones too short for
    // what they are to hold.
    assert!(parse(&ROUTER_ADVERT_BYTES[..23]));
    let mut bytes = ROUTER_ADVERT_BYTES;
    bytes[17] = 0;
    assert!(parse(&bytes));
    bytes[17] = 2;
    assert!(parse(&bytes));
    bytes[17] = 1;
    assert!(!parse(&bytes));
    bytes[16] = 3;
    assert!(parse(&bytes));
    bytes[16] = 4;
    assert!(parse(&bytes));
    // An option of an unknown type is passed over.
    bytes[16] = 99;
    assert!(!parse(&bytes));
    assert_eq!(check_option(&bytes[16..]), Ok(8));
    assert_eq!(check_option(&bytes[16..20]), Err(Error));
    assert!(Packet::new_checked(&ROUTER_ADVERT_BYTES[..]).is_ok());
    assert!(Packet::new_checked(&ROUTER_ADVERT_BYTES[..12]).is_err());
}

#[test]
fn a_wrong_checksum_is_an_error() {
    let mut bytes = ROUTER_ADVERT_BYTES;
    bytes[4] ^= 1;
    let caps = ChecksumCapabilities::default();
    let packet = Packet::new_unchecked(&bytes[..]);
    assert!(!packet.verify_checksum(&mock_1(), &mock_2()));
    assert_eq!(
        Icmpv6Repr::parse(&mock_1(), &mock_2(), &packet, &caps),
        Err(Error)
    );
    let unchecked = ChecksumCapabilities {
        icmpv6_tx: false,
        icmpv6_rx: false,
    };
    assert!(Icmpv6Repr::parse(&mock_1(), &mock_2(), &packet, &unchecked).is_ok());

    let mut sent = [0x2a; 24];
    let mut packet = Packet::new_unchecked(&mut sent[..]);
    create_repr().emit(&mock_1(), &mock_2(), &mut packet, &unchecked);
    assert_eq!(packet.checksum(), 0);
    packet.fill_checksum(&mock_1(), &mock_2());
    assert_eq!(packet.checksum(), 0xa9de);
    assert!(packet.verify_checksum(&mock_1(), &mock_2()));
}

#[test]
fn route_options_are_read_and_written() {
    let emit = |r: NdiscRouteInformation| {
        let option = NdiscOptionRepr::RouteInformation(r);
        let mut bytes = vec![0xee; option.buffer_len()];
        option.emit(&mut bytes[..], 0);
        bytes
    };
    // Host bits are cleared, and only as much of the prefix is sent as counts.
    let mut r = route(1, NdiscRouteInformation::infinite_lifetime());
    r.prefix = Ipv6Address::new(0x2001, 0xdb8, 0xffff, 0xffff, 0xffff, 0, 0, 1);
    r.prefix_len = 33;
    r.preference = NdiscRoutePreference::Low;
    let bytes = emit(r);
    assert_eq!(
        bytes,
        vec![0x18, 2, 33, 0x18, 0xff, 0xff, 0xff, 0xff, 0x20, 1, 0x0d, 0xb8, 0x80, 0, 0, 0]
    );
    let mut masked = r;
    masked.prefix = r.prefix.mask(33);
    assert_eq!(
        NdiscOptionRepr::parse(&bytes),
        Ok(NdiscOptionRepr::RouteInformation(masked))
    );
    assert!(masked.has_infinite_lifetime());
    assert!(masked.same_prefix(&r));

    r.prefix_len = 0;
    assert_eq!(emit(r).len(), 8);
    r.prefix_len = 65;
    assert_eq!(emit(r).len(), 24);
    // Lengths that do not fit the prefix.
    assert_eq!(
        NdiscOptionRepr::parse(&[0x18, 1, 1, 0, 0, 0, 0, 1]),
        Err(Error)
    );
    let mut long = [0u8; 24];
    long[0] = 0x18;
    long[1] = 3;
    long[2] = 129;
    assert_eq!(NdiscOptionRepr::parse(&long), Err(Error));
    long[2] = 3;
    assert!(NdiscOptionRepr::parse(&long).is_ok());
}

#[test]
fn carried_routes_keep_their_order_and_repetitions() {
    let entries = [
        route(1, Duration::from_secs(5)),
        route(1, Duration::zero()),
        route(2, Duration::from_secs(6)),
    ];
    let mut bytes = vec![0; 48];
    for (i, entry) in entries.iter().enumerate() {
        NdiscOptionRepr::RouteInformation(*entry).emit(&mut bytes[..], 16 * i);
    }
    let list = NdiscRouteInformationList::parse(&bytes).unwrap();
    assert_eq!(list.iter(), &entries[..]);
    // A reserved preference is left out, a broken option is an error.
    bytes[3] = 0x10;
    let list = NdiscRouteInformationList::parse(&bytes).unwrap();
    assert_eq!(list.iter(), &entries[1..]);
    bytes[33] = 0;
    assert!(NdiscRouteInformationList::parse(&bytes).is_err());
    let mut invalid = entries[0];
    invalid.prefix_len = 200;
    assert!(NdiscRouteInformationList::try_from(&[invalid]).is_err());
}

#[test]
fn addresses_of_less_than_full_length_are_padded() {
    let short = RawHardwareAddress::from_bytes(&[1, 2]);
    assert_eq!(short.as_bytes(), vec![1, 2]);
    let option = NdiscOptionRepr::TargetLinkLayerAddr(short);
    let mut bytes = vec![0xee; 9];
    option.emit(&mut bytes[..], 1);
    assert_eq!(bytes, vec![0xee, 2, 1, 1, 2, 0, 0, 0, 0]);
}

#[test]
fn durations_are_cut_to_their_fields() {
    let mut bytes = [0; 24];
    let mut packet = Packet::new_unchecked(&mut bytes[..]);
    packet.set_router_lifetime(Duration::from_secs(0x1_0002));
    assert_eq!(packet.router_lifetime(), Duration::from_secs(2));
    packet.set_reachable_time(Duration::from_millis(0x1_0000_0003));
    assert_eq!(packet.reachable_time(), Duration::from_millis(3));
    packet.set_retrans_time(Duration { micros: 4999 });
    assert_eq!(packet.retrans_time(), Duration::from_millis(4));
}

#[test]
fn header_fields_are_set_and_read() {
    let mut bytes = [0; 40];
    let mut packet = Packet::new_unchecked(&mut bytes[..]);
    packet.set_msg_type(Message::Redirect);
    packet.set_target_addr(mock_1());
    packet.set_dest_addr(mock_2());
    packet.set_neighbor_flags(NeighborFlags::from_bits_truncate(NeighborFlags::ROUTER));
    assert_eq!(packet.target_addr(), mock_1());
    assert_eq!(packet.dest_addr(), mock_2());
    assert_eq!(
        packet.neighbor_flags(),
        NeighborFlags {
            router: true,
            solicited: false,
            overrides: false
        }
    );
    assert_eq!(packet.header_len(), 40);
    packet.clear_reserved();
    assert_eq!(packet.neighbor_flags(), NeighborFlags::empty());
}
