use bmp_rib::attrs::RouteAttrs;
use bmp_rib::bmp::process_bmp_message;
use bmp_rib::bmp::table_selector_for_peer;
use bmp_rib::bmp::BmpMessage;
use bmp_rib::bmp::PeerHeader;
use bmp_rib::net::IpAddress;
use bmp_rib::net::IpNet;
use bmp_rib::net::Ipv4Address;
use bmp_rib::net::Ipv4Net;
use bmp_rib::query::Query;
use bmp_rib::rd::RouteDistinguisher;
use bmp_rib::store::Client;
use bmp_rib::store::InMemoryStore;
use bmp_rib::store::RouteState;
use bmp_rib::store::SocketAddr;
use bmp_rib::store::TableType;
use bmp_rib::table::NetQuery;
use bmp_rib::translate::BgpAddrs;
use bmp_rib::translate::BgpAttrItem;
use bmp_rib::translate::BgpUpdateMessage;
use bmp_rib::translate::Ipv4Nlri;

fn v4(a: u8, b: u8, c: u8, d: u8, len: u8) -> IpNet {
    IpNet::V4(Ipv4Net {
        addr: u32::from_be_bytes([a, b, c, d]),
        prefix_len: len,
    })
}

fn client_addr() -> SocketAddr {
    SocketAddr {
        ip: IpAddress::V4(Ipv4Address::from_octets(127, 0, 0, 1)),
        port: 11019,
    }
}

fn register_client(store: &mut InMemoryStore) {
    store.client_up(
        client_addr(),
        RouteState::Seen,
        Client {
            client_name: String::from("r1"),
            router_id: Ipv4Address::from_octets(10, 0, 0, 1),
        },
    );
}

#[test]
fn peer_type_and_flags_select_the_table() {
    let peer = |peer_type: u8, flags: u8| PeerHeader {
        peer_type,
        flags,
        peer_address: IpAddress::V4(Ipv4Address::from_octets(192, 0, 2, 1)),
    };
    let sel = table_selector_for_peer(client_addr(), &peer(0, 0), RouteState::Selected).unwrap();
    assert_eq!(sel.table_type, TableType::PrePolicyAdjIn);
    let sel = table_selector_for_peer(client_addr(), &peer(0, 1), RouteState::Selected).unwrap();
    assert_eq!(sel.table_type, TableType::PostPolicyAdjIn);
    let sel = table_selector_for_peer(client_addr(), &peer(3, 0), RouteState::Selected).unwrap();
    assert_eq!(
        sel.table_type,
        TableType::LocRib {
            route_state: RouteState::Selected
        }
    );
    assert!(table_selector_for_peer(client_addr(), &peer(1, 0), RouteState::Selected).is_none());
    assert!(table_selector_for_peer(client_addr(), &peer(2, 0), RouteState::Selected).is_none());
}

#[test]
fn route_monitoring_end_to_end() {
    let mut store = InMemoryStore::new();
    register_client(&mut store);
    let msg = BmpMessage::RouteMonitoring {
        peer: PeerHeader {
            peer_type: 0,
            flags: 0,
            peer_address: IpAddress::V4(Ipv4Address::from_octets(192, 0, 2, 1)),
        },
        update: BgpUpdateMessage {
            attrs: vec![BgpAttrItem::AsPath {
                value: vec![65001, 65002],
            }],
            updates: BgpAddrs::Ipv4(vec![Ipv4Nlri {
                rd_high: 0,
                rd_low: 0,
                path_id: 0,
                addr: u32::from_be_bytes([192, 0, 2, 0]),
                prefix_len: 24,
            }]),
            withdraws: BgpAddrs::Unsupported,
        },
    };
    let terminated = process_bmp_message(&mut store, client_addr(), msg, RouteState::Selected);
    assert!(!terminated);

    let q = Query {
        table_query: None,
        net_query: NetQuery::Exact(v4(192, 0, 2, 0, 24)),
        limits: None,
        as_path_regex: None,
        route_distinguisher: RouteDistinguisher::Default,
    };
    let results = store.get_routes(&q).unwrap();
    assert_eq!(results.len(), 1);
    assert_eq!(results[0].state, RouteState::Seen);
    assert_eq!(results[0].attrs.as_path, Some(vec![65001, 65002]));
    assert_eq!(results[0].table.table_type, TableType::PrePolicyAdjIn);
}

#[test]
fn vpn_nlri_carries_its_own_distinguisher() {
    let mut store = InMemoryStore::new();
    register_client(&mut store);
    let msg = BmpMessage::RouteMonitoring {
        peer: PeerHeader {
            peer_type: 0,
            flags: 0,
            peer_address: IpAddress::V4(Ipv4Address::from_octets(192, 0, 2, 1)),
        },
        update: BgpUpdateMessage {
            attrs: vec![BgpAttrItem::MpUpdates {
                nexthop: Some(IpAddress::V4(Ipv4Address::from_octets(198, 51, 100, 1))),
                // wire type zero, ASN 100, value 1
                addrs: BgpAddrs::Ipv4(vec![Ipv4Nlri {
                    rd_high: 100,
                    rd_low: 1,
                    path_id: 0,
                    addr: u32::from_be_bytes([10, 0, 0, 0]),
                    prefix_len: 24,
                }]),
            }],
            updates: BgpAddrs::Unsupported,
            withdraws: BgpAddrs::Unsupported,
        },
    };
    process_bmp_message(&mut store, client_addr(), msg, RouteState::Selected);

    // the entry lives under the distinguisher from the NLRI, not the table's
    let q = Query {
        table_query: None,
        net_query: NetQuery::Exact(v4(10, 0, 0, 0, 24)),
        limits: None,
        as_path_regex: None,
        route_distinguisher: RouteDistinguisher::Type0 { asn: 100, value: 1 },
    };
    let results = store.get_routes(&q).unwrap();
    assert_eq!(results.len(), 1);
    assert_eq!(
        results[0].table.route_distinguisher,
        RouteDistinguisher::Type0 { asn: 100, value: 1 }
    );
    assert_eq!(
        results[0].attrs.nexthop,
        Some(IpAddress::V4(Ipv4Address::from_octets(198, 51, 100, 1)))
    );

    let q_default = Query {
        table_query: None,
        net_query: NetQuery::Exact(v4(10, 0, 0, 0, 24)),
        limits: None,
        as_path_regex: None,
        route_distinguisher: RouteDistinguisher::Default,
    };
    assert!(store.get_routes(&q_default).unwrap().is_empty());
}

#[test]
fn malformed_nlri_is_skipped_not_fatal() {
    let mut store = InMemoryStore::new();
    register_client(&mut store);
    let msg = BmpMessage::RouteMonitoring {
        peer: PeerHeader {
            peer_type: 0,
            flags: 0,
            peer_address: IpAddress::V4(Ipv4Address::from_octets(192, 0, 2, 1)),
        },
        update: BgpUpdateMessage {
            attrs: vec![],
            updates: BgpAddrs::Ipv4(vec![
                Ipv4Nlri {
                    rd_high: 0,
                    rd_low: 0,
                    path_id: 0,
                    addr: 0,
                    prefix_len: 33, // invalid: skipped
                },
                Ipv4Nlri {
                    rd_high: 0x0007_0000, // unknown type tag: skipped
                    rd_low: 0,
                    path_id: 0,
                    addr: 1,
                    prefix_len: 32,
                },
                Ipv4Nlri {
                    rd_high: 0,
                    rd_low: 0,
                    path_id: 0,
                    addr: u32::from_be_bytes([192, 0, 2, 0]),
                    prefix_len: 24, // valid: kept
                },
            ]),
            withdraws: BgpAddrs::Unsupported,
        },
    };
    process_bmp_message(&mut store, client_addr(), msg, RouteState::Selected);
    let q = Query {
        table_query: None,
        net_query: NetQuery::OrLonger(v4(0, 0, 0, 0, 0)),
        limits: None,
        as_path_regex: None,
        route_distinguisher: RouteDistinguisher::Default,
    };
    let results = store.get_routes(&q).unwrap();
    assert_eq!(results.len(), 1);
    assert_eq!(results[0].net, v4(192, 0, 2, 0, 24));
}

#[test]
fn peer_down_clears_only_the_pre_policy_view() {
    let mut store = InMemoryStore::new();
    register_client(&mut store);
    let peer = PeerHeader {
        peer_type: 0,
        flags: 0,
        peer_address: IpAddress::V4(Ipv4Address::from_octets(192, 0, 2, 1)),
    };
    let update = |net: IpNet| {
        let IpNet::V4(n) = net else { panic!() };
        BgpUpdateMessage {
            attrs: vec![],
            updates: BgpAddrs::Ipv4(vec![Ipv4Nlri {
                rd_high: 0,
                rd_low: 0,
                path_id: 0,
                addr: n.addr,
                prefix_len: n.prefix_len,
            }]),
            withdraws: BgpAddrs::Unsupported,
        }
    };
    let msg = BmpMessage::RouteMonitoring {
        peer,
        update: update(v4(10, 0, 0, 0, 8)),
    };
    process_bmp_message(&mut store, client_addr(), msg, RouteState::Selected);
    let down = BmpMessage::PeerDownNotification { peer };
    let terminated = process_bmp_message(&mut store, client_addr(), down, RouteState::Selected);
    assert!(!terminated);
    let q = Query {
        table_query: None,
        net_query: NetQuery::OrLonger(v4(0, 0, 0, 0, 0)),
        limits: None,
        as_path_regex: None,
        route_distinguisher: RouteDistinguisher::Default,
    };
    assert!(store.get_routes(&q).unwrap().is_empty());
    let terminated = process_bmp_message(
        &mut store,
        client_addr(),
        BmpMessage::Termination,
        RouteState::Selected,
    );
    assert!(terminated);
}

#[test]
fn legacy_nexthop_applies_to_legacy_updates() {
    let mut store = InMemoryStore::new();
    register_client(&mut store);
    let msg = BmpMessage::RouteMonitoring {
        peer: PeerHeader {
            peer_type: 0,
            flags: 0,
            peer_address: IpAddress::V4(Ipv4Address::from_octets(192, 0, 2, 1)),
        },
        update: BgpUpdateMessage {
            attrs: vec![
                BgpAttrItem::NextHop {
                    value: IpAddress::V4(Ipv4Address::from_octets(203, 0, 113, 9)),
                },
                BgpAttrItem::Med { value: 50 },
                BgpAttrItem::LocalPref { value: 200 },
                BgpAttrItem::CommunityList {
                    value: vec![(65001u32 << 16) | 7],
                },
            ],
            updates: BgpAddrs::Ipv4(vec![Ipv4Nlri {
                rd_high: 0,
                rd_low: 0,
                path_id: 9,
                addr: u32::from_be_bytes([198, 51, 100, 0]),
                prefix_len: 24,
            }]),
            withdraws: BgpAddrs::Unsupported,
        },
    };
    process_bmp_message(&mut store, client_addr(), msg, RouteState::Selected);
    let q = Query {
        table_query: None,
        net_query: NetQuery::Exact(v4(198, 51, 100, 0, 24)),
        limits: None,
        as_path_regex: None,
        route_distinguisher: RouteDistinguisher::Default,
    };
    let results = store.get_routes(&q).unwrap();
    assert_eq!(results.len(), 1);
    let attrs = &results[0].attrs;
    assert_eq!(
        attrs.nexthop,
        Some(IpAddress::V4(Ipv4Address::from_octets(203, 0, 113, 9)))
    );
    assert_eq!(attrs.med, Some(50));
    assert_eq!(attrs.local_pref, Some(200));
    assert_eq!(attrs.communities, Some(vec![(65001, 7)]));
}

#[test]
fn route_attrs_default_is_empty() {
    let a = RouteAttrs::default();
    assert!(a.origin.is_none());
    assert!(a.as_path.is_none());
    assert!(a.communities.is_none());
    assert!(a.large_communities.is_none());
    assert!(a.med.is_none());
    assert!(a.local_pref.is_none());
    assert!(a.nexthop.is_none());
}

#[test]
fn mp_withdraws_remove_entries() {
    let mut store = InMemoryStore::new();
    register_client(&mut store);
    let nlri = Ipv4Nlri {
        rd_high: 0,
        rd_low: 0,
        path_id: 0,
        addr: u32::from_be_bytes([10, 0, 0, 0]),
        prefix_len: 8,
    };
    let peer = PeerHeader {
        peer_type: 0,
        flags: 0,
        peer_address: IpAddress::V4(Ipv4Address::from_octets(192, 0, 2, 1)),
    };
    let announce = BmpMessage::RouteMonitoring {
        peer,
        update: BgpUpdateMessage {
            attrs: vec![
                BgpAttrItem::Origin {
                    value: bmp_rib::attrs::RouteOrigin::Igp,
                },
                BgpAttrItem::LargeCommunityList {
                    value: vec![(1, 2, 3)],
                },
            ],
            updates: BgpAddrs::Ipv4(vec![nlri]),
            withdraws: BgpAddrs::Unsupported,
        },
    };
    process_bmp_message(&mut store, client_addr(), announce, RouteState::Selected);
    let q = Query {
        table_query: None,
        net_query: NetQuery::OrLonger(v4(0, 0, 0, 0, 0)),
        limits: None,
        as_path_regex: None,
        route_distinguisher: RouteDistinguisher::Default,
    };
    let results = store.get_routes(&q).unwrap();
    assert_eq!(results.len(), 1);
    assert_eq!(results[0].attrs.origin, Some(bmp_rib::attrs::RouteOrigin::Igp));
    assert_eq!(results[0].attrs.large_communities, Some(vec![(1, 2, 3)]));

    let withdraw = BmpMessage::RouteMonitoring {
        peer,
        update: BgpUpdateMessage {
            attrs: vec![BgpAttrItem::MpWithdraws {
                addrs: BgpAddrs::Ipv4(vec![nlri]),
            }],
            updates: BgpAddrs::Unsupported,
            withdraws: BgpAddrs::Unsupported,
        },
    };
    process_bmp_message(&mut store, client_addr(), withdraw, RouteState::Selected);
    assert!(store.get_routes(&q).unwrap().is_empty());
}
