use bmp_rib::attrs::RouteAttrs;
use bmp_rib::net::IpAddress;
use bmp_rib::net::IpNet;
use bmp_rib::net::Ipv4Address;
use bmp_rib::net::Ipv4Net;
use bmp_rib::query::Query;
use bmp_rib::query::QueryError;
use bmp_rib::rd::RouteDistinguisher;
use bmp_rib::store::Client;
use bmp_rib::store::InMemoryStore;
use bmp_rib::store::QueryLimits;
use bmp_rib::store::RouteState;
use bmp_rib::store::Session;
use bmp_rib::store::SessionId;
use bmp_rib::store::SocketAddr;
use bmp_rib::store::TableQuery;
use bmp_rib::store::TableSelector;
use bmp_rib::store::TableType;
use bmp_rib::table::NetQuery;

fn v4(a: u8, b: u8, c: u8, d: u8, len: u8) -> IpNet {
    IpNet::V4(Ipv4Net {
        addr: u32::from_be_bytes([a, b, c, d]),
        prefix_len: len,
    })
}

fn client_addr() -> SocketAddr {
    SocketAddr {
        ip: IpAddress::V4(Ipv4Address::from_octets(127, 0, 0, 1)),
        port: 11019,
    }
}

fn selector() -> TableSelector {
    TableSelector {
        route_distinguisher: RouteDistinguisher::Default,
        session_id: SessionId {
            from_client: client_addr(),
            peer_address: IpAddress::V4(Ipv4Address::from_octets(192, 0, 2, 1)),
        },
        table_type: TableType::PrePolicyAdjIn,
    }
}

fn register_client(store: &mut InMemoryStore) {
    store.client_up(
        client_addr(),
        RouteState::Seen,
        Client {
            client_name: String::from("r1"),
            router_id: Ipv4Address::from_octets(10, 0, 0, 1),
        },
    );
}

fn all_query() -> Query {
    Query {
        table_query: None,
        net_query: NetQuery::OrLonger(v4(0, 0, 0, 0, 0)),
        limits: None,
        as_path_regex: None,
        route_distinguisher: RouteDistinguisher::Default,
    }
}

fn attrs_with_path(path: &[u32]) -> RouteAttrs {
    let mut a = RouteAttrs::default();
    a.as_path = Some(path.to_vec());
    a
}

#[test]
fn insert_then_withdraw_leaves_no_entry() {
    let mut store = InMemoryStore::new();
    register_client(&mut store);
    store.update_route(7, v4(10, 0, 0, 0, 8), selector(), attrs_with_path(&[65001]));
    store.withdraw_route(7, v4(10, 0, 0, 0, 8), selector());
    let results = store.get_routes(&all_query()).unwrap();
    assert!(results.is_empty());
}

#[test]
fn repeated_identical_updates_are_idempotent() {
    let mut store = InMemoryStore::new();
    register_client(&mut store);
    store.update_route(7, v4(10, 0, 0, 0, 8), selector(), attrs_with_path(&[65001]));
    let once = store.get_routes(&all_query()).unwrap();
    store.update_route(7, v4(10, 0, 0, 0, 8), selector(), attrs_with_path(&[65001]));
    let twice = store.get_routes(&all_query()).unwrap();
    assert_eq!(once.len(), 1);
    assert_eq!(twice.len(), 1);
    assert_eq!(once[0].net, twice[0].net);
    assert_eq!(once[0].attrs.as_path, twice[0].attrs.as_path);
}

#[test]
fn prefix_query_modes() {
    let mut store = InMemoryStore::new();
    register_client(&mut store);
    store.update_route(1, v4(10, 0, 0, 0, 8), selector(), RouteAttrs::default());
    store.update_route(2, v4(10, 1, 0, 0, 16), selector(), RouteAttrs::default());

    let mut q = all_query();
    q.net_query = NetQuery::MostSpecific(v4(10, 1, 2, 3, 32));
    let most = store.get_routes(&q).unwrap();
    assert_eq!(most.len(), 1);
    assert_eq!(most[0].net, v4(10, 1, 0, 0, 16));

    q.net_query = NetQuery::Contains(v4(10, 1, 2, 3, 32));
    let both = store.get_routes(&q).unwrap();
    assert_eq!(both.len(), 2);

    q.net_query = NetQuery::OrLonger(v4(10, 0, 0, 0, 8));
    let longer = store.get_routes(&q).unwrap();
    assert_eq!(longer.len(), 2);

    q.net_query = NetQuery::Exact(v4(10, 0, 0, 0, 8));
    let exact = store.get_routes(&q).unwrap();
    assert_eq!(exact.len(), 1);
    assert_eq!(exact[0].net, v4(10, 0, 0, 0, 8));
}

#[test]
fn queries_do_not_cross_address_families() {
    let mut store = InMemoryStore::new();
    register_client(&mut store);
    store.update_route(1, v4(0, 0, 0, 0, 0), selector(), RouteAttrs::default());
    let mut q = all_query();
    q.net_query = NetQuery::Contains(IpNet::V6(bmp_rib::net::Ipv6Net {
        addr: 1,
        prefix_len: 128,
    }));
    let results = store.get_routes(&q).unwrap();
    assert!(results.is_empty());
}

#[test]
fn client_teardown_clears_state() {
    let mut store = InMemoryStore::new();
    register_client(&mut store);
    store.update_route(7, v4(10, 0, 0, 0, 8), selector(), attrs_with_path(&[65001]));
    store.client_down(client_addr());
    assert!(store.get_routers().is_empty());
    let results = store.get_routes(&all_query()).unwrap();
    assert!(results.is_empty());
}

#[test]
fn missing_client_rows_are_dropped_not_errors() {
    let mut store = InMemoryStore::new();
    // no client registered: the stored row is excluded from results
    store.update_route(7, v4(10, 0, 0, 0, 8), selector(), RouteAttrs::default());
    let results = store.get_routes(&all_query()).unwrap();
    assert!(results.is_empty());
}

#[test]
fn as_path_regex_filters_and_rejects() {
    let mut store = InMemoryStore::new();
    register_client(&mut store);
    store.update_route(1, v4(10, 0, 0, 0, 8), selector(), attrs_with_path(&[65001, 65002]));
    store.update_route(2, v4(10, 1, 0, 0, 16), selector(), attrs_with_path(&[65003]));

    let mut q = all_query();
    q.as_path_regex = Some(String::from("^65001 65002$"));
    let hits = store.get_routes(&q).unwrap();
    assert_eq!(hits.len(), 1);
    assert_eq!(hits[0].net, v4(10, 0, 0, 0, 8));

    q.as_path_regex = Some(String::from("65003"));
    let hits = store.get_routes(&q).unwrap();
    assert_eq!(hits.len(), 1);
    assert_eq!(hits[0].net, v4(10, 1, 0, 0, 16));

    q.as_path_regex = Some(String::from("("));
    assert!(matches!(store.get_routes(&q), Err(QueryError::InvalidRegex)));
}

#[test]
fn limits_cap_results() {
    let mut store = InMemoryStore::new();
    register_client(&mut store);
    for i in 0..5u8 {
        store.update_route(
            i as u32,
            v4(10, i, 0, 0, 16),
            selector(),
            RouteAttrs::default(),
        );
    }
    let mut q = all_query();
    q.limits = Some(QueryLimits {
        max_results_per_table: 2,
        max_results: 0,
    });
    assert_eq!(store.get_routes(&q).unwrap().len(), 2);
    q.limits = Some(QueryLimits {
        max_results_per_table: 0,
        max_results: 3,
    });
    assert_eq!(store.get_routes(&q).unwrap().len(), 3);
    q.limits = Some(QueryLimits {
        max_results_per_table: 0,
        max_results: 0,
    });
    assert_eq!(store.get_routes(&q).unwrap().len(), 5);
}

#[test]
fn routing_instances_list_observed_distinguishers() {
    let mut store = InMemoryStore::new();
    register_client(&mut store);
    let mut vpn = selector();
    vpn.route_distinguisher = RouteDistinguisher::Type0 { asn: 100, value: 1 };
    store.update_route(1, v4(10, 0, 0, 0, 8), selector(), RouteAttrs::default());
    store.update_route(1, v4(10, 0, 0, 0, 8), vpn, RouteAttrs::default());
    let insts = store.get_routing_instances();
    let mut seen = Vec::new();
    for (addr, rds) in &insts {
        for rd in rds {
            seen.push((*addr, *rd));
        }
    }
    assert!(seen.contains(&(client_addr(), RouteDistinguisher::Default)));
    assert!(seen.contains(&(
        client_addr(),
        RouteDistinguisher::Type0 { asn: 100, value: 1 }
    )));
    assert_eq!(seen.len(), 2);
}

#[test]
fn attribute_cache_shares_equal_sets() {
    let mut store = InMemoryStore::new();
    register_client(&mut store);
    // two prefixes with field-for-field equal attributes share one cache slot
    store.update_route(1, v4(10, 0, 0, 0, 8), selector(), attrs_with_path(&[65001]));
    store.update_route(2, v4(10, 1, 0, 0, 16), selector(), attrs_with_path(&[65001]));
    assert_eq!(store.cache.slots.iter().filter(|s| s.is_some()).count(), 1);
    // queries still observe the attributes as inserted
    let results = store.get_routes(&all_query()).unwrap();
    assert_eq!(results.len(), 2);
    for r in &results {
        assert_eq!(r.attrs.as_path, Some(vec![65001]));
    }
}

#[test]
fn session_down_clears_session_tables() {
    let mut store = InMemoryStore::new();
    register_client(&mut store);
    store.update_route(1, v4(10, 0, 0, 0, 8), selector(), RouteAttrs::default());
    store.session_down(selector().session_id, None);
    let results = store.get_routes(&all_query()).unwrap();
    assert!(results.is_empty());
}

#[test]
fn session_state_is_attached_and_replaced() {
    let mut store = InMemoryStore::new();
    register_client(&mut store);
    store.update_route(1, v4(10, 0, 0, 0, 8), selector(), RouteAttrs::default());
    // no session registered yet
    let results = store.get_routes(&all_query()).unwrap();
    assert_eq!(results[0].session, None);
    // registered: attached to results
    store.session_up(selector().session_id, Session {});
    let results = store.get_routes(&all_query()).unwrap();
    assert_eq!(results[0].session, Some(Session {}));
    // a flap with a replacement state keeps the session but clears its tables
    store.session_down(selector().session_id, Some(Session {}));
    assert!(store.get_routes(&all_query()).unwrap().is_empty());
    store.update_route(1, v4(10, 0, 0, 0, 8), selector(), RouteAttrs::default());
    let results = store.get_routes(&all_query()).unwrap();
    assert_eq!(results[0].session, Some(Session {}));
}

#[test]
fn explicit_table_query_selects_one_table() {
    let mut store = InMemoryStore::new();
    register_client(&mut store);
    let mut post = selector();
    post.table_type = TableType::PostPolicyAdjIn;
    store.update_route(1, v4(10, 0, 0, 0, 8), selector(), RouteAttrs::default());
    store.update_route(1, v4(10, 1, 0, 0, 16), post, RouteAttrs::default());
    let mut q = all_query();
    q.table_query = Some(TableQuery::Table(post));
    let results = store.get_routes(&q).unwrap();
    assert_eq!(results.len(), 1);
    assert_eq!(results[0].net, v4(10, 1, 0, 0, 16));
    assert_eq!(results[0].state, RouteState::Accepted);
}
