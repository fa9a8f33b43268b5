//! The RIB store: client and session registries, the table map, and the
//! attribute cache, with the mutations the collector performs.
//!
//! The observable state is pointwise: the client registered for an address,
//! the session stored for a session identifier, and each table's sequence of
//! rows. Every mutation says how it moves those observations.

use vstd::prelude::*;

use crate::assoc::assoc_get;
use crate::assoc::assoc_has;
use crate::assoc::assoc_unique;
use crate::assoc::lemma_assoc_found;
use crate::assoc::lemma_push_contains;
use crate::assoc::lemma_assoc_push;
use crate::assoc::lemma_assoc_remove;
use crate::assoc::lemma_assoc_update;
use crate::attrs::AttrsCache;
use crate::attrs::RouteAttrs;
use crate::net::IpAddress;
use crate::net::IpNet;
use crate::net::PathId;
use crate::net::RouterId;
use crate::rd::RouteDistinguisher;
use crate::table::entries_wf;
use crate::table::entry_keyed;
use crate::table::has_key;
use crate::table::key_index;
use crate::table::rows_has_key;
use crate::table::rows_key_index;
use crate::table::row_keyed;
use crate::table::rows_of;
use crate::table::rows_update;
use crate::table::rows_withdraw;
use crate::table::spec_update;
use crate::table::spec_withdraw;
use crate::table::RibTable;
use crate::table::RouteEntry;
use crate::table::RowV;

verus! {

/// A socket address: an IP address and a port.
#[derive(Clone, Copy, Debug, PartialEq, Eq, Structural, Hash)]
pub struct SocketAddr {
    pub ip: IpAddress,
    pub port: u16,
}

/// One monitored BGP peer session, as reported by one router.
#[derive(Clone, Copy, Debug, PartialEq, Eq, Structural, Hash)]
pub struct SessionId {
    pub from_client: SocketAddr,
    pub peer_address: IpAddress,
}

/// The state a route holds within a router's decision process.
#[derive(Clone, Copy, Debug, PartialEq, Eq, Structural, Hash)]
pub enum RouteState {
    /// Received from a neighbor but rejected in a filter.
    Seen,
    /// Received from a neighbor and accepted in the filters.
    Accepted,
    /// Usable, for example an equal-cost multipath route.
    Active,
    /// The preferred route, propagated to neighbors.
    Selected,
}

/// Which view of a peer's routes a table holds; the local RIB carries its
/// route state explicitly.
#[derive(Clone, Copy, Debug, PartialEq, Eq, Structural, Hash)]
pub enum TableType {
    PrePolicyAdjIn,
    PostPolicyAdjIn,
    LocRib { route_state: RouteState },
}

/// The key of one RIB table.
#[derive(Clone, Copy, Debug, PartialEq, Eq, Structural, Hash)]
pub struct TableSelector {
    pub route_distinguisher: RouteDistinguisher,
    pub session_id: SessionId,
    pub table_type: TableType,
}

impl TableSelector {
    pub open spec fn spec_client_addr(self) -> SocketAddr {
        self.session_id.from_client
    }

    pub open spec fn spec_session_id(self) -> Option<SessionId> {
        match self.table_type {
            TableType::LocRib { .. } => None,
            _ => Some(self.session_id),
        }
    }

    pub open spec fn spec_route_state(self) -> RouteState {
        match self.table_type {
            TableType::LocRib { route_state } => route_state,
            TableType::PostPolicyAdjIn => RouteState::Accepted,
            TableType::PrePolicyAdjIn => RouteState::Seen,
        }
    }

    /// The router this table came from.
    pub fn client_addr(&self) -> (r: SocketAddr)
        ensures
            r == self.spec_client_addr(),
    {
        self.session_id.from_client
    }

    /// The peer session this table belongs to; none for a local RIB.
    pub fn session_id(&self) -> (r: Option<SessionId>)
        ensures
            r == self.spec_session_id(),
    {
        match self.table_type {
            TableType::LocRib { .. } => None,
            _ => Some(self.session_id),
        }
    }

    /// The route state implied for routes in this table.
    pub fn route_state(&self) -> (r: RouteState)
        ensures
            r == self.spec_route_state(),
    {
        match self.table_type {
            TableType::LocRib { route_state } => route_state,
            TableType::PostPolicyAdjIn => RouteState::Accepted,
            TableType::PrePolicyAdjIn => RouteState::Seen,
        }
    }
}

/// Which tables a query ranges over.
#[derive(Clone, Copy, Debug, PartialEq, Eq, Structural, Hash)]
pub enum TableQuery {
    Table(TableSelector),
    Session(SessionId),
    Client(SocketAddr),
    Router(RouterId),
}

/// Caps on a query's result set; zero means unbounded.
#[derive(Clone, Copy, Debug, PartialEq, Eq, Structural, Hash)]
pub struct QueryLimits {
    pub max_results_per_table: usize,
    pub max_results: usize,
}

impl Default for QueryLimits {
    /// The default caps: two hundred rows per table, five hundred overall.
    fn default() -> (r: Self)
        ensures
            r.max_results_per_table == 200,
            r.max_results == 500,
    {
        QueryLimits { max_results_per_table: 200, max_results: 500 }
    }
}

/// Information kept about a connected router.
#[derive(Debug)]
pub struct Client {
    pub client_name: String,
    pub router_id: RouterId,
}

/// The mathematical value of a client record.
pub ghost struct ClientV {
    pub client_name: Seq<char>,
    pub router_id: RouterId,
}

impl View for Client {
    type V = ClientV;

    open spec fn view(&self) -> ClientV {
        ClientV { client_name: self.client_name@, router_id: self.router_id }
    }
}

impl Clone for Client {
    /// A clone carries the same name and router identifier.
    fn clone(&self) -> (r: Self)
        ensures
            r@ == self@,
    {
        Client { client_name: self.client_name.clone(), router_id: self.router_id }
    }
}

/// Information kept about a peer session; a placeholder for future peer
/// attributes.
#[derive(Clone, Copy, Debug, Default, PartialEq, Eq, Structural, Hash)]
pub struct Session {}

/// The store: registries, tables, and the shared attribute cache.
pub struct InMemoryStore {
    pub clients: Vec<(SocketAddr, Client)>,
    pub sessions: Vec<(SessionId, Session)>,
    pub tables: Vec<(TableSelector, RibTable)>,
    pub cache: AttrsCache,
}

impl InMemoryStore {
    pub open spec fn wf(self) -> bool {
        &&& assoc_unique(self.clients@)
        &&& assoc_unique(self.sessions@)
        &&& assoc_unique(self.tables@)
        &&& forall|i: int| 0 <= i < self.tables@.len() ==> (#[trigger] self.tables@[i]).1.wf()
        &&& forall|i: int, j: int|
            #![trigger self.tables@[i].1.entries@[j]]
            0 <= i < self.tables@.len() && 0 <= j < self.tables@[i].1.entries@.len()
                ==> self.cache.live(self.tables@[i].1.entries@[j].attrs as int)
    }

    /// The client registered for an address.
    pub open spec fn client_of(self, a: SocketAddr) -> Option<ClientV> {
        match assoc_get(self.clients@, a) {
            Some(c) => Some(c@),
            None => None,
        }
    }

    /// The session stored for an identifier.
    pub open spec fn session_of(self, s: SessionId) -> Option<Session> {
        assoc_get(self.sessions@, s)
    }

    /// A table exists for the selector.
    pub open spec fn has_table(self, sel: TableSelector) -> bool {
        assoc_has(self.tables@, sel)
    }

    /// The entries of the selector's table; empty when absent.
    pub open spec fn table_entries(self, sel: TableSelector) -> Seq<RouteEntry> {
        match assoc_get(self.tables@, sel) {
            Some(t) => t.entries@,
            None => Seq::empty(),
        }
    }

    /// The observable rows of the selector's table.
    pub open spec fn rows(self, sel: TableSelector) -> Seq<RowV> {
        rows_of(self.table_entries(sel), self.cache)
    }

    pub fn new() -> (r: InMemoryStore)
        ensures
            r.wf(),
            r.clients@.len() == 0,
            r.sessions@.len() == 0,
            r.tables@.len() == 0,
    {
        InMemoryStore {
            clients: Vec::new(),
            sessions: Vec::new(),
            tables: Vec::new(),
            cache: AttrsCache::new(),
        }
    }

    pub(crate) fn find_client_idx(&self, addr: &SocketAddr) -> (r: Option<usize>)
        ensures
            match r {
                Some(i) => i < self.clients@.len() && self.clients@[i as int].0 == *addr,
                None => forall|j: int|
                    0 <= j < self.clients@.len() ==> (#[trigger] self.clients@[j]).0 != *addr,
            },
    {
        let mut i: usize = 0;
        while i < self.clients.len()
            invariant
                i <= self.clients@.len(),
                forall|j: int| 0 <= j < i ==> (#[trigger] self.clients@[j]).0 != *addr,
            decreases self.clients@.len() - i,
        {
            if self.clients[i].0 == *addr {
                return Some(i);
            }
            i += 1;
        }
        None
    }

    pub(crate) fn find_session_idx(&self, sid: &SessionId) -> (r: Option<usize>)
        ensures
            match r {
                Some(i) => i < self.sessions@.len() && self.sessions@[i as int].0 == *sid,
                None => forall|j: int|
                    0 <= j < self.sessions@.len() ==> (#[trigger] self.sessions@[j]).0 != *sid,
            },
    {
        let mut i: usize = 0;
        while i < self.sessions.len()
            invariant
                i <= self.sessions@.len(),
                forall|j: int| 0 <= j < i ==> (#[trigger] self.sessions@[j]).0 != *sid,
            decreases self.sessions@.len() - i,
        {
            if self.sessions[i].0 == *sid {
                return Some(i);
            }
            i += 1;
        }
        None
    }

    pub(crate) fn find_table_idx(&self, sel: &TableSelector) -> (r: Option<usize>)
        ensures
            match r {
                Some(i) => i < self.tables@.len() && self.tables@[i as int].0 == *sel,
                None => forall|j: int|
                    0 <= j < self.tables@.len() ==> (#[trigger] self.tables@[j]).0 != *sel,
            },
    {
        let mut i: usize = 0;
        while i < self.tables.len()
            invariant
                i <= self.tables@.len(),
                forall|j: int| 0 <= j < i ==> (#[trigger] self.tables@[j]).0 != *sel,
            decreases self.tables@.len() - i,
        {
            if self.tables[i].0 == *sel {
                return Some(i);
            }
            i += 1;
        }
        None
    }

    /// Registers or replaces the client for an address.
    pub fn client_up(&mut self, client_addr: SocketAddr, route_state: RouteState, client_data: Client)
        requires
            old(self).wf(),
        ensures
            final(self).wf(),
            forall|a: SocketAddr|
                #[trigger] final(self).client_of(a) == if a == client_addr {
                    Some(client_data@)
                } else {
                    old(self).client_of(a)
                },
            final(self).sessions@ == old(self).sessions@,
            final(self).tables@ == old(self).tables@,
            final(self).cache == old(self).cache,
    {
        let ghost m = self.clients@;
        let ghost dv = client_data@;
        match self.find_client_idx(&client_addr) {
            Some(i) => {
                proof {
                    lemma_assoc_update(m, client_addr, client_data, i as int);
                }
                self.clients.set(i, (client_addr, client_data));
            },
            None => {
                proof {
                    assert(!assoc_has(m, client_addr));
                    lemma_assoc_push(m, client_addr, client_data);
                }
                self.clients.push((client_addr, client_data));
            },
        }
    }

    /// The connected routers, as address and client pairs.
    pub fn get_routers(&self) -> (r: Vec<(SocketAddr, Client)>)
        requires
            self.wf(),
        ensures
            r@.len() == self.clients@.len(),
            forall|i: int|
                0 <= i < r@.len() ==> (#[trigger] r@[i]).0 == self.clients@[i].0 && r@[i].1@
                    == self.clients@[i].1@,
    {
        let mut r: Vec<(SocketAddr, Client)> = Vec::new();
        let mut i: usize = 0;
        while i < self.clients.len()
            invariant
                i <= self.clients@.len(),
                r@.len() == i,
                forall|j: int|
                    0 <= j < i ==> (#[trigger] r@[j]).0 == self.clients@[j].0 && r@[j].1@
                        == self.clients@[j].1@,
            decreases self.clients@.len() - i,
        {
            let c = &self.clients[i];
            r.push((c.0, c.1.clone()));
            i += 1;
        }
        r
    }

    /// Registers or replaces a session.
    pub fn session_up(&mut self, session: SessionId, new_state: Session)
        requires
            old(self).wf(),
        ensures
            final(self).wf(),
            forall|s: SessionId|
                #[trigger] final(self).session_of(s) == if s == session {
                    Some(new_state)
                } else {
                    old(self).session_of(s)
                },
            final(self).clients@ == old(self).clients@,
            final(self).tables@ == old(self).tables@,
            final(self).cache == old(self).cache,
    {
        let ghost m = self.sessions@;
        match self.find_session_idx(&session) {
            Some(i) => {
                proof {
                    lemma_assoc_update(m, session, new_state, i as int);
                }
                self.sessions.set(i, (session, new_state));
            },
            None => {
                proof {
                    assert(!assoc_has(m, session));
                    lemma_assoc_push(m, session, new_state);
                }
                self.sessions.push((session, new_state));
            },
        }
    }

    /// Inserts or replaces the route `(path_id, net)` in the selector's
    /// table, creating the table on first use; the attribute set is interned
    /// in the cache.
    pub fn update_route(
        &mut self,
        path_id: PathId,
        net: IpNet,
        table: TableSelector,
        route: RouteAttrs,
    )
        requires
            old(self).wf(),
            net.wf(),
        ensures
            final(self).wf(),
            final(self).clients@ == old(self).clients@,
            final(self).sessions@ == old(self).sessions@,
            forall|sel: TableSelector|
                #[trigger] final(self).has_table(sel) == (old(self).has_table(sel) || sel
                    == table),
            final(self).rows(table) == rows_update(old(self).rows(table), path_id, net, route@),
            forall|sel: TableSelector|
                sel != table ==> #[trigger] final(self).rows(sel) == old(self).rows(sel),
    {
        let ghost route_v = route@;
        let ghost c0 = self.cache;
        let ghost m0 = self.tables@;
        let h = self.cache.intern(route);
        let ghost c1 = self.cache;
        proof {
            assert(c1.resolve(h as int) == route_v);
        }
        match self.find_table_idx(&table) {
            Some(i) => {
                let (sel0, mut tbl) = self.tables.remove(i);
                proof {
                    assert(sel0 == table);
                    assert(m0[i as int].1.wf());
                }
                let ghost e0 = tbl.entries@;
                proof {
                    assert forall|j: int|
                        0 <= j < e0.len() implies c0.live((#[trigger] e0[j]).attrs as int) by {
                        assert(m0[i as int].1.entries@[j] == e0[j]);
                    }
                }
                tbl.update_route(path_id, net, h);
                let ghost e1 = tbl.entries@;
                self.tables.insert(i, (sel0, tbl));
                proof {
                    assert(self.tables@ =~= m0.update(i as int, (table, tbl)));
                    lemma_assoc_found(m0, table, i as int);
                    lemma_assoc_update(m0, table, tbl, i as int);
                    assert forall|sel: TableSelector|
                        #[trigger] final(self).has_table(sel) == (old(self).has_table(sel) || sel
                            == table) by {
                        assert(assoc_get(final(self).tables@, sel) == if sel == table {
                            Some(tbl)
                        } else {
                            assoc_get(m0, sel)
                        });
                    }
                    lemma_rows_update(e0, c0, c1, path_id, net, h);
                    assert(old(self).table_entries(table) == e0);
                    assert(final(self).table_entries(table) == e1);
                    assert(final(self).rows(table) == rows_update(
                        old(self).rows(table),
                        path_id,
                        net,
                        route_v,
                    ));
                    assert forall|sel: TableSelector|
                        sel != table implies #[trigger] final(self).rows(sel) == old(self).rows(
                        sel,
                    ) by {
                        match assoc_get(m0, sel) {
                            Some(tt) => {
                                let j0 = crate::assoc::assoc_idx(m0, sel);
                                assert(0 <= j0 < m0.len() && m0[j0].0 == sel);
                                assert(m0[j0].1 == tt);
                                assert forall|j: int|
                                    0 <= j < tt.entries@.len() implies c0.live(
                                    (#[trigger] tt.entries@[j]).attrs as int,
                                ) by {
                                    assert(m0[j0].1.entries@[j] == tt.entries@[j]);
                                }
                                lemma_rows_preserved(tt.entries@, c0, c1);
                            },
                            None => {
                                assert(old(self).table_entries(sel) =~= Seq::<RouteEntry>::empty());
                                assert(final(self).table_entries(sel) =~= Seq::<
                                    RouteEntry,
                                >::empty());
                                assert(final(self).rows(sel) =~= old(self).rows(sel));
                            },
                        }
                    }
                    assert forall|a: int|
                        0 <= a < final(self).tables@.len() implies (#[trigger] final(self).tables@[a]).1.wf() by {
                        if a != i {
                            assert(final(self).tables@[a] == m0[a]);
                        }
                    }
                    assert forall|a: int, j: int|
                        #![trigger final(self).tables@[a].1.entries@[j]]
                        0 <= a < final(self).tables@.len() && 0 <= j < final(self).tables@[a].1.entries@.len() implies c1.live(
                        final(self).tables@[a].1.entries@[j].attrs as int,
                    ) by {
                        if a != i {
                            assert(final(self).tables@[a] == m0[a]);
                            assert(c0.live(m0[a].1.entries@[j].attrs as int));
                        } else {
                            let ee = e1[j];
                            if has_key(e0, path_id, net) {
                                let k = key_index(e0, path_id, net);
                                if j == k {
                                    assert(ee.attrs == h);
                                } else {
                                    assert(ee == e0[j]);
                                    assert(c0.live(e0[j].attrs as int));
                                }
                            } else {
                                if j < e0.len() {
                                    assert(ee == e0[j]);
                                    assert(c0.live(e0[j].attrs as int));
                                } else {
                                    assert(ee.attrs == h);
                                }
                            }
                        }
                    }
                }
            },
            None => {
                let mut tbl = RibTable::new();
                tbl.update_route(path_id, net, h);
                let ghost e1 = tbl.entries@;
                self.tables.push((table, tbl));
                proof {
                    assert(!assoc_has(m0, table));
                    lemma_assoc_push(m0, table, tbl);
                    assert forall|sel: TableSelector|
                        #[trigger] final(self).has_table(sel) == (old(self).has_table(sel) || sel
                            == table) by {
                        assert(assoc_get(final(self).tables@, sel) == if sel == table {
                            Some(tbl)
                        } else {
                            assoc_get(m0, sel)
                        });
                    }
                    lemma_rows_update(Seq::<RouteEntry>::empty(), c0, c1, path_id, net, h);
                    assert(old(self).table_entries(table) =~= Seq::<RouteEntry>::empty());
                    assert(final(self).table_entries(table) == e1);
                    assert(e1 == spec_update(Seq::<RouteEntry>::empty(), path_id, net, h));
                    assert(final(self).rows(table) == rows_update(
                        old(self).rows(table),
                        path_id,
                        net,
                        route_v,
                    ));
                    assert forall|sel: TableSelector|
                        sel != table implies #[trigger] final(self).rows(sel) == old(self).rows(
                        sel,
                    ) by {
                        match assoc_get(m0, sel) {
                            Some(tt) => {
                                let j0 = crate::assoc::assoc_idx(m0, sel);
                                assert(0 <= j0 < m0.len() && m0[j0].0 == sel);
                                assert(m0[j0].1 == tt);
                                assert forall|j: int|
                                    0 <= j < tt.entries@.len() implies c0.live(
                                    (#[trigger] tt.entries@[j]).attrs as int,
                                ) by {
                                    assert(m0[j0].1.entries@[j] == tt.entries@[j]);
                                }
                                lemma_rows_preserved(tt.entries@, c0, c1);
                            },
                            None => {
                                assert(final(self).rows(sel) =~= old(self).rows(sel));
                            },
                        }
                    }
                    let ghost mf = final(self).tables@;
                    assert forall|a: int|
                        0 <= a < mf.len() implies (#[trigger] mf[a]).1.wf() by {
                        if a < m0.len() {
                            assert(mf[a] == m0[a]);
                        }
                    }
                    assert forall|a: int, j: int|
                        #![trigger mf[a].1.entries@[j]]
                        0 <= a < mf.len() && 0 <= j < mf[a].1.entries@.len() implies c1.live(
                        mf[a].1.entries@[j].attrs as int,
                    ) by {
                        if a < m0.len() {
                            assert(mf[a] == m0[a]);
                            assert(c0.live(m0[a].1.entries@[j].attrs as int));
                        } else {
                            assert(mf[a].1 == tbl);
                            assert(e1[j].attrs == h);
                        }
                    }
                }
            },
        }
    }

    /// Removes the route `(path_id, net)` from the selector's table if
    /// present; otherwise nothing changes.
    pub fn withdraw_route(&mut self, path_id: PathId, net: IpNet, table: TableSelector)
        requires
            old(self).wf(),
        ensures
            final(self).wf(),
            final(self).clients@ == old(self).clients@,
            final(self).sessions@ == old(self).sessions@,
            final(self).cache == old(self).cache,
            forall|sel: TableSelector|
                #[trigger] final(self).has_table(sel) == old(self).has_table(sel),
            final(self).rows(table) == rows_withdraw(old(self).rows(table), path_id, net),
            forall|sel: TableSelector|
                sel != table ==> #[trigger] final(self).rows(sel) == old(self).rows(sel),
    {
        let ghost c0 = self.cache;
        let ghost m0 = self.tables@;
        match self.find_table_idx(&table) {
            Some(i) => {
                let (sel0, mut tbl) = self.tables.remove(i);
                proof {
                    assert(sel0 == table);
                    assert(m0[i as int].1.wf());
                }
                let ghost e0 = tbl.entries@;
                tbl.withdraw_route(path_id, net);
                let ghost e1 = tbl.entries@;
                self.tables.insert(i, (sel0, tbl));
                proof {
                    assert(self.tables@ =~= m0.update(i as int, (table, tbl)));
                    lemma_assoc_found(m0, table, i as int);
                    lemma_assoc_update(m0, table, tbl, i as int);
                    assert forall|sel: TableSelector|
                        #[trigger] final(self).has_table(sel) == old(self).has_table(sel) by {
                        assert(assoc_get(final(self).tables@, sel) == if sel == table {
                            Some(tbl)
                        } else {
                            assoc_get(m0, sel)
                        });
                        if sel == table {
                            assert(assoc_has(m0, sel));
                        }
                    }
                    lemma_rows_withdraw(e0, c0, path_id, net);
                    assert(old(self).table_entries(table) == e0);
                    assert(final(self).table_entries(table) == e1);
                    assert forall|sel: TableSelector|
                        sel != table implies #[trigger] final(self).rows(sel) == old(self).rows(
                        sel,
                    ) by {
                        assert(assoc_get(final(self).tables@, sel) == assoc_get(m0, sel));
                    }
                    assert forall|a: int|
                        0 <= a < final(self).tables@.len() implies (#[trigger] final(self).tables@[a]).1.wf() by {
                        if a != i {
                            assert(final(self).tables@[a] == m0[a]);
                        }
                    }
                    assert forall|a: int, j: int|
                        #![trigger final(self).tables@[a].1.entries@[j]]
                        0 <= a < final(self).tables@.len() && 0 <= j < final(self).tables@[a].1.entries@.len() implies c0.live(
                        final(self).tables@[a].1.entries@[j].attrs as int,
                    ) by {
                        if a != i {
                            assert(final(self).tables@[a] == m0[a]);
                            assert(c0.live(m0[a].1.entries@[j].attrs as int));
                        } else {
                            if has_key(e0, path_id, net) {
                                let k = key_index(e0, path_id, net);
                                let j0 = if j < k { j } else { j + 1 };
                                assert(e1[j] == e0[j0]);
                                assert(c0.live(m0[i as int].1.entries@[j0].attrs as int));
                            } else {
                                assert(e1[j] == e0[j]);
                                assert(c0.live(m0[i as int].1.entries@[j].attrs as int));
                            }
                        }
                    }
                }
            },
            None => {
                proof {
                    assert(!assoc_has(m0, table));
                    assert(old(self).table_entries(table) =~= Seq::<RouteEntry>::empty());
                    assert(!rows_has_key(old(self).rows(table), path_id, net));
                    assert(final(self).rows(table) =~= rows_withdraw(
                        old(self).rows(table),
                        path_id,
                        net,
                    ));
                }
            },
        }
    }

    /// Removes every table keyed to the owner, then reclaims cache slots that
    /// no remaining table references.
    fn drop_tables(&mut self, which: OwnerKey)
        requires
            old(self).wf(),
        ensures
            final(self).wf(),
            final(self).clients@ == old(self).clients@,
            final(self).sessions@ == old(self).sessions@,
            forall|sel: TableSelector|
                #[trigger] final(self).has_table(sel) == (old(self).has_table(sel)
                    && !owner_matches(sel, which)),
            forall|sel: TableSelector|
                !owner_matches(sel, which) ==> #[trigger] final(self).rows(sel) == old(self).rows(
                    sel,
                ),
            forall|sel: TableSelector|
                owner_matches(sel, which) ==> #[trigger] final(self).rows(sel) == Seq::<
                    RowV,
                >::empty(),
    {
        let ghost t0 = self.tables@;
        let ghost c0 = self.cache;
        let mut kept: Vec<(TableSelector, RibTable)> = Vec::new();
        let ghost mut j: int = 0;
        while self.tables.len() > 0
            invariant
                0 <= j <= t0.len(),
                self.tables@ == t0.skip(j),
                self.cache == c0,
                self.clients@ == old(self).clients@,
                self.sessions@ == old(self).sessions@,
                assoc_unique(t0),
                forall|i: int| 0 <= i < t0.len() ==> (#[trigger] t0[i]).1.wf(),
                forall|i: int, j2: int|
                    #![trigger t0[i].1.entries@[j2]]
                    0 <= i < t0.len() && 0 <= j2 < t0[i].1.entries@.len() ==> c0.live(
                        t0[i].1.entries@[j2].attrs as int,
                    ),
                assoc_unique(kept@),
                forall|i: int| 0 <= i < kept@.len() ==> (#[trigger] kept@[i]).1.wf(),
                forall|i: int, j2: int|
                    #![trigger kept@[i].1.entries@[j2]]
                    0 <= i < kept@.len() && 0 <= j2 < kept@[i].1.entries@.len() ==> c0.live(
                        kept@[i].1.entries@[j2].attrs as int,
                    ),
                forall|sel: TableSelector|
                    #[trigger] assoc_get(kept@, sel) == (if owner_matches(sel, which) {
                        None::<RibTable>
                    } else {
                        assoc_get(t0.take(j), sel)
                    }),
            decreases self.tables@.len(),
        {
            let p = self.tables.remove(0);
            proof {
                assert(t0.skip(j)[0] == t0[j]);
                assert(self.tables@ =~= t0.skip(j + 1));
            }
            let sel = p.0;
            let keep_it: bool = match which {
                OwnerKey::Client(a) => !(sel.client_addr() == a),
                OwnerKey::Session(s) => match sel.session_id() {
                    Some(x) => !(x == s),
                    None => true,
                },
            };
            proof {
                assert(keep_it == !owner_matches(sel, which));
                assert(t0.take(j + 1) =~= t0.take(j).push(t0[j]));
                assert(assoc_unique(t0.take(j))) by {
                    assert forall|a: int, b: int|
                        #![trigger t0.take(j)[a], t0.take(j)[b]]
                        0 <= a < b < t0.take(j).len() implies t0.take(j)[a].0 != t0.take(
                        j,
                    )[b].0 by {
                        assert(t0.take(j)[a] == t0[a] && t0.take(j)[b] == t0[b]);
                    }
                }
                assert(!assoc_has(t0.take(j), sel)) by {
                    if assoc_has(t0.take(j), sel) {
                        let ix = crate::assoc::assoc_idx(t0.take(j), sel);
                        assert(t0.take(j)[ix] == t0[ix]);
                        assert(t0[ix].0 == sel && t0[j].0 == sel);
                    }
                }
                lemma_assoc_push(t0.take(j), sel, p.1);
            }
            if keep_it {
                proof {
                    assert(assoc_get(kept@, sel) is None);
                    assert(!assoc_has(kept@, sel));
                    lemma_assoc_push(kept@, sel, p.1);
                }
                let ghost kept0 = kept@;
                kept.push(p);
                proof {
                    j = j + 1;
                    assert forall|sel2: TableSelector|
                        #[trigger] assoc_get(kept@, sel2) == (if owner_matches(sel2, which) {
                            None::<RibTable>
                        } else {
                            assoc_get(t0.take(j), sel2)
                        }) by {
                        assert(kept@ == kept0.push((sel, p.1)));
                        assert(t0[j - 1] == (sel, p.1));
                        if owner_matches(sel2, which) {
                            assert(sel2 != sel);
                        }
                    }
                }
            } else {
                proof {
                    j = j + 1;
                    assert forall|sel2: TableSelector|
                        #[trigger] assoc_get(kept@, sel2) == (if owner_matches(sel2, which) {
                            None::<RibTable>
                        } else {
                            assoc_get(t0.take(j), sel2)
                        }) by {
                        assert(t0[j - 1] == (sel, p.1));
                        if !owner_matches(sel2, which) {
                            assert(sel2 != sel);
                        }
                    }
                }
            }
        }
        proof {
            assert(t0.take(j) =~= t0);
            assert(self.tables@ =~= Seq::<(TableSelector, RibTable)>::empty());
        }
        self.tables = kept;
        let mut keep: Vec<usize> = Vec::new();
        let mut ti: usize = 0;
        while ti < self.tables.len()
            invariant
                ti <= self.tables@.len(),
                forall|a: int, j2: int|
                    #![trigger self.tables@[a].1.entries@[j2]]
                    0 <= a < ti && 0 <= j2 < self.tables@[a].1.entries@.len() ==> keep@.contains(
                        self.tables@[a].1.entries@[j2].attrs,
                    ),
            decreases self.tables@.len() - ti,
        {
            let ghost tifix = self.tables@[ti as int];
            let n = self.tables[ti].1.entries.len();
            let mut ei: usize = 0;
            while ei < n
                invariant
                    ti < self.tables@.len(),
                    tifix == self.tables@[ti as int],
                    n == tifix.1.entries@.len(),
                    ei <= n,
                    forall|a: int, j2: int|
                        #![trigger self.tables@[a].1.entries@[j2]]
                        0 <= a < ti && 0 <= j2 < self.tables@[a].1.entries@.len()
                            ==> keep@.contains(self.tables@[a].1.entries@[j2].attrs),
                    forall|j2: int|
                        0 <= j2 < ei ==> keep@.contains(
                            (#[trigger] tifix.1.entries@[j2]).attrs,
                        ),
                decreases n - ei,
            {
                let ghost keep0 = keep@;
                let h = self.tables[ti].1.entries[ei].attrs;
                keep.push(h);
                proof {
                    assert(keep@ == keep0.push(h));
                    assert(keep@[keep0.len() as int] == h);
                    assert(keep@.contains(h));
                    assert forall|a: int, j2: int|
                        #![trigger self.tables@[a].1.entries@[j2]]
                        0 <= a < ti && 0 <= j2 < self.tables@[a].1.entries@.len()
                            implies keep@.contains(self.tables@[a].1.entries@[j2].attrs) by {
                        lemma_push_contains(keep0, h, self.tables@[a].1.entries@[j2].attrs);
                    }
                    assert forall|j2: int|
                        0 <= j2 < ei + 1 implies keep@.contains(
                        (#[trigger] tifix.1.entries@[j2]).attrs,
                    ) by {
                        if j2 < ei {
                            lemma_push_contains(keep0, h, tifix.1.entries@[j2].attrs);
                        }
                    }
                }
                ei += 1;
            }
            ti += 1;
        }
        let ghost kept_tables = self.tables@;
        let ghost c0b = self.cache;
        proof {
            assert(c0b == c0);
        }
        self.cache.remove_expired(&keep);
        let ghost c1 = self.cache;
        proof {
            assert forall|a: int, j2: int|
                #![trigger kept_tables[a].1.entries@[j2]]
                0 <= a < kept_tables.len() && 0 <= j2 < kept_tables[a].1.entries@.len()
                    implies c1.slots@[kept_tables[a].1.entries@[j2].attrs as int]
                == c0.slots@[kept_tables[a].1.entries@[j2].attrs as int] && c0.live(
                kept_tables[a].1.entries@[j2].attrs as int,
            ) by {
                assert(keep@.contains(kept_tables[a].1.entries@[j2].attrs));
            }
            assert forall|sel: TableSelector|
                !owner_matches(sel, which) implies #[trigger] final(self).rows(sel) == old(self).rows(sel) by {
                assert(assoc_get(kept_tables, sel) == assoc_get(t0, sel));
                match assoc_get(t0, sel) {
                    Some(tt) => {
                        let ix = crate::assoc::assoc_idx(kept_tables, sel);
                        assert(0 <= ix < kept_tables.len() && kept_tables[ix].0 == sel);
                        assert(kept_tables[ix].1 == tt);
                        assert forall|j2: int|
                            0 <= j2 < tt.entries@.len() implies c0.live(
                            (#[trigger] tt.entries@[j2]).attrs as int,
                        ) && c1.slots@[tt.entries@[j2].attrs as int] == c0.slots@[tt.entries@[j2].attrs as int] by {
                            assert(kept_tables[ix].1.entries@[j2] == tt.entries@[j2]);
                        }
                        lemma_rows_kept(tt.entries@, c0, c1);
                    },
                    None => {
                        assert(final(self).rows(sel) =~= old(self).rows(sel));
                    },
                }
            }
            assert forall|sel: TableSelector|
                #[trigger] final(self).has_table(sel) == (old(self).has_table(sel)
                    && !owner_matches(sel, which)) by {
                assert(assoc_get(kept_tables, sel) == (if owner_matches(sel, which) {
                    None::<RibTable>
                } else {
                    assoc_get(t0, sel)
                }));
            }
            assert forall|sel: TableSelector|
                owner_matches(sel, which) implies #[trigger] final(self).rows(sel) == Seq::<
                RowV,
            >::empty() by {
                assert(assoc_get(kept_tables, sel) is None);
                assert(final(self).table_entries(sel) =~= Seq::<RouteEntry>::empty());
                assert(final(self).rows(sel) =~= Seq::<RowV>::empty());
            }
            assert forall|a: int, j2: int|
                #![trigger final(self).tables@[a].1.entries@[j2]]
                0 <= a < final(self).tables@.len() && 0 <= j2 < final(self).tables@[a].1.entries@.len() implies c1.live(
                final(self).tables@[a].1.entries@[j2].attrs as int,
            ) by {
                assert(keep@.contains(kept_tables[a].1.entries@[j2].attrs));
                assert(c0.live(kept_tables[a].1.entries@[j2].attrs as int));
                assert(c1.slots@[kept_tables[a].1.entries@[j2].attrs as int]
                    == c0.slots@[kept_tables[a].1.entries@[j2].attrs as int]);
            }
        }
    }

    /// Removes the client, every session it reported, and every table keyed
    /// to it, then reclaims unreferenced cache entries. The sole mass
    /// teardown when a router disconnects.
    pub fn client_down(&mut self, client_addr: SocketAddr)
        requires
            old(self).wf(),
        ensures
            final(self).wf(),
            forall|a: SocketAddr|
                #[trigger] final(self).client_of(a) == if a == client_addr {
                    None::<ClientV>
                } else {
                    old(self).client_of(a)
                },
            forall|s: SessionId|
                #[trigger] final(self).session_of(s) == if s.from_client == client_addr {
                    None::<Session>
                } else {
                    old(self).session_of(s)
                },
            forall|sel: TableSelector|
                #[trigger] final(self).has_table(sel) == (old(self).has_table(sel)
                    && sel.spec_client_addr() != client_addr),
            forall|sel: TableSelector|
                sel.spec_client_addr() != client_addr ==> #[trigger] final(self).rows(sel) == old(self).rows(sel),
            forall|sel: TableSelector|
                sel.spec_client_addr() == client_addr ==> #[trigger] final(self).rows(sel) == Seq::<
                    RowV,
                >::empty(),
    {
        let ghost cm = self.clients@;
        match self.find_client_idx(&client_addr) {
            Some(i) => {
                proof {
                    lemma_assoc_remove(cm, client_addr, i as int);
                }
                self.clients.remove(i);
            },
            None => {
                proof {
                    assert(!assoc_has(cm, client_addr));
                }
            },
        }
        let ghost s0 = self.sessions@;
        let mut kept: Vec<(SessionId, Session)> = Vec::new();
        let mut i: usize = 0;
        while i < self.sessions.len()
            invariant
                i <= s0.len(),
                self.sessions@ == s0,
                assoc_unique(s0),
                assoc_unique(kept@),
                forall|s: SessionId|
                    #[trigger] assoc_get(kept@, s) == (if s.from_client == client_addr {
                        None::<Session>
                    } else {
                        assoc_get(s0.take(i as int), s)
                    }),
            decreases s0.len() - i,
        {
            let p = self.sessions[i];
            let sid = p.0;
            proof {
                assert(s0.take(i + 1) =~= s0.take(i as int).push(s0[i as int]));
                assert(assoc_unique(s0.take(i as int))) by {
                    assert forall|a: int, b: int|
                        #![trigger s0.take(i as int)[a], s0.take(i as int)[b]]
                        0 <= a < b < s0.take(i as int).len() implies s0.take(i as int)[a].0
                        != s0.take(i as int)[b].0 by {
                        assert(s0.take(i as int)[a] == s0[a] && s0.take(i as int)[b] == s0[b]);
                    }
                }
                assert(!assoc_has(s0.take(i as int), sid)) by {
                    if assoc_has(s0.take(i as int), sid) {
                        let ix = crate::assoc::assoc_idx(s0.take(i as int), sid);
                        assert(s0.take(i as int)[ix] == s0[ix]);
                        assert(s0[ix].0 == sid && s0[i as int].0 == sid);
                    }
                }
                lemma_assoc_push(s0.take(i as int), sid, p.1);
            }
            if !(sid.from_client == client_addr) {
                proof {
                    assert(assoc_get(kept@, sid) is None);
                    assert(!assoc_has(kept@, sid));
                    lemma_assoc_push(kept@, sid, p.1);
                }
                let ghost kept0 = kept@;
                kept.push(p);
                proof {
                    assert forall|s: SessionId|
                        #[trigger] assoc_get(kept@, s) == (if s.from_client == client_addr {
                            None::<Session>
                        } else {
                            assoc_get(s0.take(i + 1), s)
                        }) by {
                        assert(kept@ == kept0.push((sid, p.1)));
                        assert(s0[i as int] == (sid, p.1));
                    }
                }
            } else {
                proof {
                    assert forall|s: SessionId|
                        #[trigger] assoc_get(kept@, s) == (if s.from_client == client_addr {
                            None::<Session>
                        } else {
                            assoc_get(s0.take(i + 1), s)
                        }) by {
                        assert(s0[i as int] == (sid, p.1));
                        if !(s.from_client == client_addr) {
                            assert(s != sid);
                        }
                    }
                }
            }
            i += 1;
        }
        proof {
            assert(s0.take(s0.len() as int) =~= s0);
        }
        self.sessions = kept;
        self.drop_tables(OwnerKey::Client(client_addr));
    }

    /// Removes or replaces a session and removes every table keyed to it,
    /// then reclaims unreferenced cache entries. A replacement state may be
    /// supplied atomically with the teardown.
    pub fn session_down(&mut self, session: SessionId, new_state: Option<Session>)
        requires
            old(self).wf(),
        ensures
            final(self).wf(),
            final(self).clients@ == old(self).clients@,
            forall|s: SessionId|
                #[trigger] final(self).session_of(s) == if s == session {
                    new_state
                } else {
                    old(self).session_of(s)
                },
            forall|sel: TableSelector|
                #[trigger] final(self).has_table(sel) == (old(self).has_table(sel)
                    && sel.spec_session_id() != Some(session)),
            forall|sel: TableSelector|
                sel.spec_session_id() != Some(session) ==> #[trigger] final(self).rows(sel)
                    == old(self).rows(sel),
    {
        let ghost m = self.sessions@;
        match new_state {
            Some(st) => {
                match self.find_session_idx(&session) {
                    Some(i) => {
                        proof {
                            lemma_assoc_update(m, session, st, i as int);
                        }
                        self.sessions.set(i, (session, st));
                    },
                    None => {
                        proof {
                            assert(!assoc_has(m, session));
                            lemma_assoc_push(m, session, st);
                        }
                        self.sessions.push((session, st));
                    },
                }
            },
            None => {
                match self.find_session_idx(&session) {
                    Some(i) => {
                        proof {
                            lemma_assoc_remove(m, session, i as int);
                        }
                        self.sessions.remove(i);
                    },
                    None => {
                        proof {
                            assert(!assoc_has(m, session));
                        }
                    },
                }
            },
        }
        self.drop_tables(OwnerKey::Session(session));
    }
}

/// The owner whose tables a teardown removes.
#[derive(Clone, Copy)]
enum OwnerKey {
    Client(SocketAddr),
    Session(SessionId),
}

/// The tables a teardown removes: those keyed to the owner.
spec fn owner_matches(sel: TableSelector, w: OwnerKey) -> bool {
    match w {
        OwnerKey::Client(a) => sel.spec_client_addr() == a,
        OwnerKey::Session(s) => sel.spec_session_id() == Some(s),
    }
}

/// Rows are unchanged when every handle a table uses kept its slot.
proof fn lemma_rows_kept(entries: Seq<RouteEntry>, c0: AttrsCache, c1: AttrsCache)
    requires
        forall|j: int| 0 <= j < entries.len() ==> c0.live((#[trigger] entries[j]).attrs as int),
        c1.slots@.len() == c0.slots@.len(),
        forall|j: int|
            0 <= j < entries.len() ==> c1.slots@[(#[trigger] entries[j]).attrs as int]
                == c0.slots@[entries[j].attrs as int],
    ensures
        rows_of(entries, c1) == rows_of(entries, c0),
        forall|j: int| 0 <= j < entries.len() ==> c1.live((#[trigger] entries[j]).attrs as int),
{
    assert(rows_of(entries, c1) =~= rows_of(entries, c0));
}

/// Preserving a cache's live slots preserves every table's rows.
pub proof fn lemma_rows_preserved(entries: Seq<RouteEntry>, c0: AttrsCache, c1: AttrsCache)
    requires
        forall|j: int| 0 <= j < entries.len() ==> c0.live((#[trigger] entries[j]).attrs as int),
        forall|i: int|
            c0.live(i) ==> c1.live(i) && #[trigger] c1.resolve(i) == c0.resolve(i),
    ensures
        rows_of(entries, c1) == rows_of(entries, c0),
{
    assert(rows_of(entries, c1) =~= rows_of(entries, c0));
}

/// An update at the entry level is an update at the row level.
pub proof fn lemma_rows_update(
    entries: Seq<RouteEntry>,
    c0: AttrsCache,
    c1: AttrsCache,
    pid: PathId,
    net: IpNet,
    h: usize,
)
    requires
        entries_wf(entries),
        forall|j: int| 0 <= j < entries.len() ==> c0.live((#[trigger] entries[j]).attrs as int),
        forall|i: int|
            c0.live(i) ==> c1.live(i) && #[trigger] c1.resolve(i) == c0.resolve(i),
        c1.live(h as int),
    ensures
        rows_of(spec_update(entries, pid, net, h), c1) == rows_update(
            rows_of(entries, c0),
            pid,
            net,
            c1.resolve(h as int),
        ),
{
    let rows0 = rows_of(entries, c0);
    assert(rows0.len() == entries.len());
    if has_key(entries, pid, net) {
        let k = key_index(entries, pid, net);
        assert(0 <= k < entries.len() && entry_keyed(entries[k], pid, net));
        assert(row_keyed(rows0[k], pid, net));
        assert(rows_has_key(rows0, pid, net));
        let rk = rows_key_index(rows0, pid, net);
        assert(0 <= rk < rows0.len() && row_keyed(rows0[rk], pid, net));
        assert(entry_keyed(entries[rk], pid, net));
        if rk < k {
            assert(!entry_keyed(entries[rk], entries[k].path_id, entries[k].net));
            assert(false);
        }
        if k < rk {
            assert(!entry_keyed(entries[k], entries[rk].path_id, entries[rk].net));
            assert(false);
        }
        assert(rows_of(spec_update(entries, pid, net, h), c1) =~= rows0.update(
            k,
            (pid, net, c1.resolve(h as int)),
        ));
    } else {
        assert(!rows_has_key(rows0, pid, net)) by {
            if rows_has_key(rows0, pid, net) {
                let rk = rows_key_index(rows0, pid, net);
                assert(0 <= rk < rows0.len() && row_keyed(rows0[rk], pid, net));
                assert(entry_keyed(entries[rk], pid, net));
            }
        }
        assert(rows_of(spec_update(entries, pid, net, h), c1) =~= rows0.push(
            (pid, net, c1.resolve(h as int)),
        ));
    }
}

/// A withdrawal at the entry level is a withdrawal at the row level.
pub proof fn lemma_rows_withdraw(entries: Seq<RouteEntry>, c: AttrsCache, pid: PathId, net: IpNet)
    requires
        entries_wf(entries),
    ensures
        rows_of(spec_withdraw(entries, pid, net), c) == rows_withdraw(rows_of(entries, c), pid, net),
{
    let rows0 = rows_of(entries, c);
    assert(rows0.len() == entries.len());
    if has_key(entries, pid, net) {
        let k = key_index(entries, pid, net);
        assert(0 <= k < entries.len() && entry_keyed(entries[k], pid, net));
        assert(row_keyed(rows0[k], pid, net));
        assert(rows_has_key(rows0, pid, net));
        let rk = rows_key_index(rows0, pid, net);
        assert(0 <= rk < rows0.len() && row_keyed(rows0[rk], pid, net));
        assert(entry_keyed(entries[rk], pid, net));
        if rk < k {
            assert(!entry_keyed(entries[rk], entries[k].path_id, entries[k].net));
            assert(false);
        }
        if k < rk {
            assert(!entry_keyed(entries[k], entries[rk].path_id, entries[rk].net));
            assert(false);
        }
        assert(rows_of(spec_withdraw(entries, pid, net), c) =~= rows0.remove(k));
    } else {
        assert(!rows_has_key(rows0, pid, net)) by {
            if rows_has_key(rows0, pid, net) {
                let rk = rows_key_index(rows0, pid, net);
                assert(entry_keyed(entries[rk], pid, net));
            }
        }
    }
}

} // verus!
