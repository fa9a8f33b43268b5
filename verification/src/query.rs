//! The query engine: selecting candidate tables, scanning each, filtering by
//! an AS-path regular expression, truncating, and enriching rows with client
//! and session records.
//!
//! Candidates come from the table query: one explicit table, a client's
//! tables, a router's, a session's, or all of them; only candidates with the
//! query's route distinguisher take part. Each candidate table_rows_gutes at most
//! `max_results_per_table` rows and the whole answer at most `max_results`;
//! a zero limit means unbounded. A row whose owning client is missing is
//! dropped, not an error; an invalid regular expression rejects the query.

use vstd::prelude::*;

use crate::assoc::lemma_assoc_found;
use crate::assoc::lemma_filter_elements_come_from;
use crate::attrs::RouteAttrs;
use crate::attrs::RouteAttrsV;
use crate::net::IpNet;
use crate::rd::RouteDistinguisher;
use crate::re_match::regex_match;
use crate::re_match::regex_try_match;
use crate::re_match::regex_is_valid;
use crate::re_match::regex_valid;
use crate::store::Client;
use crate::store::ClientV;
use crate::store::InMemoryStore;
use crate::store::QueryLimits;
use crate::store::RouteState;
use crate::store::Session;
use crate::store::SocketAddr;
use crate::store::TableQuery;
use crate::store::TableSelector;
use crate::table::matching_entries;
use crate::table::rows_of;
use crate::table::NetQuery;
use crate::table::RouteEntry;
use crate::table::RowV;
use crate::text::as_path_text;
use crate::text::render_as_path;

verus! {

/// A query against the store.
#[derive(Debug)]
pub struct Query {
    pub table_query: Option<TableQuery>,
    pub net_query: NetQuery,
    pub limits: Option<QueryLimits>,
    pub as_path_regex: Option<String>,
    pub route_distinguisher: RouteDistinguisher,
}

/// One answered row, enriched with its table, client, and session.
#[derive(Debug)]
pub struct QueryResult {
    pub state: RouteState,
    pub net: IpNet,
    pub table: TableSelector,
    pub client: Client,
    pub session: Option<Session>,
    pub attrs: RouteAttrs,
}

/// The mathematical value of an answered row.
pub ghost struct QueryResultV {
    pub state: RouteState,
    pub net: IpNet,
    pub table: TableSelector,
    pub client: ClientV,
    pub session: Option<Session>,
    pub attrs: RouteAttrsV,
}

impl View for QueryResult {
    type V = QueryResultV;

    open spec fn view(&self) -> QueryResultV {
        QueryResultV {
            state: self.state,
            net: self.net,
            table: self.table,
            client: self.client@,
            session: self.session,
            attrs: self.attrs@,
        }
    }
}

/// Why a query is rejected.
#[derive(Clone, Copy, Debug, PartialEq, Eq, Structural)]
pub enum QueryError {
    InvalidRegex,
}

/// The selectors of the store's tables, in storage order.
pub open spec fn table_keys(s: InMemoryStore) -> Seq<TableSelector> {
    s.tables@.map_values(|p: (TableSelector, crate::table::RibTable)| p.0)
}

/// Whether a selector takes part in a non-explicit table query.
pub open spec fn sel_pred(
    s: InMemoryStore,
    tq: Option<TableQuery>,
    rd: RouteDistinguisher,
    sel: TableSelector,
) -> bool {
    &&& sel.route_distinguisher == rd
    &&& match tq {
        None => true,
        Some(TableQuery::Client(a)) => sel.spec_client_addr() == a,
        Some(TableQuery::Router(rid)) => match s.client_of(sel.spec_client_addr()) {
            Some(c) => c.router_id == rid,
            None => false,
        },
        Some(TableQuery::Session(sid)) => sel.spec_session_id() == Some(sid),
        Some(TableQuery::Table(_)) => true,
    }
}

/// The participating selectors among the first `i` tables.
pub open spec fn candidates_upto(
    s: InMemoryStore,
    tq: Option<TableQuery>,
    rd: RouteDistinguisher,
    i: int,
) -> Seq<TableSelector>
    decreases i,
{
    if i <= 0 {
        Seq::empty()
    } else {
        candidates_upto(s, tq, rd, i - 1) + if sel_pred(s, tq, rd, table_keys(s)[i - 1]) {
            seq![table_keys(s)[i - 1]]
        } else {
            Seq::empty()
        }
    }
}

/// The candidate tables of a query: the explicit table when one is named,
/// otherwise every table passing the query's filters.
pub open spec fn candidates(
    s: InMemoryStore,
    tq: Option<TableQuery>,
    rd: RouteDistinguisher,
) -> Seq<TableSelector> {
    match tq {
        Some(TableQuery::Table(t)) => if s.has_table(t) && t.route_distinguisher == rd {
            seq![t]
        } else {
            Seq::empty()
        },
        _ => candidates_upto(s, tq, rd, table_keys(s).len() as int),
    }
}

/// Whether a row passes the AS-path filter: with no pattern every row does;
/// with one, only rows carrying an AS path the pattern matches.
pub open spec fn row_passes(row: RowV, re: Option<Seq<char>>) -> bool {
    match re {
        None => true,
        Some(p) => match row.2.as_path {
            Some(ap) => regex_match(p, as_path_text(ap)),
            None => false,
        },
    }
}

/// The rows among the first `i` that pass the filter.
pub open spec fn filtered_upto(rows: Seq<RowV>, re: Option<Seq<char>>, i: int) -> Seq<RowV>
    decreases i,
{
    if i <= 0 {
        Seq::empty()
    } else {
        filtered_upto(rows, re, i - 1) + if row_passes(rows[i - 1], re) {
            seq![rows[i - 1]]
        } else {
            Seq::empty()
        }
    }
}

/// What one table table_rows_gutes: its matching rows that pass the filter, the
/// first `per` of them.
pub open spec fn table_rows_gution(
    s: InMemoryStore,
    sel: TableSelector,
    nq: NetQuery,
    re: Option<Seq<char>>,
    per: nat,
) -> Seq<RowV> {
    let m = rows_of(matching_entries(s.table_entries(sel), Some(nq)), s.cache);
    let fr = filtered_upto(m, re, m.len() as int);
    if per < fr.len() {
        fr.take(per as int)
    } else {
        fr
    }
}

/// The table_rows_gution rows tagged with their selector.
pub open spec fn tagged_upto(sel: TableSelector, rows: Seq<RowV>, i: int) -> Seq<
    (TableSelector, RowV),
>
    decreases i,
{
    if i <= 0 {
        Seq::empty()
    } else {
        tagged_upto(sel, rows, i - 1).push((sel, rows[i - 1]))
    }
}

/// The tagged table_rows_gutions of the first `i` candidates, in candidate order.
pub open spec fn gathered_upto(
    s: InMemoryStore,
    sels: Seq<TableSelector>,
    nq: NetQuery,
    re: Option<Seq<char>>,
    per: nat,
    i: int,
) -> Seq<(TableSelector, RowV)>
    decreases i,
{
    if i <= 0 {
        Seq::empty()
    } else {
        let c = table_rows_gution(s, sels[i - 1], nq, re, per);
        gathered_upto(s, sels, nq, re, per, i - 1) + tagged_upto(sels[i - 1], c, c.len() as int)
    }
}

/// What a row becomes in the answer: nothing when its client is gone, else
/// the row enriched with the table's state, its client, and its session.
pub open spec fn enrich_one(s: InMemoryStore, sel: TableSelector, row: RowV) -> Option<
    QueryResultV,
> {
    match s.client_of(sel.spec_client_addr()) {
        None => None,
        Some(c) => Some(
            QueryResultV {
                state: sel.spec_route_state(),
                net: row.1,
                table: sel,
                client: c,
                session: match sel.spec_session_id() {
                    Some(sid) => s.session_of(sid),
                    None => None,
                },
                attrs: row.2,
            },
        ),
    }
}

/// The answers for the first `i` gathered rows.
pub open spec fn enriched_upto(
    s: InMemoryStore,
    pairs: Seq<(TableSelector, RowV)>,
    i: int,
) -> Seq<QueryResultV>
    decreases i,
{
    if i <= 0 {
        Seq::empty()
    } else {
        enriched_upto(s, pairs, i - 1) + match enrich_one(s, pairs[i - 1].0, pairs[i - 1].1) {
            Some(q) => seq![q],
            None => Seq::empty(),
        }
    }
}

/// The whole answer of a query, before the overall cap.
pub open spec fn answers(
    s: InMemoryStore,
    tq: Option<TableQuery>,
    nq: NetQuery,
    rd: RouteDistinguisher,
    re: Option<Seq<char>>,
    per: nat,
) -> Seq<QueryResultV> {
    let cands = candidates(s, tq, rd);
    let pairs = gathered_upto(s, cands, nq, re, per, cands.len() as int);
    enriched_upto(s, pairs, pairs.len() as int)
}

/// The query's pattern, viewed.
pub open spec fn re_of(q: Query) -> Option<Seq<char>> {
    match q.as_path_regex {
        Some(p) => Some(p@),
        None => None,
    }
}

/// A limit with zero meaning unbounded.
pub open spec fn effective(limit: usize) -> nat {
    if limit == 0 {
        usize::MAX as nat
    } else {
        limit as nat
    }
}

/// The query's limits, defaulted when absent.
pub open spec fn limits_of(q: Query) -> (nat, nat) {
    let l = match q.limits {
        Some(l) => l,
        None => QueryLimits { max_results_per_table: 200, max_results: 500 },
    };
    (effective(l.max_results_per_table), effective(l.max_results))
}

/// The answer sequence the query is owed: the answers, capped overall.
pub open spec fn query_results(s: InMemoryStore, q: Query) -> Seq<QueryResultV> {
    let full = answers(s, q.table_query, q.net_query, q.route_distinguisher, re_of(q), limits_of(q).0);
    if limits_of(q).1 < full.len() {
        full.take(limits_of(q).1 as int)
    } else {
        full
    }
}

impl InMemoryStore {
    /// Looks up the client registered for an address.
    fn lookup_client(&self, addr: SocketAddr) -> (r: Option<&Client>)
        requires
            self.wf(),
        ensures
            match r {
                Some(c) => self.client_of(addr) == Some(c@),
                None => self.client_of(addr) is None,
            },
    {
        match self.find_client_idx(&addr) {
            Some(i) => {
                proof {
                    lemma_assoc_found(self.clients@, addr, i as int);
                }
                Some(&self.clients[i].1)
            },
            None => {
                proof {
                    assert(!crate::assoc::assoc_has(self.clients@, addr));
                }
                None
            },
        }
    }

    /// Answers a query, or rejects it when its regular expression is
    /// invalid. The answer is the query's candidate tables scanned in order,
    /// each table_rows_guting its matching, filter-passing rows up to the
    /// per-table cap, enriched with client and session and capped overall.
    pub fn get_routes(&self, query: &Query) -> (r: Result<Vec<QueryResult>, QueryError>)
        requires
            self.wf(),
            query.net_query.wf(),
        ensures
            (r is Err) <==> (match query.as_path_regex {
                Some(p) => !regex_valid(p@),
                None => false,
            }),
            match r {
                Ok(v) => {
                    let rs = query_results(*self, *query);
                    v@.len() == rs.len() && (forall|i: int|
                        0 <= i < v@.len() ==> (#[trigger] v@[i])@ == rs[i])
                },
                Err(_) => true,
            },
    {
        let l = match query.limits {
            Some(l) => l,
            None => QueryLimits::default(),
        };
        let per: usize = if l.max_results_per_table == 0 {
            usize::MAX
        } else {
            l.max_results_per_table
        };
        let tot: usize = if l.max_results == 0 {
            usize::MAX
        } else {
            l.max_results
        };
        proof {
            assert(per as nat == limits_of(*query).0);
            assert(tot as nat == limits_of(*query).1);
        }
        match &query.as_path_regex {
            Some(p) => {
                if !regex_is_valid(p.as_str()) {
                    return Err(QueryError::InvalidRegex);
                }
            },
            None => {},
        }
        let ghost re = re_of(*query);
        let ghost tq = query.table_query;
        let ghost rd = query.route_distinguisher;
        let nq = query.net_query;
        proof {
            assert(match re {
                Some(p) => regex_valid(p),
                None => true,
            });
        }
        let mut cands: Vec<TableSelector> = Vec::new();
        let mut explicit = false;
        match &query.table_query {
            Some(TableQuery::Table(t)) => {
                explicit = true;
                if t.route_distinguisher == query.route_distinguisher {
                    match self.find_table_idx(t) {
                        Some(i) => {
                            proof {
                                lemma_assoc_found(self.tables@, *t, i as int);
                            }
                            cands.push(*t);
                        },
                        None => {
                            proof {
                                assert(!crate::assoc::assoc_has(self.tables@, *t));
                            }
                        },
                    }
                }
                proof {
                    assert(cands@ =~= candidates(*self, tq, rd));
                }
            },
            _ => {},
        }
        if !explicit {
            let n = self.tables.len();
            let mut i: usize = 0;
            while i < n
                invariant
                    self.wf(),
                    n == self.tables@.len(),
                    i <= n,
                    tq == query.table_query,
                    rd == query.route_distinguisher,
                    !(tq matches Some(TableQuery::Table(_))),
                    cands@ == candidates_upto(*self, tq, rd, i as int),
                decreases n - i,
            {
                let sel = self.tables[i].0;
                proof {
                    assert(table_keys(*self)[i as int] == sel);
                }
                let rd_ok = sel.route_distinguisher == query.route_distinguisher;
                let keep: bool = rd_ok && (match &query.table_query {
                    None => true,
                    Some(TableQuery::Client(a)) => sel.client_addr() == *a,
                    Some(TableQuery::Router(rid)) => match self.lookup_client(sel.client_addr()) {
                        Some(c) => c.router_id == *rid,
                        None => false,
                    },
                    Some(TableQuery::Session(sid)) => match sel.session_id() {
                        Some(x) => x == *sid,
                        None => false,
                    },
                    Some(TableQuery::Table(_)) => true,
                });
                proof {
                    assert(keep == sel_pred(*self, tq, rd, sel));
                }
                if keep {
                    cands.push(sel);
                }
                proof {
                    assert(cands@ =~= candidates_upto(*self, tq, rd, i as int + 1));
                }
                i += 1;
            }
            proof {
                assert(cands@ == candidates(*self, tq, rd));
            }
        }
        let ghost spec_cands = candidates(*self, tq, rd);
        let mut pairs: Vec<(TableSelector, IpNet, RouteAttrs)> = Vec::new();
        let mut ci: usize = 0;
        while ci < cands.len()
            invariant
                self.wf(),
                nq == query.net_query,
                nq.wf(),
                re == re_of(*query),
                (match re {
                    Some(p) => regex_valid(p),
                    None => true,
                }),
                cands@ == spec_cands,
                ci <= spec_cands.len(),
                pairs@.len() == gathered_upto(*self, spec_cands, nq, re, per as nat, ci as int).len(),
                forall|m: int|
                    0 <= m < pairs@.len() ==> (#[trigger] pairs@[m]).0 == gathered_upto(
                        *self,
                        spec_cands,
                        nq,
                        re,
                        per as nat,
                        ci as int,
                    )[m].0 && pairs@[m].1 == gathered_upto(
                        *self,
                        spec_cands,
                        nq,
                        re,
                        per as nat,
                        ci as int,
                    )[m].1.1 && pairs@[m].2@ == gathered_upto(
                        *self,
                        spec_cands,
                        nq,
                        re,
                        per as nat,
                        ci as int,
                    )[m].1.2,
            decreases cands@.len() - ci,
        {
            let ghost gprev = gathered_upto(*self, spec_cands, nq, re, per as nat, ci as int);
            let sel = cands[ci];
            let ghost table_rows_g = table_rows_gution(*self, sel, nq, re, per as nat);
            let ghost ment = matching_entries(self.table_entries(sel), Some(nq));
            let ghost m = rows_of(ment, self.cache);
            match self.find_table_idx(&sel) {
                Some(tix) => {
                    proof {
                        lemma_assoc_found(self.tables@, sel, tix as int);
                        assert(self.tables@[tix as int].1.wf());
                    }
                    let matched = self.tables[tix].1.get_routes(Some(&nq));
                    proof {
                        assert(self.table_entries(sel) == self.tables@[tix as int].1.entries@);
                        assert(matched@ == ment);
                        let es = self.tables@[tix as int].1.entries@;
                        assert forall|x: int|
                            0 <= x < ment.len() implies self.cache.live(
                            (#[trigger] ment[x]).attrs as int,
                        ) by {
                            lemma_filter_elements_come_from(
                                es,
                                |e: RouteEntry|
                                    crate::table::entry_matches(e, Some(nq), es),
                                x,
                            );
                            let src = choose|i2: int|
                                0 <= i2 < es.len() && es[i2] == ment[x];
                            assert(self.cache.live(
                                self.tables@[tix as int].1.entries@[src].attrs as int,
                            ));
                        }
                    }
                    let mut trows: Vec<(IpNet, RouteAttrs)> = Vec::new();
                    let mut k: usize = 0;
                    while k < matched.len()
                        invariant
                            self.wf(),
                            matched@ == ment,
                            m == rows_of(ment, self.cache),
                            forall|x: int|
                                0 <= x < ment.len() ==> self.cache.live(
                                    (#[trigger] ment[x]).attrs as int,
                                ),
                            re == re_of(*query),
                            (match re {
                                Some(p) => regex_valid(p),
                                None => true,
                            }),
                            k <= ment.len(),
                            trows@.len() == filtered_upto(m, re, k as int).len(),
                            forall|x: int|
                                0 <= x < trows@.len() ==> (#[trigger] trows@[x]).0
                                    == filtered_upto(m, re, k as int)[x].1 && trows@[x].1@
                                    == filtered_upto(m, re, k as int)[x].2,
                        decreases matched@.len() - k,
                    {
                        let e = matched[k];
                        let a = self.cache.get(e.attrs);
                        proof {
                            assert(m[k as int] == (
                                e.path_id,
                                e.net,
                                self.cache.resolve(e.attrs as int),
                            ));
                            assert(a@ == m[k as int].2);
                        }
                        let keep: bool = match &query.as_path_regex {
                            None => true,
                            Some(p) => match &a.as_path {
                                None => false,
                                Some(ap) => {
                                    let txt = render_as_path(ap);
                                    match regex_try_match(p.as_str(), txt.as_slice()) {
                                        Some(b) => b,
                                        None => false,
                                    }
                                },
                            },
                        };
                        proof {
                            assert(keep == row_passes(m[k as int], re));
                        }
                        if keep {
                            trows.push((e.net, a.clone()));
                        }
                        proof {
                            assert(filtered_upto(m, re, k as int + 1) == filtered_upto(
                                m,
                                re,
                                k as int,
                            ) + (if row_passes(m[k as int], re) {
                                seq![m[k as int]]
                            } else {
                                Seq::<RowV>::empty()
                            }));
                        }
                        k += 1;
                    }
                    let lim: usize = if trows.len() < per {
                        trows.len()
                    } else {
                        per
                    };
                    proof {
                        assert(lim as int == table_rows_g.len());
                    }
                    let mut k2: usize = 0;
                    while k2 < lim
                        invariant
                            lim <= trows@.len(),
                            k2 <= lim,
                            table_rows_g == table_rows_gution(*self, sel, nq, re, per as nat),
                            lim as int == table_rows_g.len(),
                            forall|x: int|
                                0 <= x < lim ==> table_rows_g[x] == filtered_upto(
                                    m,
                                    re,
                                    m.len() as int,
                                )[x],
                            trows@.len() == filtered_upto(m, re, m.len() as int).len(),
                            forall|x: int|
                                0 <= x < trows@.len() ==> (#[trigger] trows@[x]).0
                                    == filtered_upto(m, re, m.len() as int)[x].1 && trows@[x].1@
                                    == filtered_upto(m, re, m.len() as int)[x].2,
                            pairs@.len() == gprev.len() + k2,
                            forall|x: int|
                                0 <= x < gprev.len() ==> (#[trigger] pairs@[x]).0 == gprev[x].0
                                    && pairs@[x].1 == gprev[x].1.1 && pairs@[x].2@
                                    == gprev[x].1.2,
                            forall|x: int|
                                0 <= x < k2 ==> (#[trigger] pairs@[gprev.len() + x]).0 == sel
                                    && pairs@[gprev.len() + x].1 == table_rows_g[x].1 && pairs@[
                                gprev.len() + x].2@ == table_rows_g[x].2,
                        decreases lim - k2,
                    {
                        let p2 = &trows[k2];
                        pairs.push((sel, p2.0, p2.1.clone()));
                        k2 += 1;
                    }
                },
                None => {
                    proof {
                        assert(!crate::assoc::assoc_has(self.tables@, sel));
                        assert(self.table_entries(sel) =~= Seq::<RouteEntry>::empty());
                        reveal(Seq::filter);
                        assert(ment.len() == 0);
                        assert(m.len() == 0);
                        assert(table_rows_g.len() == 0);
                    }
                },
            }
            proof {
                let gnext = gathered_upto(*self, spec_cands, nq, re, per as nat, ci as int + 1);
                assert(spec_cands[ci as int] == sel);
                assert(gnext == gprev + tagged_upto(sel, table_rows_g, table_rows_g.len() as int));
                lemma_tagged_props(sel, table_rows_g, table_rows_g.len() as int);
                assert(pairs@.len() == gnext.len());
                assert forall|m: int|
                    0 <= m < pairs@.len() implies ((#[trigger] pairs@[m]).0 == gnext[m].0
                    && pairs@[m].1 == gnext[m].1.1 && pairs@[m].2@ == gnext[m].1.2) by {
                    if m < gprev.len() {
                        assert(gnext[m] == gprev[m]);
                    } else {
                        let x = m - gprev.len();
                        assert(pairs@[gprev.len() + x] == pairs@[m]);
                        assert(gnext[m] == tagged_upto(
                            sel,
                            table_rows_g,
                            table_rows_g.len() as int,
                        )[x]);
                        assert(gnext[m] == (sel, table_rows_g[x]));
                    }
                }
            }
            ci += 1;
        }
        let ghost spec_pairs = gathered_upto(
            *self,
            spec_cands,
            nq,
            re,
            per as nat,
            spec_cands.len() as int,
        );
        let mut out: Vec<QueryResult> = Vec::new();
        let mut mi: usize = 0;
        while mi < pairs.len()
            invariant
                self.wf(),
                mi <= pairs@.len(),
                pairs@.len() == spec_pairs.len(),
                forall|x: int|
                    0 <= x < pairs@.len() ==> (#[trigger] pairs@[x]).0 == spec_pairs[x].0
                        && pairs@[x].1 == spec_pairs[x].1.1 && pairs@[x].2@ == spec_pairs[x].1.2,
                out@.len() == enriched_upto(*self, spec_pairs, mi as int).len(),
                forall|x: int|
                    0 <= x < out@.len() ==> (#[trigger] out@[x])@ == enriched_upto(
                        *self,
                        spec_pairs,
                        mi as int,
                    )[x],
            decreases pairs@.len() - mi,
        {
            let pr = &pairs[mi];
            let sel = pr.0;
            match self.lookup_client(sel.client_addr()) {
                Some(c) => {
                    let cl = c.clone();
                    let sess: Option<Session> = match sel.session_id() {
                        Some(sid) => {
                            match self.find_session_idx(&sid) {
                                Some(si) => {
                                    proof {
                                        lemma_assoc_found(self.sessions@, sid, si as int);
                                    }
                                    Some(self.sessions[si].1)
                                },
                                None => {
                                    proof {
                                        assert(!crate::assoc::assoc_has(self.sessions@, sid));
                                    }
                                    None
                                },
                            }
                        },
                        None => None,
                    };
                    out.push(
                        QueryResult {
                            state: sel.route_state(),
                            net: pr.1,
                            table: sel,
                            client: cl,
                            session: sess,
                            attrs: pr.2.clone(),
                        },
                    );
                    proof {
                        let q = enrich_one(*self, spec_pairs[mi as int].0, spec_pairs[mi as int].1);
                        assert(q is Some);
                        assert(out@[out@.len() - 1]@ == q->Some_0);
                    }
                },
                None => {
                    proof {
                        assert(enrich_one(*self, spec_pairs[mi as int].0, spec_pairs[mi as int].1)
                            is None);
                    }
                },
            }
            mi += 1;
        }
        proof {
            assert(out@.len() == enriched_upto(*self, spec_pairs, spec_pairs.len() as int).len());
        }
        let ghost full = out@;
        if out.len() > tot {
            out.truncate(tot);
        }
        proof {
            let rs = query_results(*self, *query);
            assert(out@.len() == rs.len());
            assert forall|x: int| 0 <= x < out@.len() implies (#[trigger] out@[x])@ == rs[x] by {
                assert(out@[x] == full[x]);
            }
        }
        Ok(out)
    }
}

/// The rows a tagging carries: the selector on the left, the row on the
/// right, in order.
pub proof fn lemma_tagged_props(sel: TableSelector, rows: Seq<RowV>, i: int)
    requires
        0 <= i <= rows.len(),
    ensures
        tagged_upto(sel, rows, i).len() == i,
        forall|x: int|
            0 <= x < i ==> (#[trigger] tagged_upto(sel, rows, i)[x]) == (sel, rows[x]),
    decreases i,
{
    if i > 0 {
        lemma_tagged_props(sel, rows, i - 1);
    }
}


/// The pair `(a, rd)` appears in a routing-instance listing.
pub open spec fn inst_has(
    r: Seq<(SocketAddr, Vec<RouteDistinguisher>)>,
    a: SocketAddr,
    rd: RouteDistinguisher,
) -> bool {
    exists|i: int, j: int|
        #![trigger r[i].1@[j]]
        0 <= i < r.len() && 0 <= j < r[i].1@.len() && r[i].0 == a && r[i].1@[j] == rd
}

/// Adds one observed distinguisher under its client address.
fn add_instance(
    out: &mut Vec<(SocketAddr, Vec<RouteDistinguisher>)>,
    a: SocketAddr,
    rd: RouteDistinguisher,
)
    ensures
        forall|a2: SocketAddr, rd2: RouteDistinguisher|
            #[trigger] inst_has(final(out)@, a2, rd2) == (inst_has(old(out)@, a2, rd2) || (a2 == a
                && rd2 == rd)),
{
    let ghost m0 = out@;
    let mut i: usize = 0;
    while i < out.len()
        invariant
            m0 == old(out)@,
            i <= m0.len(),
            out@ == m0,
            forall|x: int| 0 <= x < i ==> (#[trigger] m0[x]).0 != a,
        decreases m0.len() - i,
    {
        if out[i].0 == a {
            let mut j: usize = 0;
            let n = out[i].1.len();
            while j < n
                invariant
                    m0 == old(out)@,
                    i < m0.len(),
                    out@ == m0,
                    m0[i as int].0 == a,
                    n == m0[i as int].1@.len(),
                    j <= n,
                    forall|y: int| 0 <= y < j ==> m0[i as int].1@[y] != rd,
                decreases n - j,
            {
                if out[i].1[j] == rd {
                    proof {
                        assert(m0[i as int].1@[j as int] == rd);
                        assert(inst_has(m0, a, rd));
                    }
                    return ;
                }
                j += 1;
            }
            let (a0, mut v) = out.remove(i);
            let ghost v0 = v@;
            v.push(rd);
            let ghost v1 = v@;
            out.insert(i, (a0, v));
            proof {
                assert(out@.len() == m0.len());
                assert(out@[i as int].0 == a);
                assert(out@[i as int].1@ == v1);
                assert(v1 == v0.push(rd));
                assert(v0 == m0[i as int].1@);
                assert forall|x: int| 0 <= x < m0.len() && x != i implies out@[x] == m0[x] by {
                    if x < i {
                        assert(m0.remove(i as int)[x] == m0[x]);
                    } else {
                        assert(m0.remove(i as int)[x - 1] == m0[x]);
                    }
                }
                assert forall|a2: SocketAddr, rd2: RouteDistinguisher|
                    #[trigger] inst_has(out@, a2, rd2) == (inst_has(m0, a2, rd2) || (a2 == a && rd2
                        == rd)) by {
                    if inst_has(out@, a2, rd2) {
                        let (x, y): (int, int) = choose|x: int, y: int|
                            #![trigger out@[x].1@[y]]
                            0 <= x < out@.len() && 0 <= y < out@[x].1@.len() && out@[x].0 == a2
                                && out@[x].1@[y] == rd2;
                        if x != i {
                            assert(out@[x] == m0[x]);
                            assert(m0[x].1@[y] == rd2);
                            assert(inst_has(m0, a2, rd2));
                        } else {
                            if y < v0.len() {
                                assert(m0[i as int].1@[y] == rd2);
                                assert(inst_has(m0, a2, rd2));
                            } else {
                                assert(out@[x].1@[y] == rd);
                                assert(a2 == a && rd2 == rd);
                            }
                        }
                    }
                    if inst_has(m0, a2, rd2) {
                        let (x, y): (int, int) = choose|x: int, y: int|
                            #![trigger m0[x].1@[y]]
                            0 <= x < m0.len() && 0 <= y < m0[x].1@.len() && m0[x].0 == a2
                                && m0[x].1@[y] == rd2;
                        if x != i {
                            assert(out@[x] == m0[x]);
                            assert(out@[x].1@[y] == rd2);
                            assert(inst_has(out@, a2, rd2));
                        } else {
                            assert(out@[i as int].1@[y] == v0[y]);
                            assert(out@[i as int].1@[y] == rd2);
                            assert(inst_has(out@, a2, rd2));
                        }
                    }
                    if a2 == a && rd2 == rd {
                        assert(out@[i as int].1@[v0.len() as int] == rd);
                        assert(inst_has(out@, a2, rd2));
                    }
                }
            }
            return ;
        }
        i += 1;
    }
    let mut v: Vec<RouteDistinguisher> = Vec::new();
    v.push(rd);
    let ghost v1 = v@;
    out.push((a, v));
    proof {
        assert(out@.len() == m0.len() + 1);
        assert(out@[m0.len() as int].0 == a);
        assert(out@[m0.len() as int].1@ == v1);
        assert(v1.len() == 1 && v1[0] == rd);
        assert(forall|x: int| 0 <= x < m0.len() ==> #[trigger] out@[x] == m0[x]);
        assert forall|a2: SocketAddr, rd2: RouteDistinguisher|
            #[trigger] inst_has(out@, a2, rd2) == (inst_has(m0, a2, rd2) || (a2 == a && rd2 == rd))
            by {
            if inst_has(out@, a2, rd2) {
                let (x, y): (int, int) = choose|x: int, y: int|
                    #![trigger out@[x].1@[y]]
                    0 <= x < out@.len() && 0 <= y < out@[x].1@.len() && out@[x].0 == a2
                        && out@[x].1@[y] == rd2;
                if x < m0.len() {
                    assert(out@[x] == m0[x]);
                    assert(m0[x].1@[y] == rd2);
                    assert(inst_has(m0, a2, rd2));
                } else {
                    assert(out@[x].0 == a && out@[x].1@ == v1);
                    assert(a2 == a && rd2 == rd);
                }
            }
            if inst_has(m0, a2, rd2) {
                let (x, y): (int, int) = choose|x: int, y: int|
                    #![trigger m0[x].1@[y]]
                    0 <= x < m0.len() && 0 <= y < m0[x].1@.len() && m0[x].0 == a2 && m0[x].1@[y]
                        == rd2;
                assert(out@[x] == m0[x]);
                assert(out@[x].1@[y] == rd2);
                assert(inst_has(out@, a2, rd2));
            }
            if a2 == a && rd2 == rd {
                assert(out@[m0.len() as int].1@[0] == rd);
                assert(inst_has(out@, a2, rd2));
            }
        }
    }
}

impl InMemoryStore {
    /// The distinct route distinguishers observed per client, across all its
    /// tables: the VPN instances each router takes part in.
    pub fn get_routing_instances(&self) -> (r: Vec<(SocketAddr, Vec<RouteDistinguisher>)>)
        ensures
            forall|a: SocketAddr, rd: RouteDistinguisher|
                #[trigger] inst_has(r@, a, rd) == (exists|i: int|
                    0 <= i < self.tables@.len() && (#[trigger] self.tables@[i]).0.spec_client_addr()
                        == a && self.tables@[i].0.route_distinguisher == rd),
    {
        let mut out: Vec<(SocketAddr, Vec<RouteDistinguisher>)> = Vec::new();
        let mut i: usize = 0;
        while i < self.tables.len()
            invariant
                i <= self.tables@.len(),
                forall|a: SocketAddr, rd: RouteDistinguisher|
                    #[trigger] inst_has(out@, a, rd) == (exists|x: int|
                        0 <= x < i && (#[trigger] self.tables@[x]).0.spec_client_addr() == a
                            && self.tables@[x].0.route_distinguisher == rd),
            decreases self.tables@.len() - i,
        {
            let sel = self.tables[i].0;
            add_instance(&mut out, sel.client_addr(), sel.route_distinguisher);
            proof {
                assert forall|a: SocketAddr, rd: RouteDistinguisher|
                    #[trigger] inst_has(out@, a, rd) == (exists|x: int|
                        0 <= x < i + 1 && (#[trigger] self.tables@[x]).0.spec_client_addr() == a
                            && self.tables@[x].0.route_distinguisher == rd) by {
                    if inst_has(out@, a, rd) {
                        if a == sel.spec_client_addr() && rd == sel.route_distinguisher {
                            assert(self.tables@[i as int].0.spec_client_addr() == a);
                        }
                    }
                    if exists|x: int|
                        0 <= x < i + 1 && (#[trigger] self.tables@[x]).0.spec_client_addr() == a
                            && self.tables@[x].0.route_distinguisher == rd {
                        let x = choose|x: int|
                            0 <= x < i + 1 && (#[trigger] self.tables@[x]).0.spec_client_addr()
                                == a && self.tables@[x].0.route_distinguisher == rd;
                        if x < i {
                            assert(inst_has(out@, a, rd));
                        } else {
                            assert(a == sel.spec_client_addr() && rd == sel.route_distinguisher);
                        }
                    }
                }
            }
            i += 1;
        }
        out
    }
}

} // verus!

