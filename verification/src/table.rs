//! One RIB table: a store of routes keyed by `(path_id, prefix)`, with the
//! four structured prefix queries.
//!
//! Entries hold handles into the attribute cache; the observable content of a
//! table is its sequence of rows, each row a path identifier, a prefix, and
//! the resolved attribute set.

use vstd::prelude::*;

use crate::assoc::lemma_filter_step;
use crate::attrs::AttrsCache;
use crate::attrs::RouteAttrsV;
use crate::net::IpNet;
use crate::net::PathId;

verus! {

/// One of the four structured prefix queries.
#[derive(Clone, Copy, Debug, PartialEq, Eq, Structural, Hash)]
pub enum NetQuery {
    /// Stored prefixes that contain the queried one, the exact match included.
    Contains(IpNet),
    /// The longest stored prefix containing the queried one.
    MostSpecific(IpNet),
    /// Stored entries whose prefix equals the queried one.
    Exact(IpNet),
    /// Stored prefixes that the queried one contains, itself included.
    OrLonger(IpNet),
}

impl NetQuery {
    pub open spec fn spec_net(self) -> IpNet {
        match self {
            NetQuery::Contains(n) => n,
            NetQuery::MostSpecific(n) => n,
            NetQuery::Exact(n) => n,
            NetQuery::OrLonger(n) => n,
        }
    }

    pub open spec fn wf(self) -> bool {
        self.spec_net().wf()
    }
}

/// One stored route: a path for a prefix, holding a cache handle.
#[derive(Clone, Copy, Debug)]
pub struct RouteEntry {
    pub path_id: PathId,
    pub net: IpNet,
    pub attrs: usize,
}

/// The entry is stored under the given key.
pub open spec fn entry_keyed(e: RouteEntry, pid: PathId, net: IpNet) -> bool {
    e.path_id == pid && e.net == net
}

/// Some entry is stored under the key.
pub open spec fn has_key(entries: Seq<RouteEntry>, pid: PathId, net: IpNet) -> bool {
    exists|i: int| 0 <= i < entries.len() && entry_keyed(#[trigger] entries[i], pid, net)
}

/// The index of the entry stored under the key.
pub open spec fn key_index(entries: Seq<RouteEntry>, pid: PathId, net: IpNet) -> int {
    choose|i: int| 0 <= i < entries.len() && entry_keyed(#[trigger] entries[i], pid, net)
}

/// Entry sequences are well formed when prefixes are valid and keys unique.
pub open spec fn entries_wf(entries: Seq<RouteEntry>) -> bool {
    &&& forall|i: int| 0 <= i < entries.len() ==> (#[trigger] entries[i]).net.wf()
    &&& forall|i: int, j: int|
        #![trigger entries[i], entries[j]]
        0 <= i < j < entries.len() ==> !entry_keyed(entries[i], entries[j].path_id, entries[j].net)
}

/// What an update leaves: the keyed entry replaced in place, or appended.
pub open spec fn spec_update(
    entries: Seq<RouteEntry>,
    pid: PathId,
    net: IpNet,
    h: usize,
) -> Seq<RouteEntry> {
    let e = RouteEntry { path_id: pid, net, attrs: h };
    if has_key(entries, pid, net) {
        entries.update(key_index(entries, pid, net), e)
    } else {
        entries.push(e)
    }
}

/// What a withdrawal leaves: the keyed entry removed, or everything unchanged.
pub open spec fn spec_withdraw(entries: Seq<RouteEntry>, pid: PathId, net: IpNet) -> Seq<
    RouteEntry,
> {
    if has_key(entries, pid, net) {
        entries.remove(key_index(entries, pid, net))
    } else {
        entries
    }
}

/// The length of the longest stored prefix containing `net`; negative when
/// none does.
pub open spec fn ms_len(entries: Seq<RouteEntry>, net: IpNet) -> int
    decreases entries.len(),
{
    if entries.len() == 0 {
        -1
    } else {
        let r = ms_len(entries.drop_last(), net);
        let e = entries.last();
        if e.net.spec_contains(net) && e.net.spec_prefix_len() > r {
            e.net.spec_prefix_len() as int
        } else {
            r
        }
    }
}

/// Whether an entry answers the query, against the whole table (the
/// most-specific mode compares with the longest matching stored prefix).
pub open spec fn entry_matches(
    e: RouteEntry,
    q: Option<NetQuery>,
    entries: Seq<RouteEntry>,
) -> bool {
    match q {
        None => true,
        Some(NetQuery::Contains(n)) => e.net.spec_contains(n),
        Some(NetQuery::MostSpecific(n)) => e.net.spec_contains(n) && e.net.spec_prefix_len()
            == ms_len(entries, n),
        Some(NetQuery::Exact(n)) => e.net == n,
        Some(NetQuery::OrLonger(n)) => n.spec_contains(e.net),
    }
}

/// The entries a query returns, in storage order.
pub open spec fn matching_entries(entries: Seq<RouteEntry>, q: Option<NetQuery>) -> Seq<
    RouteEntry,
> {
    entries.filter(|e: RouteEntry| entry_matches(e, q, entries))
}

/// One observable row: path identifier, prefix, resolved attribute set.
pub type RowV = (PathId, IpNet, RouteAttrsV);

/// The observable content of an entry sequence under a cache.
pub open spec fn rows_of(entries: Seq<RouteEntry>, cache: AttrsCache) -> Seq<RowV> {
    entries.map_values(|e: RouteEntry| (e.path_id, e.net, cache.resolve(e.attrs as int)))
}

/// A row is stored under the given key.
pub open spec fn row_keyed(r: RowV, pid: PathId, net: IpNet) -> bool {
    r.0 == pid && r.1 == net
}

pub open spec fn rows_has_key(rows: Seq<RowV>, pid: PathId, net: IpNet) -> bool {
    exists|i: int| 0 <= i < rows.len() && row_keyed(#[trigger] rows[i], pid, net)
}

pub open spec fn rows_key_index(rows: Seq<RowV>, pid: PathId, net: IpNet) -> int {
    choose|i: int| 0 <= i < rows.len() && row_keyed(#[trigger] rows[i], pid, net)
}

/// What an update leaves, observably.
pub open spec fn rows_update(rows: Seq<RowV>, pid: PathId, net: IpNet, a: RouteAttrsV) -> Seq<
    RowV,
> {
    if rows_has_key(rows, pid, net) {
        rows.update(rows_key_index(rows, pid, net), (pid, net, a))
    } else {
        rows.push((pid, net, a))
    }
}

/// What a withdrawal leaves, observably.
pub open spec fn rows_withdraw(rows: Seq<RowV>, pid: PathId, net: IpNet) -> Seq<RowV> {
    if rows_has_key(rows, pid, net) {
        rows.remove(rows_key_index(rows, pid, net))
    } else {
        rows
    }
}

/// A table: its entry store. One table exists per table selector.
pub struct RibTable {
    pub entries: Vec<RouteEntry>,
}

impl RibTable {
    pub open spec fn wf(self) -> bool {
        entries_wf(self.entries@)
    }

    pub fn new() -> (r: RibTable)
        ensures
            r.entries@.len() == 0,
            r.wf(),
    {
        RibTable { entries: Vec::new() }
    }

    /// Inserts or replaces the entry for `(path_id, net)`.
    pub fn update_route(&mut self, path_id: PathId, net: IpNet, h: usize)
        requires
            old(self).wf(),
            net.wf(),
        ensures
            final(self).wf(),
            final(self).entries@ == spec_update(old(self).entries@, path_id, net, h),
    {
        let ghost es = self.entries@;
        let mut i: usize = 0;
        while i < self.entries.len()
            invariant
                self == old(self),
                entries_wf(es),
                net.wf(),
                i <= es.len(),
                es == self.entries@,
                forall|j: int| 0 <= j < i ==> !entry_keyed(#[trigger] es[j], path_id, net),
            decreases es.len() - i,
        {
            let c = &self.entries[i];
            if c.path_id == path_id && c.net == net {
                let e = RouteEntry { path_id, net, attrs: h };
                proof {
                    assert(entry_keyed(es[i as int], path_id, net));
                    assert(has_key(es, path_id, net));
                    let k = key_index(es, path_id, net);
                    assert(0 <= k < es.len() && entry_keyed(es[k], path_id, net));
                    if k < i {
                        assert(false);
                    }
                    if k > i {
                        assert(!entry_keyed(es[k], es[i as int].path_id, es[i as int].net));
                        assert(false);
                    }
                }
                self.entries.set(i, e);
                proof {
                    lemma_update_keeps_wf(es, i as int, e);
                }
                return ;
            }
            i += 1;
        }
        proof {
            assert(!has_key(es, path_id, net));
        }
        let e = RouteEntry { path_id, net, attrs: h };
        self.entries.push(e);
        proof {
            let es2 = self.entries@;
            assert forall|a: int, b: int|
                #![trigger es2[a], es2[b]]
                0 <= a < b < es2.len() implies !entry_keyed(es2[a], es2[b].path_id, es2[b].net) by {
                if b < es.len() {
                } else {
                    assert(es2[b] == e);
                    assert(es2[a] == es[a]);
                }
            }
            assert forall|a: int| 0 <= a < es2.len() implies (#[trigger] es2[a]).net.wf() by {
                if a < es.len() {
                    assert(es2[a] == es[a]);
                }
            }
        }
    }

    /// Removes the entry for `(path_id, net)` if present; otherwise no-op.
    pub fn withdraw_route(&mut self, path_id: PathId, net: IpNet)
        requires
            old(self).wf(),
        ensures
            final(self).wf(),
            final(self).entries@ == spec_withdraw(old(self).entries@, path_id, net),
    {
        let ghost es = self.entries@;
        let mut i: usize = 0;
        while i < self.entries.len()
            invariant
                self == old(self),
                entries_wf(es),
                i <= es.len(),
                es == self.entries@,
                forall|j: int| 0 <= j < i ==> !entry_keyed(#[trigger] es[j], path_id, net),
            decreases es.len() - i,
        {
            let c = &self.entries[i];
            if c.path_id == path_id && c.net == net {
                proof {
                    assert(entry_keyed(es[i as int], path_id, net));
                    assert(has_key(es, path_id, net));
                    let k = key_index(es, path_id, net);
                    assert(0 <= k < es.len() && entry_keyed(es[k], path_id, net));
                    if k < i {
                        assert(false);
                    }
                    if k > i {
                        assert(!entry_keyed(es[k], es[i as int].path_id, es[i as int].net));
                        assert(false);
                    }
                }
                self.entries.remove(i);
                proof {
                    lemma_remove_keeps_wf(es, i as int);
                }
                return ;
            }
            i += 1;
        }
        proof {
            assert(!has_key(es, path_id, net));
        }
    }

    /// Answers a query: the stored entries matching it, in storage order; a
    /// missing query returns every entry.
    pub fn get_routes(&self, query: Option<&NetQuery>) -> (r: Vec<RouteEntry>)
        requires
            self.wf(),
            match query {
                Some(q) => q.wf(),
                None => true,
            },
        ensures
            r@ == matching_entries(
                self.entries@,
                match query {
                    Some(q) => Some(*q),
                    None => None,
                },
            ),
    {
        let ghost es = self.entries@;
        let ghost qv: Option<NetQuery> = match query {
            Some(q) => Some(*q),
            None => None,
        };
        let ghost pred = |e: RouteEntry| entry_matches(e, qv, es);
        let mut best: i32 = -1;
        if let Some(NetQuery::MostSpecific(n)) = query {
            let mut i: usize = 0;
            while i < self.entries.len()
                invariant
                    self.wf(),
                    es == self.entries@,
                    qv == Some(NetQuery::MostSpecific(*n)),
                    n.wf(),
                    i <= es.len(),
                    best == ms_len(es.take(i as int), *n),
                decreases es.len() - i,
            {
                let e = &self.entries[i];
                proof {
                    assert(es.take(i as int + 1).drop_last() =~= es.take(i as int));
                    assert(es.take(i as int + 1).last() == es[i as int]);
                }
                if e.net.contains_net(n) {
                    let pl = e.net.prefix_len() as i32;
                    if pl > best {
                        best = pl;
                    }
                }
                i += 1;
            }
            proof {
                assert(es.take(es.len() as int) =~= es);
            }
        }
        let mut out: Vec<RouteEntry> = Vec::new();
        let mut i: usize = 0;
        while i < self.entries.len()
            invariant
                self.wf(),
                es == self.entries@,
                match query {
                    Some(q) => q.wf() && qv == Some(*q),
                    None => qv is None,
                },
                (qv matches Some(NetQuery::MostSpecific(n)) ==> best == ms_len(es, n)),
                i <= es.len(),
                pred == (|e: RouteEntry| entry_matches(e, qv, es)),
                out@ == es.take(i as int).filter(pred),
            decreases es.len() - i,
        {
            let e = self.entries[i];
            let keep: bool = match query {
                None => true,
                Some(NetQuery::Contains(n)) => e.net.contains_net(n),
                Some(NetQuery::MostSpecific(n)) => e.net.contains_net(n) && e.net.prefix_len()
                    as i32 == best,
                Some(NetQuery::Exact(n)) => e.net == *n,
                Some(NetQuery::OrLonger(n)) => n.contains_net(&e.net),
            };
            proof {
                assert(keep == pred(es[i as int]));
                lemma_filter_step(es, pred, i as int);
            }
            if keep {
                out.push(e);
            }
            i += 1;
        }
        proof {
            assert(es.take(es.len() as int) =~= es);
        }
        out
    }
}

/// Replacing an entry under its own key preserves well-formedness.
proof fn lemma_update_keeps_wf(es: Seq<RouteEntry>, i: int, e: RouteEntry)
    requires
        entries_wf(es),
        0 <= i < es.len(),
        entry_keyed(es[i], e.path_id, e.net),
        e.net.wf(),
    ensures
        entries_wf(es.update(i, e)),
{
    let es2 = es.update(i, e);
    assert forall|a: int| 0 <= a < es2.len() implies (#[trigger] es2[a]).net.wf() by {
        if a != i {
            assert(es2[a] == es[a]);
        }
    }
    assert forall|a: int, b: int|
        #![trigger es2[a], es2[b]]
        0 <= a < b < es2.len() implies !entry_keyed(es2[a], es2[b].path_id, es2[b].net) by {
        if a != i && b != i {
            assert(es2[a] == es[a] && es2[b] == es[b]);
        } else if a == i {
            assert(es2[b] == es[b]);
            assert(!entry_keyed(es[i], es[b].path_id, es[b].net));
        } else {
            assert(es2[a] == es[a]);
            assert(!entry_keyed(es[a], es[i].path_id, es[i].net));
        }
    }
}

/// Removing an entry preserves well-formedness.
proof fn lemma_remove_keeps_wf(es: Seq<RouteEntry>, i: int)
    requires
        entries_wf(es),
        0 <= i < es.len(),
    ensures
        entries_wf(es.remove(i)),
{
    let es2 = es.remove(i);
    assert forall|a: int| 0 <= a < es2.len() implies (#[trigger] es2[a]).net.wf() by {
        if a < i {
            assert(es2[a] == es[a]);
        } else {
            assert(es2[a] == es[a + 1]);
        }
    }
    assert forall|a: int, b: int|
        #![trigger es2[a], es2[b]]
        0 <= a < b < es2.len() implies !entry_keyed(es2[a], es2[b].path_id, es2[b].net) by {
        let a0 = if a < i {
            a
        } else {
            a + 1
        };
        let b0 = if b < i {
            b
        } else {
            b + 1
        };
        assert(es2[a] == es[a0] && es2[b] == es[b0]);
        assert(!entry_keyed(es[a0], es[b0].path_id, es[b0].net));
    }
}

} // verus!
