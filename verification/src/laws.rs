//! Laws of the route store, stated over the observable row sequences that
//! the mutators' contracts use.
//!
//! `update_route` moves a table's rows by `rows_update` and `withdraw_route`
//! by `rows_withdraw`, so each law about consecutive calls is a law about
//! composing those two functions; a well-formed store keeps every table's
//! keys unique, which the laws assume.

use vstd::prelude::*;

use crate::attrs::RouteAttrsV;
use crate::net::IpNet;
use crate::net::PathId;
use crate::store::InMemoryStore;
use crate::store::TableSelector;
use crate::table::row_keyed;
use crate::table::rows_has_key;
use crate::table::rows_key_index;
use crate::table::rows_update;
use crate::table::rows_withdraw;
use crate::table::RowV;

verus! {

/// No key occurs twice among the rows.
pub open spec fn rows_unique(rows: Seq<RowV>) -> bool {
    forall|i: int, j: int|
        #![trigger rows[i], rows[j]]
        0 <= i < j < rows.len() ==> !(rows[i].0 == rows[j].0 && rows[i].1 == rows[j].1)
}

/// A well-formed store's tables all have unique keys.
pub proof fn lemma_store_rows_unique(s: InMemoryStore, sel: TableSelector)
    requires
        s.wf(),
    ensures
        rows_unique(s.rows(sel)),
{
    let es = s.table_entries(sel);
    match crate::assoc::assoc_get(s.tables@, sel) {
        Some(t) => {
            let ix = crate::assoc::assoc_idx(s.tables@, sel);
            assert(0 <= ix < s.tables@.len() && s.tables@[ix].0 == sel);
            assert(s.tables@[ix].1 == t);
            assert(t.wf());
            let rows = s.rows(sel);
            assert forall|i: int, j: int|
                #![trigger rows[i], rows[j]]
                0 <= i < j < rows.len() implies !(rows[i].0 == rows[j].0 && rows[i].1
                == rows[j].1) by {
                assert(rows[i].0 == es[i].path_id && rows[i].1 == es[i].net);
                assert(rows[j].0 == es[j].path_id && rows[j].1 == es[j].net);
                assert(!crate::table::entry_keyed(es[i], es[j].path_id, es[j].net));
            }
        },
        None => {
        },
    }
}

/// An update leaves its key present, its keys unique, and every other key's
/// row unchanged.
pub proof fn lemma_rows_update_frame(rows: Seq<RowV>, pid: PathId, net: IpNet, a: RouteAttrsV)
    requires
        rows_unique(rows),
    ensures
        rows_unique(rows_update(rows, pid, net, a)),
        rows_has_key(rows_update(rows, pid, net, a), pid, net),
        rows_update(rows, pid, net, a)[rows_key_index(rows_update(rows, pid, net, a), pid, net)]
            == (pid, net, a),
{
    let r1 = rows_update(rows, pid, net, a);
    if rows_has_key(rows, pid, net) {
        let k = rows_key_index(rows, pid, net);
        assert(0 <= k < rows.len() && row_keyed(rows[k], pid, net));
        assert(row_keyed(r1[k], pid, net));
        assert(rows_has_key(r1, pid, net));
        assert forall|i: int, j: int|
            #![trigger r1[i], r1[j]]
            0 <= i < j < r1.len() implies !(r1[i].0 == r1[j].0 && r1[i].1 == r1[j].1) by {
            if i != k && j != k {
                assert(r1[i] == rows[i] && r1[j] == rows[j]);
            } else if i == k {
                assert(r1[j] == rows[j]);
                assert(!(rows[k].0 == rows[j].0 && rows[k].1 == rows[j].1));
            } else {
                assert(r1[i] == rows[i]);
                assert(!(rows[i].0 == rows[k].0 && rows[i].1 == rows[k].1));
            }
        }
        let rk = rows_key_index(r1, pid, net);
        assert(0 <= rk < r1.len() && row_keyed(r1[rk], pid, net));
        if rk != k {
            assert(r1[rk] == rows[rk]);
            assert(row_keyed(rows[rk], pid, net));
            if rk < k {
                assert(!(rows[rk].0 == rows[k].0 && rows[rk].1 == rows[k].1));
            } else {
                assert(!(rows[k].0 == rows[rk].0 && rows[k].1 == rows[rk].1));
            }
            assert(false);
        }
    } else {
        let k = rows.len() as int;
        assert(r1 == rows.push((pid, net, a)));
        assert(row_keyed(r1[k], pid, net));
        assert(rows_has_key(r1, pid, net));
        assert forall|i: int, j: int|
            #![trigger r1[i], r1[j]]
            0 <= i < j < r1.len() implies !(r1[i].0 == r1[j].0 && r1[i].1 == r1[j].1) by {
            if j < k {
                assert(r1[i] == rows[i] && r1[j] == rows[j]);
            } else {
                assert(r1[i] == rows[i]);
                if row_keyed(rows[i], pid, net) {
                    assert(rows_has_key(rows, pid, net));
                }
            }
        }
        let rk = rows_key_index(r1, pid, net);
        assert(0 <= rk < r1.len() && row_keyed(r1[rk], pid, net));
        if rk != k {
            assert(r1[rk] == rows[rk]);
            assert(rows_has_key(rows, pid, net));
        }
    }
}

/// Inserting a route and then withdrawing it leaves the table without that
/// key.
pub proof fn lemma_update_then_withdraw(rows: Seq<RowV>, pid: PathId, net: IpNet, a: RouteAttrsV)
    requires
        rows_unique(rows),
    ensures
        !rows_has_key(rows_withdraw(rows_update(rows, pid, net, a), pid, net), pid, net),
{
    lemma_rows_update_frame(rows, pid, net, a);
    let r1 = rows_update(rows, pid, net, a);
    let k = rows_key_index(r1, pid, net);
    assert(0 <= k < r1.len() && row_keyed(r1[k], pid, net));
    let r2 = rows_withdraw(r1, pid, net);
    assert(r2 == r1.remove(k));
    if rows_has_key(r2, pid, net) {
        let j = rows_key_index(r2, pid, net);
        assert(0 <= j < r2.len() && row_keyed(r2[j], pid, net));
        let j0 = if j < k {
            j
        } else {
            j + 1
        };
        assert(r2[j] == r1[j0]);
        assert(j0 != k);
        if j0 < k {
            assert(!(r1[j0].0 == r1[k].0 && r1[j0].1 == r1[k].1));
        } else {
            assert(!(r1[k].0 == r1[j0].0 && r1[k].1 == r1[j0].1));
        }
        assert(false);
    }
}

/// Two consecutive identical updates leave the table as one does.
pub proof fn lemma_update_idempotent(rows: Seq<RowV>, pid: PathId, net: IpNet, a: RouteAttrsV)
    requires
        rows_unique(rows),
    ensures
        rows_update(rows_update(rows, pid, net, a), pid, net, a) == rows_update(
            rows,
            pid,
            net,
            a,
        ),
{
    lemma_rows_update_frame(rows, pid, net, a);
    let r1 = rows_update(rows, pid, net, a);
    let k = rows_key_index(r1, pid, net);
    assert(r1[k] == (pid, net, a));
    assert(rows_update(r1, pid, net, a) == r1.update(k, (pid, net, a)));
    assert(r1.update(k, (pid, net, a)) =~= r1);
}

} // verus!
