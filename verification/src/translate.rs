//! The update translator: decomposing a decoded BGP UPDATE into per-prefix
//! route mutations.
//!
//! The input is the decoded shape of an UPDATE: its attribute list and its
//! announcement and withdrawal NLRI. One pass over the attribute list
//! accumulates the attribute set, the latest legacy next hop, and the
//! multiprotocol announcement and withdrawal lists; the legacy lists are
//! appended after it. Every announcement becomes an `update_route` and every
//! withdrawal a `withdraw_route`, each under the table selector whose route
//! distinguisher is the entry's own, or the table's where the entry carries
//! the default sentinel. A malformed prefix length or an unknown
//! route-distinguisher type skips that one entry, never the message.

use vstd::prelude::*;

use crate::attrs::RouteAttrs;
use crate::attrs::RouteAttrsV;
use crate::attrs::RouteOrigin;
use crate::net::IpAddress;
use crate::net::IpNet;
use crate::net::Ipv4Net;
use crate::net::Ipv6Net;
use crate::net::PathId;
use crate::rd::from_wire_spec;
use crate::rd::RouteDistinguisher;
use crate::store::InMemoryStore;
use crate::store::TableSelector;
use crate::table::rows_update;
use crate::table::rows_withdraw;
use crate::table::RowV;

verus! {

/// One IPv4 NLRI entry as decoded from the wire: the route-distinguisher
/// wire pair (all-zero outside VPN families), the path identifier (zero
/// outside add-path families), and the not-yet-validated prefix.
#[derive(Clone, Copy, Debug)]
pub struct Ipv4Nlri {
    pub rd_high: u32,
    pub rd_low: u32,
    pub path_id: PathId,
    pub addr: u32,
    pub prefix_len: u8,
}

/// One IPv6 NLRI entry, as `Ipv4Nlri`.
#[derive(Clone, Copy, Debug)]
pub struct Ipv6Nlri {
    pub rd_high: u32,
    pub rd_low: u32,
    pub path_id: PathId,
    pub addr: u128,
    pub prefix_len: u8,
}

/// An NLRI collection: one of the supported address families, or a family
/// this collector ignores.
#[derive(Clone, Debug)]
pub enum BgpAddrs {
    Ipv4(Vec<Ipv4Nlri>),
    Ipv6(Vec<Ipv6Nlri>),
    Unsupported,
}

/// One decoded path attribute of an UPDATE.
#[derive(Clone, Debug)]
pub enum BgpAttrItem {
    MpUpdates { nexthop: Option<IpAddress>, addrs: BgpAddrs },
    MpWithdraws { addrs: BgpAddrs },
    NextHop { value: IpAddress },
    CommunityList { value: Vec<u32> },
    Med { value: u32 },
    LocalPref { value: u32 },
    Origin { value: RouteOrigin },
    AsPath { value: Vec<u32> },
    LargeCommunityList { value: Vec<(u32, u32, u32)> },
    Unsupported,
}

/// A decoded BGP UPDATE: attributes, announcements, withdrawals.
#[derive(Clone, Debug)]
pub struct BgpUpdateMessage {
    pub attrs: Vec<BgpAttrItem>,
    pub updates: BgpAddrs,
    pub withdraws: BgpAddrs,
}

/// A collected announcement: distinguisher, path, prefix, next hop.
pub type UpdateNet = (RouteDistinguisher, PathId, IpNet, Option<IpAddress>);

/// A collected withdrawal: distinguisher, path, prefix.
pub type WithdrawNet = (RouteDistinguisher, PathId, IpNet);

/// What one IPv4 entry contributes: nothing when its prefix length is out of
/// range or its route-distinguisher type is unknown.
pub open spec fn v4_nlri_net(e: Ipv4Nlri) -> Option<WithdrawNet> {
    if e.prefix_len <= 32 {
        match from_wire_spec(e.rd_high, e.rd_low) {
            Ok(rd) => Some((rd, e.path_id, IpNet::V4(Ipv4Net { addr: e.addr, prefix_len: e.prefix_len }))),
            Err(_) => None,
        }
    } else {
        None
    }
}

/// What one IPv6 entry contributes.
pub open spec fn v6_nlri_net(e: Ipv6Nlri) -> Option<WithdrawNet> {
    if e.prefix_len <= 128 {
        match from_wire_spec(e.rd_high, e.rd_low) {
            Ok(rd) => Some((rd, e.path_id, IpNet::V6(Ipv6Net { addr: e.addr, prefix_len: e.prefix_len }))),
            Err(_) => None,
        }
    } else {
        None
    }
}

pub open spec fn v4_nets(s: Seq<Ipv4Nlri>) -> Seq<WithdrawNet>
    decreases s.len(),
{
    if s.len() == 0 {
        Seq::empty()
    } else {
        v4_nets(s.drop_last()) + match v4_nlri_net(s.last()) {
            Some(x) => seq![x],
            None => Seq::empty(),
        }
    }
}

pub open spec fn v6_nets(s: Seq<Ipv6Nlri>) -> Seq<WithdrawNet>
    decreases s.len(),
{
    if s.len() == 0 {
        Seq::empty()
    } else {
        v6_nets(s.drop_last()) + match v6_nlri_net(s.last()) {
            Some(x) => seq![x],
            None => Seq::empty(),
        }
    }
}

/// The valid entries of an NLRI collection, in order.
pub open spec fn nets_of(addrs: BgpAddrs) -> Seq<WithdrawNet> {
    match addrs {
        BgpAddrs::Ipv4(v) => v4_nets(v@),
        BgpAddrs::Ipv6(v) => v6_nets(v@),
        BgpAddrs::Unsupported => Seq::empty(),
    }
}

pub proof fn lemma_v4_nets_step(s: Seq<Ipv4Nlri>, i: int)
    requires
        0 <= i < s.len(),
    ensures
        v4_nets(s.take(i + 1)) == v4_nets(s.take(i)) + match v4_nlri_net(s[i]) {
            Some(x) => seq![x],
            None => Seq::empty(),
        },
{
    assert(s.take(i + 1).drop_last() =~= s.take(i));
    assert(s.take(i + 1).last() == s[i]);
}

pub proof fn lemma_v6_nets_step(s: Seq<Ipv6Nlri>, i: int)
    requires
        0 <= i < s.len(),
    ensures
        v6_nets(s.take(i + 1)) == v6_nets(s.take(i)) + match v6_nlri_net(s[i]) {
            Some(x) => seq![x],
            None => Seq::empty(),
        },
{
    assert(s.take(i + 1).drop_last() =~= s.take(i));
    assert(s.take(i + 1).last() == s[i]);
}

/// Every collected entry carries a valid prefix.
pub proof fn lemma_v4_nets_wf(s: Seq<Ipv4Nlri>)
    ensures
        forall|k: int| 0 <= k < v4_nets(s).len() ==> (#[trigger] v4_nets(s)[k]).2.wf(),
    decreases s.len(),
{
    if s.len() > 0 {
        lemma_v4_nets_wf(s.drop_last());
        let prev = v4_nets(s.drop_last());
        assert forall|k: int|
            0 <= k < v4_nets(s).len() implies (#[trigger] v4_nets(s)[k]).2.wf() by {
            if k < prev.len() {
                assert(v4_nets(s)[k] == prev[k]);
            } else {
                match v4_nlri_net(s.last()) {
                    Some(x) => {
                        assert(v4_nets(s)[k] == x);
                    },
                    None => {},
                }
            }
        }
    }
}

pub proof fn lemma_v6_nets_wf(s: Seq<Ipv6Nlri>)
    ensures
        forall|k: int| 0 <= k < v6_nets(s).len() ==> (#[trigger] v6_nets(s)[k]).2.wf(),
    decreases s.len(),
{
    if s.len() > 0 {
        lemma_v6_nets_wf(s.drop_last());
        let prev = v6_nets(s.drop_last());
        assert forall|k: int|
            0 <= k < v6_nets(s).len() implies (#[trigger] v6_nets(s)[k]).2.wf() by {
            if k < prev.len() {
                assert(v6_nets(s)[k] == prev[k]);
            } else {
                match v6_nlri_net(s.last()) {
                    Some(x) => {
                        assert(v6_nets(s)[k] == x);
                    },
                    None => {},
                }
            }
        }
    }
}

/// Converts an NLRI collection to its valid entries, skipping each entry
/// whose prefix length is invalid or whose distinguisher type is unknown.
pub fn bgp_addrs_to_nets(addrs: &BgpAddrs) -> (r: Vec<WithdrawNet>)
    ensures
        r@ == nets_of(*addrs),
        forall|k: int| 0 <= k < r@.len() ==> (#[trigger] r@[k]).2.wf(),
{
    let mut out: Vec<WithdrawNet> = Vec::new();
    match addrs {
        BgpAddrs::Ipv4(v) => {
            let mut i: usize = 0;
            while i < v.len()
                invariant
                    i <= v@.len(),
                    out@ == v4_nets(v@.take(i as int)),
                decreases v@.len() - i,
            {
                let e = v[i];
                proof {
                    lemma_v4_nets_step(v@, i as int);
                }
                if e.prefix_len <= 32 {
                    match RouteDistinguisher::from_wire(e.rd_high, e.rd_low) {
                        Ok(rd) => {
                            out.push(
                                (
                                    rd,
                                    e.path_id,
                                    IpNet::V4(Ipv4Net { addr: e.addr, prefix_len: e.prefix_len }),
                                ),
                            );
                            proof {
                                assert(out@ =~= v4_nets(v@.take(i as int + 1)));
                            }
                        },
                        Err(_) => {
                            proof {
                                assert(out@ =~= v4_nets(v@.take(i as int + 1)));
                            }
                        },
                    }
                } else {
                    proof {
                        assert(out@ =~= v4_nets(v@.take(i as int + 1)));
                    }
                }
                i += 1;
            }
            proof {
                assert(v@.take(v@.len() as int) =~= v@);
                lemma_v4_nets_wf(v@);
            }
        },
        BgpAddrs::Ipv6(v) => {
            let mut i: usize = 0;
            while i < v.len()
                invariant
                    i <= v@.len(),
                    out@ == v6_nets(v@.take(i as int)),
                decreases v@.len() - i,
            {
                let e = v[i];
                proof {
                    lemma_v6_nets_step(v@, i as int);
                }
                if e.prefix_len <= 128 {
                    match RouteDistinguisher::from_wire(e.rd_high, e.rd_low) {
                        Ok(rd) => {
                            out.push(
                                (
                                    rd,
                                    e.path_id,
                                    IpNet::V6(Ipv6Net { addr: e.addr, prefix_len: e.prefix_len }),
                                ),
                            );
                            proof {
                                assert(out@ =~= v6_nets(v@.take(i as int + 1)));
                            }
                        },
                        Err(_) => {
                            proof {
                                assert(out@ =~= v6_nets(v@.take(i as int + 1)));
                            }
                        },
                    }
                } else {
                    proof {
                        assert(out@ =~= v6_nets(v@.take(i as int + 1)));
                    }
                }
                i += 1;
            }
            proof {
                assert(v@.take(v@.len() as int) =~= v@);
                lemma_v6_nets_wf(v@);
            }
        },
        BgpAddrs::Unsupported => {
        },
    }
    out
}

/// The empty attribute set.
pub open spec fn default_attrs_v() -> RouteAttrsV {
    RouteAttrsV {
        origin: None,
        as_path: None,
        communities: None,
        large_communities: None,
        med: None,
        local_pref: None,
        nexthop: None,
    }
}

/// The community attribute's wire form split into its two halves.
pub open spec fn comm_pair(v: u32) -> (u16, u16) {
    ((v >> 16u32) as u16, (v & 0xffff) as u16)
}

/// The attribute set accumulated by the first `i` attribute items; a later
/// occurrence of a field overwrites an earlier one.
pub open spec fn attrs_after(items: Seq<BgpAttrItem>, i: int) -> RouteAttrsV
    decreases i,
{
    if i <= 0 {
        default_attrs_v()
    } else {
        let prev = attrs_after(items, i - 1);
        match items[i - 1] {
            BgpAttrItem::CommunityList { value } => RouteAttrsV {
                communities: Some(value@.map_values(|v: u32| comm_pair(v))),
                ..prev
            },
            BgpAttrItem::Med { value } => RouteAttrsV { med: Some(value), ..prev },
            BgpAttrItem::LocalPref { value } => RouteAttrsV { local_pref: Some(value), ..prev },
            BgpAttrItem::Origin { value } => RouteAttrsV { origin: Some(value), ..prev },
            BgpAttrItem::AsPath { value } => RouteAttrsV { as_path: Some(value@), ..prev },
            BgpAttrItem::LargeCommunityList { value } => RouteAttrsV {
                large_communities: Some(value@),
                ..prev
            },
            _ => prev,
        }
    }
}

/// The legacy next hop after the first `i` attribute items.
pub open spec fn nexthop_after(items: Seq<BgpAttrItem>, i: int) -> Option<IpAddress>
    decreases i,
{
    if i <= 0 {
        None
    } else {
        match items[i - 1] {
            BgpAttrItem::NextHop { value } => Some(value),
            _ => nexthop_after(items, i - 1),
        }
    }
}

/// The multiprotocol announcements among the first `i` attribute items, each
/// carrying its own collection's next hop.
pub open spec fn mp_updates_after(items: Seq<BgpAttrItem>, i: int) -> Seq<UpdateNet>
    decreases i,
{
    if i <= 0 {
        Seq::empty()
    } else {
        let prev = mp_updates_after(items, i - 1);
        match items[i - 1] {
            BgpAttrItem::MpUpdates { nexthop, addrs } => prev + nets_of(addrs).map_values(
                |x: WithdrawNet| (x.0, x.1, x.2, nexthop),
            ),
            _ => prev,
        }
    }
}

/// The multiprotocol withdrawals among the first `i` attribute items.
pub open spec fn mp_withdraws_after(items: Seq<BgpAttrItem>, i: int) -> Seq<WithdrawNet>
    decreases i,
{
    if i <= 0 {
        Seq::empty()
    } else {
        let prev = mp_withdraws_after(items, i - 1);
        match items[i - 1] {
            BgpAttrItem::MpWithdraws { addrs } => prev + nets_of(addrs),
            _ => prev,
        }
    }
}

/// Every announcement an UPDATE carries: the multiprotocol ones, then the
/// legacy IPv4 unicast ones under the final legacy next hop.
pub open spec fn collected_updates(msg: BgpUpdateMessage) -> Seq<UpdateNet> {
    mp_updates_after(msg.attrs@, msg.attrs@.len() as int) + nets_of(msg.updates).map_values(
        |x: WithdrawNet| (x.0, x.1, x.2, nexthop_after(msg.attrs@, msg.attrs@.len() as int)),
    )
}

/// Every withdrawal an UPDATE carries.
pub open spec fn collected_withdraws(msg: BgpUpdateMessage) -> Seq<WithdrawNet> {
    mp_withdraws_after(msg.attrs@, msg.attrs@.len() as int) + nets_of(msg.withdraws)
}

/// The attribute set an UPDATE accumulates.
pub open spec fn collected_attrs(msg: BgpUpdateMessage) -> RouteAttrsV {
    attrs_after(msg.attrs@, msg.attrs@.len() as int)
}

/// The table an entry lands in: the entry's own distinguisher, or the
/// table's where the entry carries the default sentinel.
pub open spec fn resolve_sel(rd: RouteDistinguisher, table: TableSelector) -> TableSelector {
    TableSelector {
        route_distinguisher: if rd == RouteDistinguisher::Default {
            table.route_distinguisher
        } else {
            rd
        },
        session_id: table.session_id,
        table_type: table.table_type,
    }
}

/// A map from selectors to row sequences, the observable table state.
pub type RowsFun = spec_fn(TableSelector) -> Seq<RowV>;

pub open spec fn rows_fun(s: InMemoryStore) -> RowsFun {
    |sel: TableSelector| s.rows(sel)
}

/// The table state after the first `i` collected announcements.
pub open spec fn apply_updates(
    f: RowsFun,
    table: TableSelector,
    ups: Seq<UpdateNet>,
    base: RouteAttrsV,
    i: int,
) -> RowsFun
    decreases i,
{
    if i <= 0 {
        f
    } else {
        let g = apply_updates(f, table, ups, base, i - 1);
        let u = ups[i - 1];
        let target = resolve_sel(u.0, table);
        |sel: TableSelector|
            if sel == target {
                rows_update(g(sel), u.1, u.2, RouteAttrsV { nexthop: u.3, ..base })
            } else {
                g(sel)
            }
    }
}

/// The table state after the first `i` collected withdrawals.
pub open spec fn apply_withdraws(
    f: RowsFun,
    table: TableSelector,
    wds: Seq<WithdrawNet>,
    i: int,
) -> RowsFun
    decreases i,
{
    if i <= 0 {
        f
    } else {
        let g = apply_withdraws(f, table, wds, i - 1);
        let w = wds[i - 1];
        let target = resolve_sel(w.0, table);
        |sel: TableSelector|
            if sel == target {
                rows_withdraw(g(sel), w.1, w.2)
            } else {
                g(sel)
            }
    }
}

/// What a whole UPDATE leaves: its announcements applied in order, then its
/// withdrawals.
pub open spec fn apply_message(
    f: RowsFun,
    table: TableSelector,
    msg: BgpUpdateMessage,
) -> RowsFun {
    apply_withdraws(
        apply_updates(
            f,
            table,
            collected_updates(msg),
            collected_attrs(msg),
            collected_updates(msg).len() as int,
        ),
        table,
        collected_withdraws(msg),
        collected_withdraws(msg).len() as int,
    )
}

impl InMemoryStore {
    /// Decomposes a decoded UPDATE into per-prefix mutations and applies
    /// them: announcements first, withdrawals second, in collection order.
    pub fn insert_bgp_update(&mut self, session: TableSelector, update: BgpUpdateMessage)
        requires
            old(self).wf(),
        ensures
            final(self).wf(),
            final(self).clients@ == old(self).clients@,
            final(self).sessions@ == old(self).sessions@,
            forall|sel: TableSelector|
                #[trigger] final(self).rows(sel) == apply_message(
                    rows_fun(*old(self)),
                    session,
                    update,
                )(sel),
    {
        let ghost items = update.attrs@;
        let n = update.attrs.len();
        let mut attrs = RouteAttrs {
            origin: None,
            as_path: None,
            communities: None,
            large_communities: None,
            med: None,
            local_pref: None,
            nexthop: None,
        };
        let mut nexthop: Option<IpAddress> = None;
        let mut update_nets: Vec<UpdateNet> = Vec::new();
        let mut withdraw_nets: Vec<WithdrawNet> = Vec::new();
        proof {
            assert(attrs@ =~= default_attrs_v());
        }
        let mut i: usize = 0;
        while i < n
            invariant
                n == items.len(),
                i <= n,
                update.attrs@ == items,
                attrs@ == attrs_after(items, i as int),
                nexthop == nexthop_after(items, i as int),
                update_nets@ == mp_updates_after(items, i as int),
                withdraw_nets@ == mp_withdraws_after(items, i as int),
                forall|k: int| 0 <= k < update_nets@.len() ==> (#[trigger] update_nets@[k]).2.wf(),
                forall|k: int|
                    0 <= k < withdraw_nets@.len() ==> (#[trigger] withdraw_nets@[k]).2.wf(),
            decreases n - i,
        {
            let ghost prev_attrs = attrs@;
            match &update.attrs[i] {
                BgpAttrItem::MpUpdates { nexthop: nh, addrs } => {
                    let nets = bgp_addrs_to_nets(addrs);
                    let ghost before = update_nets@;
                    let mut k: usize = 0;
                    while k < nets.len()
                        invariant
                            k <= nets@.len(),
                            forall|m: int| 0 <= m < nets@.len() ==> (#[trigger] nets@[m]).2.wf(),
                            update_nets@ == before + nets@.take(k as int).map_values(
                                |x: WithdrawNet| (x.0, x.1, x.2, *nh),
                            ),
                            forall|m: int|
                                0 <= m < update_nets@.len() ==> (
                                #[trigger] update_nets@[m]).2.wf(),
                        decreases nets@.len() - k,
                    {
                        let x = nets[k];
                        update_nets.push((x.0, x.1, x.2, *nh));
                        proof {
                            assert(nets@.take(k as int + 1) =~= nets@.take(k as int).push(
                                nets@[k as int],
                            ));
                            assert(update_nets@ =~= before + nets@.take(k as int + 1).map_values(
                                |x: WithdrawNet| (x.0, x.1, x.2, *nh),
                            ));
                        }
                        k += 1;
                    }
                    proof {
                        assert(nets@.take(nets@.len() as int) =~= nets@);
                        assert(items[i as int] == BgpAttrItem::MpUpdates {
                            nexthop: *nh,
                            addrs: *addrs,
                        });
                        assert(update_nets@ =~= mp_updates_after(items, i as int + 1));
                    }
                },
                BgpAttrItem::MpWithdraws { addrs } => {
                    let nets = bgp_addrs_to_nets(addrs);
                    let ghost before = withdraw_nets@;
                    let mut k: usize = 0;
                    while k < nets.len()
                        invariant
                            k <= nets@.len(),
                            forall|m: int| 0 <= m < nets@.len() ==> (#[trigger] nets@[m]).2.wf(),
                            withdraw_nets@ == before + nets@.take(k as int),
                            forall|m: int|
                                0 <= m < withdraw_nets@.len() ==> (
                                #[trigger] withdraw_nets@[m]).2.wf(),
                        decreases nets@.len() - k,
                    {
                        let x = nets[k];
                        withdraw_nets.push(x);
                        proof {
                            assert(withdraw_nets@ =~= before + nets@.take(k as int + 1));
                        }
                        k += 1;
                    }
                    proof {
                        assert(nets@.take(nets@.len() as int) =~= nets@);
                        assert(items[i as int] == BgpAttrItem::MpWithdraws { addrs: *addrs });
                        assert(withdraw_nets@ =~= mp_withdraws_after(items, i as int + 1));
                    }
                },
                BgpAttrItem::NextHop { value } => {
                    nexthop = Some(*value);
                },
                BgpAttrItem::CommunityList { value } => {
                    let mut cs: Vec<(u16, u16)> = Vec::new();
                    let mut k: usize = 0;
                    while k < value.len()
                        invariant
                            k <= value@.len(),
                            cs@ == value@.take(k as int).map_values(|v: u32| comm_pair(v)),
                        decreases value@.len() - k,
                    {
                        let v = value[k];
                        proof {
                            assert((v >> 16u32) < 0x10000 && (v & 0xffff) < 0x10000)
                                by (bit_vector);
                            assert(value@.take(k as int + 1) =~= value@.take(k as int).push(
                                value@[k as int],
                            ));
                        }
                        cs.push(((v >> 16u32) as u16, (v & 0xffff) as u16));
                        proof {
                            assert(cs@ =~= value@.take(k as int + 1).map_values(
                                |v: u32| comm_pair(v),
                            ));
                        }
                        k += 1;
                    }
                    proof {
                        assert(value@.take(value@.len() as int) =~= value@);
                    }
                    attrs.communities = Some(cs);
                    proof {
                        assert(attrs@ =~= RouteAttrsV {
                            communities: Some(value@.map_values(|v: u32| comm_pair(v))),
                            ..prev_attrs
                        });
                    }
                },
                BgpAttrItem::Med { value } => {
                    attrs.med = Some(*value);
                    proof {
                        assert(attrs@ =~= RouteAttrsV { med: Some(*value), ..prev_attrs });
                    }
                },
                BgpAttrItem::LocalPref { value } => {
                    attrs.local_pref = Some(*value);
                    proof {
                        assert(attrs@ =~= RouteAttrsV { local_pref: Some(*value), ..prev_attrs });
                    }
                },
                BgpAttrItem::Origin { value } => {
                    attrs.origin = Some(*value);
                    proof {
                        assert(attrs@ =~= RouteAttrsV { origin: Some(*value), ..prev_attrs });
                    }
                },
                BgpAttrItem::AsPath { value } => {
                    attrs.as_path = Some(crate::attrs::copy_vec_u32(value));
                    proof {
                        assert(attrs@ =~= RouteAttrsV { as_path: Some(value@), ..prev_attrs });
                    }
                },
                BgpAttrItem::LargeCommunityList { value } => {
                    attrs.large_communities = Some(crate::attrs::copy_vec_triple(value));
                    proof {
                        assert(attrs@ =~= RouteAttrsV {
                            large_communities: Some(value@),
                            ..prev_attrs
                        });
                    }
                },
                BgpAttrItem::Unsupported => {
                },
            }
            i += 1;
        }
        let nets_u = bgp_addrs_to_nets(&update.updates);
        let ghost before_u = update_nets@;
        let mut k: usize = 0;
        while k < nets_u.len()
            invariant
                k <= nets_u@.len(),
                nets_u@ == nets_of(update.updates),
                forall|m: int| 0 <= m < nets_u@.len() ==> (#[trigger] nets_u@[m]).2.wf(),
                update_nets@ == before_u + nets_u@.take(k as int).map_values(
                    |x: WithdrawNet| (x.0, x.1, x.2, nexthop),
                ),
                forall|m: int| 0 <= m < update_nets@.len() ==> (#[trigger] update_nets@[m]).2.wf(),
            decreases nets_u@.len() - k,
        {
            let x = nets_u[k];
            update_nets.push((x.0, x.1, x.2, nexthop));
            proof {
                assert(nets_u@.take(k as int + 1) =~= nets_u@.take(k as int).push(
                    nets_u@[k as int],
                ));
                assert(update_nets@ =~= before_u + nets_u@.take(k as int + 1).map_values(
                    |x: WithdrawNet| (x.0, x.1, x.2, nexthop),
                ));
            }
            k += 1;
        }
        proof {
            assert(nets_u@.take(nets_u@.len() as int) =~= nets_u@);
            assert(update_nets@ =~= collected_updates(update));
        }
        let nets_w = bgp_addrs_to_nets(&update.withdraws);
        let ghost before_w = withdraw_nets@;
        let mut k2: usize = 0;
        while k2 < nets_w.len()
            invariant
                k2 <= nets_w@.len(),
                nets_w@ == nets_of(update.withdraws),
                forall|m: int| 0 <= m < nets_w@.len() ==> (#[trigger] nets_w@[m]).2.wf(),
                withdraw_nets@ == before_w + nets_w@.take(k2 as int),
                forall|m: int|
                    0 <= m < withdraw_nets@.len() ==> (#[trigger] withdraw_nets@[m]).2.wf(),
            decreases nets_w@.len() - k2,
        {
            let x = nets_w[k2];
            withdraw_nets.push(x);
            proof {
                assert(withdraw_nets@ =~= before_w + nets_w@.take(k2 as int + 1));
            }
            k2 += 1;
        }
        proof {
            assert(nets_w@.take(nets_w@.len() as int) =~= nets_w@);
            assert(withdraw_nets@ =~= collected_withdraws(update));
        }
        let ghost f0 = rows_fun(*old(self));
        let ghost ups = collected_updates(update);
        let ghost wds = collected_withdraws(update);
        let ghost base = collected_attrs(update);
        proof {
            assert(attrs@ == base);
        }
        let mut j: usize = 0;
        while j < update_nets.len()
            invariant
                j <= update_nets@.len(),
                update_nets@ == ups,
                attrs@ == base,
                forall|m: int| 0 <= m < ups.len() ==> (#[trigger] ups[m]).2.wf(),
                self.wf(),
                self.clients@ == old(self).clients@,
                self.sessions@ == old(self).sessions@,
                forall|sel: TableSelector|
                    #[trigger] self.rows(sel) == apply_updates(f0, session, ups, base, j as int)(
                        sel,
                    ),
            decreases update_nets@.len() - j,
        {
            let u = update_nets[j];
            let rd2 = if u.0.is_default() {
                session.route_distinguisher
            } else {
                u.0
            };
            let sel = TableSelector {
                route_distinguisher: rd2,
                session_id: session.session_id,
                table_type: session.table_type,
            };
            proof {
                assert(sel == resolve_sel(u.0, session));
            }
            let mut a2 = attrs.clone();
            a2.nexthop = u.3;
            proof {
                assert(a2@ =~= RouteAttrsV { nexthop: u.3, ..base });
            }
            let ghost g = apply_updates(f0, session, ups, base, j as int);
            self.update_route(u.1, u.2, sel, a2);
            proof {
                assert forall|sel2: TableSelector|
                    #[trigger] self.rows(sel2) == apply_updates(
                        f0,
                        session,
                        ups,
                        base,
                        j as int + 1,
                    )(sel2) by {
                    if sel2 == sel {
                        assert(self.rows(sel2) == rows_update(g(sel2), u.1, u.2, a2@));
                    } else {
                        assert(self.rows(sel2) == g(sel2));
                    }
                }
            }
            j += 1;
        }
        proof {
            assert(update_nets@.len() == ups.len());
        }
        let ghost f1 = apply_updates(f0, session, ups, base, ups.len() as int);
        let mut j2: usize = 0;
        while j2 < withdraw_nets.len()
            invariant
                j2 <= withdraw_nets@.len(),
                withdraw_nets@ == wds,
                self.wf(),
                self.clients@ == old(self).clients@,
                self.sessions@ == old(self).sessions@,
                forall|sel: TableSelector|
                    #[trigger] self.rows(sel) == apply_withdraws(f1, session, wds, j2 as int)(sel),
            decreases withdraw_nets@.len() - j2,
        {
            let w = withdraw_nets[j2];
            let rd2 = if w.0.is_default() {
                session.route_distinguisher
            } else {
                w.0
            };
            let sel = TableSelector {
                route_distinguisher: rd2,
                session_id: session.session_id,
                table_type: session.table_type,
            };
            proof {
                assert(sel == resolve_sel(w.0, session));
            }
            let ghost g = apply_withdraws(f1, session, wds, j2 as int);
            self.withdraw_route(w.1, w.2, sel);
            proof {
                assert forall|sel2: TableSelector|
                    #[trigger] self.rows(sel2) == apply_withdraws(f1, session, wds, j2 as int + 1)(
                        sel2,
                    ) by {
                    if sel2 == sel {
                        assert(self.rows(sel2) == rows_withdraw(g(sel2), w.1, w.2));
                    } else {
                        assert(self.rows(sel2) == g(sel2));
                    }
                }
            }
            j2 += 1;
        }
    }
}

} // verus!
