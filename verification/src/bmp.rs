//! The ingestion decisions: which table a BMP peer's routes belong to, and
//! what each decoded BMP message does to the store.
//!
//! The connection loop itself reads sockets and decodes frames outside this
//! crate; it hands each decoded message to `process_bmp_message` and tears
//! the client down when the connection closes.

use vstd::prelude::*;

use crate::net::IpAddress;
use crate::store::InMemoryStore;
use crate::store::RouteState;
use crate::store::SessionId;
use crate::store::SocketAddr;
use crate::store::TableSelector;
use crate::store::TableType;
use crate::rd::RouteDistinguisher;
use crate::translate::apply_message;
use crate::translate::rows_fun;
use crate::translate::BgpUpdateMessage;

verus! {

/// The per-peer header of a BMP message: the peer type, its flags, and the
/// peer's address.
#[derive(Clone, Copy, Debug, PartialEq, Eq, Structural)]
pub struct PeerHeader {
    pub peer_type: u8,
    pub flags: u8,
    pub peer_address: IpAddress,
}

/// A decoded BMP message, as far as the collector reads it.
#[derive(Debug)]
pub enum BmpMessage {
    RouteMonitoring { peer: PeerHeader, update: BgpUpdateMessage },
    PeerUpNotification { peer: PeerHeader },
    PeerDownNotification { peer: PeerHeader },
    Termination,
    Other,
}

/// The post-policy flag: the lowest bit of the peer flags.
pub open spec fn post_policy(flags: u8) -> bool {
    flags & 1 == 1
}

/// The table a peer's routes belong to: peer type zero is the adjacency-in
/// view, pre- or post-policy by the flag; peer type three is the local RIB;
/// anything else is unrecognized.
pub open spec fn selector_for_peer_spec(
    client_addr: SocketAddr,
    peer: PeerHeader,
    loc_rib_state: RouteState,
) -> Option<TableSelector> {
    let sid = SessionId { from_client: client_addr, peer_address: peer.peer_address };
    if peer.peer_type == 0 && !post_policy(peer.flags) {
        Some(
            TableSelector {
                route_distinguisher: RouteDistinguisher::Default,
                session_id: sid,
                table_type: TableType::PrePolicyAdjIn,
            },
        )
    } else if peer.peer_type == 0 && post_policy(peer.flags) {
        Some(
            TableSelector {
                route_distinguisher: RouteDistinguisher::Default,
                session_id: sid,
                table_type: TableType::PostPolicyAdjIn,
            },
        )
    } else if peer.peer_type == 3 {
        Some(
            TableSelector {
                route_distinguisher: RouteDistinguisher::Default,
                session_id: sid,
                table_type: TableType::LocRib { route_state: loc_rib_state },
            },
        )
    } else {
        None
    }
}

/// Decides the table for a peer header.
pub fn table_selector_for_peer(
    client_addr: SocketAddr,
    peer: &PeerHeader,
    loc_rib_state: RouteState,
) -> (r: Option<TableSelector>)
    ensures
        r == selector_for_peer_spec(client_addr, *peer, loc_rib_state),
{
    let sid = SessionId { from_client: client_addr, peer_address: peer.peer_address };
    if peer.peer_type == 0 && peer.flags & 1 != 1 {
        Some(
            TableSelector {
                route_distinguisher: RouteDistinguisher::Default,
                session_id: sid,
                table_type: TableType::PrePolicyAdjIn,
            },
        )
    } else if peer.peer_type == 0 {
        Some(
            TableSelector {
                route_distinguisher: RouteDistinguisher::Default,
                session_id: sid,
                table_type: TableType::PostPolicyAdjIn,
            },
        )
    } else if peer.peer_type == 3 {
        Some(
            TableSelector {
                route_distinguisher: RouteDistinguisher::Default,
                session_id: sid,
                table_type: TableType::LocRib { route_state: loc_rib_state },
            },
        )
    } else {
        None
    }
}

/// Applies one decoded BMP message to the store and says whether the peer
/// announced termination. Route monitoring for a recognized peer inserts the
/// update into that peer's table; peer-down clears state only through the
/// pre-policy selector; everything else leaves the store unchanged.
pub fn process_bmp_message(
    store: &mut InMemoryStore,
    client_addr: SocketAddr,
    msg: BmpMessage,
    loc_rib_state: RouteState,
) -> (terminated: bool)
    requires
        old(store).wf(),
    ensures
        final(store).wf(),
        terminated == (msg matches BmpMessage::Termination),
        final(store).clients@ == old(store).clients@,
        match msg {
            BmpMessage::RouteMonitoring { peer, update } => {
                match selector_for_peer_spec(client_addr, peer, loc_rib_state) {
                    Some(t) => {
                        &&& forall|sel: TableSelector|
                            #[trigger] final(store).rows(sel) == apply_message(
                                rows_fun(*old(store)),
                                t,
                                update,
                            )(sel)
                        &&& final(store).sessions@ == old(store).sessions@
                    },
                    None => *final(store) == *old(store),
                }
            },
            BmpMessage::PeerDownNotification { peer } => {
                if peer.peer_type == 0 && !post_policy(peer.flags) {
                    let sid = SessionId { from_client: client_addr, peer_address: peer.peer_address };
                    &&& forall|s: SessionId|
                        #[trigger] final(store).session_of(s) == if s == sid {
                            None
                        } else {
                            old(store).session_of(s)
                        }
                    &&& forall|sel: TableSelector|
                        sel.spec_session_id() != Some(sid) ==> #[trigger] final(store).rows(sel)
                            == old(store).rows(sel)
                    &&& forall|sel: TableSelector|
                        #[trigger] final(store).has_table(sel) == (old(store).has_table(sel)
                            && sel.spec_session_id() != Some(sid))
                } else {
                    *final(store) == *old(store)
                }
            },
            _ => *final(store) == *old(store),
        },
{
    match msg {
        BmpMessage::RouteMonitoring { peer, update } => {
            match table_selector_for_peer(client_addr, &peer, loc_rib_state) {
                Some(t) => {
                    store.insert_bgp_update(t, update);
                },
                None => {},
            }
            false
        },
        BmpMessage::PeerDownNotification { peer } => {
            if peer.peer_type == 0 && peer.flags & 1 != 1 {
                let sid = SessionId { from_client: client_addr, peer_address: peer.peer_address };
                store.session_down(sid, None);
            }
            false
        },
        BmpMessage::Termination => true,
        BmpMessage::PeerUpNotification { .. } => false,
        BmpMessage::Other => false,
    }
}

} // verus!
