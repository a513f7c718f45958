//! A client's disconnection: the relay forgets it; if it hosted a room, the
//! room closes and every other member is expelled; if it was a member of a
//! room, the room's other members learn that it left.
use vstd::prelude::*;
use crate::peers::{lemma_members_step, ClientId};
use crate::relay::apps::{with_app_rooms, Apps, AppsView};
use crate::relay::clients::{ClientState, Clients};
use crate::relay::handlers::room::remove_room;
use crate::relay::handlers::sender::{
    expulsion, force_disconnect, relay_actions_view, reliable, send_packet, RelayAction, RelayActionView,
};
use crate::relay::message::{Packet, PacketView};
use crate::relay::rooms::{rooms_without, without_peer, RoomsView};
use crate::udp::common::TransferChannel;

verus! {

/// Each of `ts`, in that order, told to disconnect and its session torn
/// down.
pub open spec fn expulsions(ts: Seq<ClientId>) -> Seq<RelayActionView>
    decreases ts.len(),
{
    if ts.len() == 0 {
        Seq::empty()
    } else {
        expulsions(ts.drop_last()) + expulsion(ts.last())
    }
}

/// `packet` sent reliably to each of `ts`, in that order.
pub open spec fn notify_all(ts: Seq<ClientId>, packet: PacketView) -> Seq<RelayActionView> {
    ts.map_values(|t: ClientId| reliable(t, packet))
}

/// What happens when `c` disconnects.
pub open spec fn disconnect_ok(
    apps: AppsView,
    clients: Map<ClientId, ClientState>,
    c: ClientId,
    apps2: AppsView,
    clients2: Map<ClientId, ClientState>,
    outs: Seq<RelayActionView>,
) -> bool {
    if !clients.contains_key(c) {
        apps2 == apps && clients2 == clients && outs.len() == 0
    } else {
        let rest = clients.remove(c);
        match clients[c] {
            ClientState::InRoom { app_id, room_id } => {
                if !apps.apps.contains_key(app_id) || !apps.apps[app_id].rooms.rooms.contains_key(room_id)
                    || !apps.apps[app_id].rooms.rooms[room_id].peers.clients.contains_key(c) {
                    apps2 == apps && clients2 == rest && outs.len() == 0
                } else {
                    let rs = apps.apps[app_id].rooms;
                    let r = rs.rooms[room_id];
                    let others = r.peers.clients.dom().remove(c);
                    if r.host == c {
                        &&& apps2 == with_app_rooms(apps, app_id, rooms_without(rs, room_id))
                        &&& clients2 == rest.remove_keys(others)
                        &&& exists|ts: Seq<ClientId>|
                            #![trigger expulsions(ts)]
                            ts.no_duplicates() && ts.to_set() == others && outs == expulsions(ts)
                    } else {
                        let left = PacketView::PeerLeftRoom { peer_id: r.peers.clients[c] };
                        &&& apps2 == with_app_rooms(
                            apps,
                            app_id,
                            RoomsView { rooms: rs.rooms.insert(room_id, without_peer(r, c)), ..rs },
                        )
                        &&& clients2 == rest
                        &&& exists|ts: Seq<ClientId>|
                            #![trigger notify_all(ts, left)]
                            ts.no_duplicates() && ts.to_set() == others && outs == notify_all(ts, left)
                    }
                }
            },
            _ => apps2 == apps && clients2 == rest && outs.len() == 0,
        }
    }
}

/// Forgets each of `members` but `except` and expels it.
fn expel_members(clients: &mut Clients, members: &Vec<ClientId>, except: ClientId) -> (outs: Vec<RelayAction>)
    requires
        members@.no_duplicates(),
    ensures
        final(clients)@ == old(clients)@.remove_keys(members@.to_set().remove(except)),
        exists|ts: Seq<ClientId>|
            #![trigger expulsions(ts)]
            ts.no_duplicates() && ts.to_set() == members@.to_set().remove(except) && relay_actions_view(outs@)
                == expulsions(ts),
{
    let ghost c0 = clients@;
    let mut outs: Vec<RelayAction> = Vec::new();
    let ghost mut ts: Seq<ClientId> = Seq::empty();
    let mut k: usize = 0;
    proof {
        assert(members@.take(0).to_set() =~= Set::<ClientId>::empty());
        assert(ts.to_set() =~= Set::<ClientId>::empty());
        assert(relay_actions_view(outs@) =~= expulsions(ts));
        assert(c0.remove_keys(ts.to_set()) =~= c0);
    }
    while k < members.len()
        invariant
            k <= members@.len(),
            members@.no_duplicates(),
            ts.no_duplicates(),
            ts.to_set() == members@.take(k as int).to_set().remove(except),
            clients@ == c0.remove_keys(ts.to_set()),
            relay_actions_view(outs@) == expulsions(ts),
        decreases members.len() - k,
    {
        let id = members[k];
        proof {
            lemma_members_step(members@, k as int, except, ts);
        }
        if id != except {
            let ghost before = clients@;
            let _ = clients.remove(id);
            force_disconnect(&mut outs, id);
            proof {
                let nts = ts.push(id);
                assert(nts.drop_last() =~= ts);
                assert(expulsions(nts) == expulsions(ts) + expulsion(id));
                ts.lemma_push_to_set_commute(id);
                assert(clients@ =~= c0.remove_keys(nts.to_set()));
                ts = nts;
            }
        }
        k += 1;
    }
    proof {
        assert(members@.take(members@.len() as int) =~= members@);
    }
    outs
}

/// Tells each of `members` but `except` that the peer `peer_id` left.
fn announce_departure(members: &Vec<ClientId>, except: ClientId, peer_id: i32) -> (outs: Vec<RelayAction>)
    requires
        members@.no_duplicates(),
    ensures
        exists|ts: Seq<ClientId>|
            #![trigger notify_all(ts, PacketView::PeerLeftRoom { peer_id })]
            ts.no_duplicates() && ts.to_set() == members@.to_set().remove(except) && relay_actions_view(outs@)
                == notify_all(ts, PacketView::PeerLeftRoom { peer_id }),
{
    let ghost p = PacketView::PeerLeftRoom { peer_id };
    let mut outs: Vec<RelayAction> = Vec::new();
    let ghost mut ts: Seq<ClientId> = Seq::empty();
    let mut k: usize = 0;
    proof {
        assert(members@.take(0).to_set() =~= Set::<ClientId>::empty());
        assert(ts.to_set() =~= Set::<ClientId>::empty());
        assert(relay_actions_view(outs@) =~= notify_all(ts, p));
    }
    while k < members.len()
        invariant
            k <= members@.len(),
            members@.no_duplicates(),
            p == (PacketView::PeerLeftRoom { peer_id }),
            ts.no_duplicates(),
            ts.to_set() == members@.take(k as int).to_set().remove(except),
            relay_actions_view(outs@) == notify_all(ts, p),
        decreases members.len() - k,
    {
        let id = members[k];
        proof {
            lemma_members_step(members@, k as int, except, ts);
        }
        if id != except {
            send_packet(&mut outs, id, Packet::PeerLeftRoom { peer_id }, TransferChannel::Reliable);
            proof {
                assert(notify_all(ts.push(id), p) =~= notify_all(ts, p).push(reliable(id, p)));
                ts = ts.push(id);
            }
        }
        k += 1;
    }
    proof {
        assert(members@.take(members@.len() as int) =~= members@);
    }
    outs
}

/// Handles the disconnection of `client_id`.
pub fn handle_disconnect(apps: &mut Apps, clients: &mut Clients, client_id: ClientId) -> (outs: Vec<RelayAction>)
    requires
        old(apps).wf(),
    ensures
        final(apps).wf(),
        disconnect_ok(old(apps)@, old(clients)@, client_id, final(apps)@, final(clients)@, relay_actions_view(outs@)),
{
    let mut outs: Vec<RelayAction> = Vec::new();
    proof {
        assert(relay_actions_view(outs@) =~= Seq::<RelayActionView>::empty());
    }
    let client = match clients.remove(client_id) {
        Some(c) => c,
        None => {
            proof {
                assert(clients@ =~= old(clients)@);
            }
            return outs;
        },
    };
    let (app_id, room_id) = match client.state {
        ClientState::InRoom { app_id, room_id } => (app_id, room_id),
        _ => {
            return outs;
        },
    };
    let (is_host, godot_id, members) = match apps.get(app_id) {
        None => {
            return outs;
        },
        Some(app) => match app.rooms.get(room_id) {
            None => {
                return outs;
            },
            Some(room) => match room.client_to_gd(client_id) {
                None => {
                    return outs;
                },
                Some(g) => (room.get_host() == client_id, g, room.get_clients()),
            },
        },
    };
    if is_host {
        remove_room(apps, app_id, room_id);
        expel_members(clients, &members, client_id)
    } else {
        let _ = apps.remove_peer(app_id, room_id, client_id);
        announce_departure(&members, client_id, godot_id)
    }
}

} // verus!
