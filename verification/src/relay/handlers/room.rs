//! Room requests: creating a room, listing public rooms, updating a room's
//! metadata, asking a room's host for entry and the host's answer, and
//! closing a room.
use vstd::prelude::*;
use crate::peers::ClientId;
use crate::relay::apps::{with_app_rooms, Apps, AppsView};
use crate::relay::clients::{ClientState, Clients};
use crate::relay::handlers::sender::{
    refusal, relay_actions_view, reliable, send_err, send_packet, RelayAction, RelayActionView,
};
use crate::relay::ids::{AppId, RoomId};
use crate::relay::message::{Packet, PacketView};
use crate::relay::room::{id_of_code, ID_SPACE};
use crate::relay::rooms::{
    empty_room, has_join_code, infos_of, public_ids, rooms_without, with_peer, RoomView, RoomsView,
};
use crate::udp::common::TransferChannel;

verus! {

pub open spec fn app_gone() -> Seq<char> {
    "Internal error: app no longer exists"@
}

pub open spec fn room_not_found() -> Seq<char> {
    "Room not found"@
}

pub open spec fn entry_denied() -> Seq<char> {
    "Room host denied entry"@
}

/// `sender`, authenticated for `app_id`, creates a room: it gets a fresh id
/// and a join code no other room of the application has, `sender` hosts it
/// and is its first peer, and is told the join code.
pub open spec fn create_room_ok(
    apps: AppsView,
    clients: Map<ClientId, ClientState>,
    sender: ClientId,
    app_id: AppId,
    is_public: bool,
    metadata: Seq<char>,
    apps2: AppsView,
    clients2: Map<ClientId, ClientState>,
    outs: Seq<RelayActionView>,
) -> bool {
    if !apps.apps.contains_key(app_id) || !clients.contains_key(sender) {
        apps2 == apps && clients2 == clients && outs.len() == 0
    } else {
        let rs = apps.apps[app_id].rooms;
        let id = rs.next_id;
        exists|c: u32|
            #![trigger id_of_code(c as int)]
            {
                let code = id_of_code(c as int);
                &&& c < ID_SPACE
                &&& !has_join_code(rs.rooms, code)
                &&& apps2 == with_app_rooms(
                    apps,
                    app_id,
                    RoomsView {
                        rooms: rs.rooms.insert(
                            id,
                            with_peer(empty_room(id, code, sender, is_public, metadata), sender),
                        ),
                        codes: rs.codes.insert(c),
                        next_id: (id + 1) as u64,
                    },
                )
                &&& clients2 == clients.insert(sender, ClientState::InRoom { app_id, room_id: id })
                &&& outs == seq![reliable(sender, PacketView::ConnectedToRoom { room_id: code, peer_id: 1 })]
            }
    }
}

/// The public rooms of `app_id` are listed to `target`, in some order.
pub open spec fn send_rooms_ok(apps: AppsView, target: ClientId, app_id: AppId, outs: Seq<RelayActionView>) -> bool {
    if !apps.apps.contains_key(app_id) {
        outs.len() == 0
    } else {
        let rooms = apps.apps[app_id].rooms.rooms;
        exists|ts: Seq<RoomId>|
            #![trigger infos_of(rooms, ts)]
            {
                &&& ts.no_duplicates()
                &&& ts.to_set() == public_ids(rooms)
                &&& outs == seq![reliable(target, PacketView::GetRooms { rooms: infos_of(rooms, ts) })]
            }
    }
}

/// The host `sender` replaces the metadata of its room.
pub open spec fn update_room_ok(
    apps: AppsView,
    sender: ClientId,
    app_id: AppId,
    room_id: RoomId,
    metadata: Seq<char>,
    apps2: AppsView,
    outs: Seq<RelayActionView>,
) -> bool {
    if !apps.apps.contains_key(app_id) {
        apps2 == apps && outs == seq![refusal(sender, app_gone())]
    } else if !apps.apps[app_id].rooms.rooms.contains_key(room_id) {
        apps2 == apps && outs == seq![refusal(sender, room_not_found())]
    } else {
        let rs = apps.apps[app_id].rooms;
        &&& apps2 == with_app_rooms(
            apps,
            app_id,
            RoomsView {
                rooms: rs.rooms.insert(room_id, RoomView { metadata, ..rs.rooms[room_id] }),
                ..rs
            },
        )
        &&& outs.len() == 0
    }
}

/// `sender` asks for entry to the room of `app_id` with join code `code`:
/// the room's host is asked, with `sender`'s `metadata`.
pub open spec fn join_request_ok(
    apps: AppsView,
    sender: ClientId,
    app_id: AppId,
    code: Seq<char>,
    metadata: Seq<char>,
    outs: Seq<RelayActionView>,
) -> bool {
    if !apps.apps.contains_key(app_id) {
        outs.len() == 0
    } else {
        let rooms = apps.apps[app_id].rooms.rooms;
        if !has_join_code(rooms, code) {
            outs == seq![refusal(sender, room_not_found())]
        } else {
            exists|id: RoomId|
                #![trigger rooms[id]]
                {
                    &&& rooms.contains_key(id)
                    &&& rooms[id].join_code == code
                    &&& outs == seq![
                        reliable(
                            rooms[id].host,
                            PacketView::PeerJoinAttempt { target_id: sender, metadata },
                        ),
                    ]
                }
        }
    }
}

/// The host of room `room_id` of `app_id` answers `target`'s request: a
/// refusal is passed on; an admitted client joins the room, is told its
/// peer identifier and the join code, and the host learns of the new peer.
pub open spec fn join_response_ok(
    apps: AppsView,
    clients: Map<ClientId, ClientState>,
    app_id: AppId,
    target: ClientId,
    room_id: RoomId,
    allowed: bool,
    apps2: AppsView,
    clients2: Map<ClientId, ClientState>,
    outs: Seq<RelayActionView>,
) -> bool {
    if !allowed {
        apps2 == apps && clients2 == clients && outs == seq![refusal(target, entry_denied())]
    } else if !clients.contains_key(target) {
        apps2 == apps && clients2 == clients && outs.len() == 0
    } else if !apps.apps.contains_key(app_id) {
        apps2 == apps && clients2 == clients && outs == seq![refusal(target, app_gone())]
    } else if !apps.apps[app_id].rooms.rooms.contains_key(room_id) {
        apps2 == apps && clients2 == clients && outs == seq![refusal(target, room_not_found())]
    } else {
        let rs = apps.apps[app_id].rooms;
        let r = rs.rooms[room_id];
        let pid = r.peers.next;
        &&& apps2 == with_app_rooms(
            apps,
            app_id,
            RoomsView { rooms: rs.rooms.insert(room_id, with_peer(r, target)), ..rs },
        )
        &&& clients2 == clients.insert(target, ClientState::InRoom { app_id, room_id })
        &&& outs == seq![
            reliable(target, PacketView::ConnectedToRoom { room_id: r.join_code, peer_id: pid }),
            reliable(r.host, PacketView::PeerJoinedRoom { peer_id: pid }),
        ]
    }
}

/// Handles `sender`'s request to create a room of `app_id`.
pub fn create_room(
    apps: &mut Apps,
    clients: &mut Clients,
    sender: ClientId,
    app_id: AppId,
    is_public: bool,
    metadata: String,
) -> (outs: Vec<RelayAction>)
    requires
        old(apps).wf(),
        old(apps)@.apps.contains_key(app_id) ==> old(apps)@.apps[app_id].rooms.codes.len() < ID_SPACE
            && old(apps)@.apps[app_id].rooms.next_id < u64::MAX,
    ensures
        final(apps).wf(),
        create_room_ok(
            old(apps)@,
            old(clients)@,
            sender,
            app_id,
            is_public,
            metadata@,
            final(apps)@,
            final(clients)@,
            relay_actions_view(outs@),
        ),
{
    let mut outs: Vec<RelayAction> = Vec::new();
    proof {
        assert(relay_actions_view(outs@) =~= Seq::<RelayActionView>::empty());
    }
    if apps.get(app_id).is_none() || clients.get(sender).is_none() {
        return outs;
    }
    let ghost a0 = apps@;
    let ghost rs = a0.apps[app_id].rooms;
    let ghost m = metadata@;
    let (room_id, peer_id) = match apps.create_room(app_id, sender, is_public, metadata) {
        Some(p) => p,
        None => {
            proof {
                assert(false);
            }
            return outs;
        },
    };
    let ghost c = choose|c: u32|
        #![trigger id_of_code(c as int)]
        {
            &&& c < ID_SPACE
            &&& !has_join_code(rs.rooms, id_of_code(c as int))
            &&& apps@ == with_app_rooms(
                a0,
                app_id,
                RoomsView {
                    rooms: rs.rooms.insert(
                        room_id,
                        with_peer(empty_room(room_id, id_of_code(c as int), sender, is_public, m), sender),
                    ),
                    codes: rs.codes.insert(c),
                    next_id: (room_id + 1) as u64,
                },
            )
        };
    let join_code = match apps.get(app_id) {
        Some(app) => match app.rooms.get(room_id) {
            Some(room) => room.join_code().to_string(),
            None => {
                proof {
                    assert(false);
                }
                return outs;
            },
        },
        None => {
            proof {
                assert(false);
            }
            return outs;
        },
    };
    clients.set_state(sender, ClientState::InRoom { app_id, room_id });
    send_packet(
        &mut outs,
        sender,
        Packet::ConnectedToRoom { room_id: join_code, peer_id },
        TransferChannel::Reliable,
    );
    proof {
        let code = id_of_code(c as int);
        assert(join_code@ == code);
        assert(relay_actions_view(outs@) =~= seq![
            reliable(sender, PacketView::ConnectedToRoom { room_id: code, peer_id: 1 }),
        ]);
    }
    outs
}

/// Lists the public rooms of `app_id` to `target`.
pub fn send_rooms(apps: &Apps, target: ClientId, app_id: AppId) -> (outs: Vec<RelayAction>)
    requires
        apps.wf(),
    ensures
        send_rooms_ok(apps@, target, app_id, relay_actions_view(outs@)),
{
    let mut outs: Vec<RelayAction> = Vec::new();
    let app = match apps.get(app_id) {
        Some(app) => app,
        None => {
            proof {
                assert(relay_actions_view(outs@) =~= Seq::<RelayActionView>::empty());
            }
            return outs;
        },
    };
    let public_rooms = app.rooms.public_infos();
    send_packet(&mut outs, target, Packet::GetRooms { rooms: public_rooms }, TransferChannel::Reliable);
    proof {
        let rooms = apps@.apps[app_id].rooms.rooms;
        let ts = choose|ts: Seq<RoomId>|
            #![trigger infos_of(rooms, ts)]
            {
                &&& ts.no_duplicates()
                &&& ts.to_set() == public_ids(rooms)
                &&& public_rooms@.map_values(|i: crate::relay::message::RoomInfo| i@) == infos_of(rooms, ts)
            };
        assert(relay_actions_view(outs@) =~= seq![
            reliable(target, PacketView::GetRooms { rooms: infos_of(rooms, ts) }),
        ]);
    }
    outs
}

/// Replaces the metadata of room `room_id` of `app_id` at `sender`'s
/// request.
pub fn update_room(apps: &mut Apps, sender: ClientId, app_id: AppId, room_id: RoomId, metadata: String) -> (outs:
    Vec<RelayAction>)
    requires
        old(apps).wf(),
    ensures
        final(apps).wf(),
        update_room_ok(old(apps)@, sender, app_id, room_id, metadata@, final(apps)@, relay_actions_view(outs@)),
{
    let mut outs: Vec<RelayAction> = Vec::new();
    proof {
        assert(relay_actions_view(outs@) =~= Seq::<RelayActionView>::empty());
    }
    if apps.get(app_id).is_none() {
        send_err(&mut outs, sender, String::from_str("Internal error: app no longer exists"));
        proof {
            assert(relay_actions_view(outs@) =~= seq![refusal(sender, app_gone())]);
        }
        return outs;
    }
    if !apps.set_metadata(app_id, room_id, metadata) {
        send_err(&mut outs, sender, String::from_str("Room not found"));
        proof {
            assert(relay_actions_view(outs@) =~= seq![refusal(sender, room_not_found())]);
        }
    }
    outs
}

/// Closes room `room_id` of `app_id`, if both exist, freeing its join code.
pub fn remove_room(apps: &mut Apps, app_id: AppId, room_id: RoomId)
    requires
        old(apps).wf(),
    ensures
        final(apps).wf(),
        final(apps)@ == (if old(apps)@.apps.contains_key(app_id) {
            with_app_rooms(old(apps)@, app_id, rooms_without(old(apps)@.apps[app_id].rooms, room_id))
        } else {
            old(apps)@
        }),
{
    let _ = apps.remove_room(app_id, room_id);
}

/// Passes `sender`'s request for entry to the room with join code `code`
/// on to the room's host.
pub fn recv_join_req(apps: &Apps, sender: ClientId, app_id: AppId, code: &str, metadata: String) -> (outs: Vec<
    RelayAction,
>)
    requires
        apps.wf(),
    ensures
        join_request_ok(apps@, sender, app_id, code@, metadata@, relay_actions_view(outs@)),
{
    let mut outs: Vec<RelayAction> = Vec::new();
    proof {
        assert(relay_actions_view(outs@) =~= Seq::<RelayActionView>::empty());
    }
    let app = match apps.get(app_id) {
        Some(app) => app,
        None => {
            return outs;
        },
    };
    proof {
        assert(apps@.apps.contains_key(app_id));
    }
    let host_id = match app.rooms.get_by_jc(code) {
        Some(room) => room.get_host(),
        None => {
            send_err(&mut outs, sender, String::from_str("Room not found"));
            proof {
                assert(relay_actions_view(outs@) =~= seq![refusal(sender, room_not_found())]);
            }
            return outs;
        },
    };
    let ghost m = metadata@;
    send_packet(
        &mut outs,
        host_id,
        Packet::PeerJoinAttempt { target_id: sender, metadata },
        TransferChannel::Reliable,
    );
    proof {
        assert(relay_actions_view(outs@) =~= seq![
            reliable(host_id, PacketView::PeerJoinAttempt { target_id: sender, metadata: m }),
        ]);
    }
    outs
}

/// Handles the answer of the host of room `room_id` of `app_id` to
/// `target`'s request for entry.
pub fn recv_join_res(
    apps: &mut Apps,
    clients: &mut Clients,
    app_id: AppId,
    target_id: ClientId,
    room_id: RoomId,
    allowed: bool,
) -> (outs: Vec<RelayAction>)
    requires
        old(apps).wf(),
        old(apps)@.apps.contains_key(app_id) && old(apps)@.apps[app_id].rooms.rooms.contains_key(room_id)
            ==> old(apps)@.apps[app_id].rooms.rooms[room_id].peers.next < i32::MAX,
    ensures
        final(apps).wf(),
        join_response_ok(
            old(apps)@,
            old(clients)@,
            app_id,
            target_id,
            room_id,
            allowed,
            final(apps)@,
            final(clients)@,
            relay_actions_view(outs@),
        ),
{
    let mut outs: Vec<RelayAction> = Vec::new();
    proof {
        assert(relay_actions_view(outs@) =~= Seq::<RelayActionView>::empty());
    }
    if !allowed {
        send_err(&mut outs, target_id, String::from_str("Room host denied entry"));
        proof {
            assert(relay_actions_view(outs@) =~= seq![refusal(target_id, entry_denied())]);
        }
        return outs;
    }
    if clients.get(target_id).is_none() {
        return outs;
    }
    let (join_code, host_id) = match apps.get(app_id) {
        None => {
            send_err(&mut outs, target_id, String::from_str("Internal error: app no longer exists"));
            proof {
                assert(relay_actions_view(outs@) =~= seq![refusal(target_id, app_gone())]);
            }
            return outs;
        },
        Some(app) => match app.rooms.get(room_id) {
            None => {
                send_err(&mut outs, target_id, String::from_str("Room not found"));
                proof {
                    assert(relay_actions_view(outs@) =~= seq![refusal(target_id, room_not_found())]);
                }
                return outs;
            },
            Some(room) => (room.join_code().to_string(), room.get_host()),
        },
    };
    let ghost a0 = apps@;
    let peer_id = match apps.add_peer(app_id, room_id, target_id) {
        Some(g) => g,
        None => {
            proof {
                assert(false);
            }
            return outs;
        },
    };
    clients.set_state(target_id, ClientState::InRoom { app_id, room_id });
    send_packet(
        &mut outs,
        target_id,
        Packet::ConnectedToRoom { room_id: join_code, peer_id },
        TransferChannel::Reliable,
    );
    send_packet(&mut outs, host_id, Packet::PeerJoinedRoom { peer_id }, TransferChannel::Reliable);
    proof {
        let r = a0.apps[app_id].rooms.rooms[room_id];
        assert(relay_actions_view(outs@) =~= seq![
            reliable(target_id, PacketView::ConnectedToRoom { room_id: r.join_code, peer_id: r.peers.next }),
            reliable(r.host, PacketView::PeerJoinedRoom { peer_id: r.peers.next }),
        ]);
    }
    outs
}

} // verus!
