//! Game data from a peer of a room, for another peer of the same room.
use vstd::prelude::*;
use crate::peers::ClientId;
use crate::relay::apps::{Apps, AppsView};
use crate::relay::handlers::sender::{relay_actions_view, send_packet, RelayAction, RelayActionView};
use crate::relay::ids::{AppId, RoomId};
use crate::relay::message::{Packet, PacketView};
use crate::udp::common::TransferChannel;

verus! {

/// What is sent when `sender`, in room `room_id` of `app_id`, sends `data`
/// for the peer `target_peer`: the data goes, marked with the sender's peer
/// identifier and on the channel it came on, to the client behind the
/// target peer, when both are members of the room.
pub open spec fn game_data_spec(
    apps: AppsView,
    sender: ClientId,
    app_id: AppId,
    room_id: RoomId,
    target_peer: i32,
    data: Seq<u8>,
    channel: TransferChannel,
) -> Seq<RelayActionView> {
    if !apps.apps.contains_key(app_id) || !apps.apps[app_id].rooms.rooms.contains_key(room_id) {
        Seq::empty()
    } else {
        let r = apps.apps[app_id].rooms.rooms[room_id];
        if r.peers.clients.contains_key(sender) && r.peers.godots.contains_key(target_peer) {
            seq![
                RelayActionView::Send {
                    target: r.peers.godots[target_peer],
                    packet: PacketView::GameData { from_peer: r.peers.clients[sender], data },
                    channel,
                },
            ]
        } else {
            Seq::empty()
        }
    }
}

/// Routes game data between the peers of a room.
pub struct GameDataHandler<'a> {
    apps: &'a Apps,
}

impl<'a> GameDataHandler<'a> {
    pub fn new(apps: &'a Apps) -> (h: Self)
        ensures
            h.apps() == apps,
    {
        Self { apps }
    }

    pub closed spec fn apps(&self) -> &'a Apps {
        self.apps
    }

    /// The actions that route `data` from `sender` to the peer
    /// `target_peer` of room `room_id` of application `app_id`.
    pub fn route_game_data(
        &self,
        sender_id: ClientId,
        client_app_id: AppId,
        client_room_id: RoomId,
        target_peer: i32,
        data: Vec<u8>,
        channel: TransferChannel,
    ) -> (outs: Vec<RelayAction>)
        ensures
            relay_actions_view(outs@) == game_data_spec(
                self.apps()@,
                sender_id,
                client_app_id,
                client_room_id,
                target_peer,
                data@,
                channel,
            ),
    {
        let mut outs: Vec<RelayAction> = Vec::new();
        proof {
            assert(relay_actions_view(outs@) =~= Seq::<RelayActionView>::empty());
        }
        let app = match self.apps.get(client_app_id) {
            Some(app) => app,
            None => {
                return outs;
            },
        };
        let room = match app.rooms.get(client_room_id) {
            Some(room) => room,
            None => {
                return outs;
            },
        };
        let sender_godot_id = match room.client_to_gd(sender_id) {
            Some(g) => g,
            None => {
                return outs;
            },
        };
        let target_client_id = match room.gd_to_client(target_peer) {
            Some(c) => c,
            None => {
                return outs;
            },
        };
        let ghost d = data@;
        send_packet(
            &mut outs,
            target_client_id,
            Packet::GameData { from_peer: sender_godot_id, data },
            channel,
        );
        proof {
            assert(relay_actions_view(outs@) =~= game_data_spec(
                self.apps()@,
                sender_id,
                client_app_id,
                client_room_id,
                target_peer,
                d,
                channel,
            ));
        }
        outs
    }
}

} // verus!
