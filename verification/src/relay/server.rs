//! The relay's decisions: every event the transport reports (a client
//! connecting or leaving, a packet) and every answer of the remote
//! whitelist changes the relay's state and yields the actions to carry out.
//! A client moves through three states: connected, where only
//! authentication is accepted; authenticated, where it can create a room,
//! ask to join one or list the public rooms; and in a room, where it can
//! send game data, update the room's metadata and answer join requests.
//! Any other packet is refused with an error reply.
use vstd::prelude::*;
use crate::config::loader::Config;
use crate::peers::ClientId;
use crate::relay::apps::{app_members, without_rooms, Apps, AppsView};
use crate::relay::clients::{ClientState, Clients};
use crate::relay::handlers::auth::{
    admit_client, admit_ok, authenticate_client, authenticate_ok, locally_allowed, remote_verdict,
    remote_whitelist_configured, version_allowed, whitelist_verdict,
};
use crate::relay::handlers::disconnect::{disconnect_ok, handle_disconnect, notify_all};
use crate::relay::handlers::game_data::{game_data_spec, GameDataHandler};
use crate::relay::handlers::room::{
    create_room, create_room_ok, join_request_ok, join_response_ok, recv_join_req, recv_join_res,
    send_rooms, send_rooms_ok, update_room, update_room_ok,
};
use crate::relay::handlers::sender::{refusal, relay_actions_view, reliable, send_err, send_packet, RelayAction, RelayActionView};
use crate::relay::message::{Packet, PacketView};
use crate::relay::room::ID_SPACE;
use crate::udp::common::TransferChannel;

verus! {

/// What the relay is told.
pub enum RelayEvent {
    ClientConnected { client_id: ClientId },
    ClientDisconnected { client_id: ClientId },
    /// A packet from `client_id`, already decoded (`None` when it could not
    /// be).
    PacketReceived { client_id: ClientId, packet: Option<Packet>, channel: TransferChannel },
    /// The remote whitelist's answer about `app_token` for `client_id`
    /// (`None` when it could not be consulted).
    WhitelistChecked { client_id: ClientId, app_token: String, answer: Option<bool> },
}

pub enum RelayEventView {
    ClientConnected { client_id: ClientId },
    ClientDisconnected { client_id: ClientId },
    PacketReceived { client_id: ClientId, packet: Option<PacketView>, channel: TransferChannel },
    WhitelistChecked { client_id: ClientId, app_token: Seq<char>, answer: Option<bool> },
}

impl View for RelayEvent {
    type V = RelayEventView;

    open spec fn view(&self) -> RelayEventView {
        match self {
            RelayEvent::ClientConnected { client_id } => RelayEventView::ClientConnected {
                client_id: *client_id,
            },
            RelayEvent::ClientDisconnected { client_id } => RelayEventView::ClientDisconnected {
                client_id: *client_id,
            },
            RelayEvent::PacketReceived { client_id, packet, channel } => RelayEventView::PacketReceived {
                client_id: *client_id,
                packet: match packet {
                    Some(p) => Some(p@),
                    None => None,
                },
                channel: *channel,
            },
            RelayEvent::WhitelistChecked { client_id, app_token, answer } => {
                RelayEventView::WhitelistChecked {
                    client_id: *client_id,
                    app_token: app_token@,
                    answer: *answer,
                }
            },
        }
    }
}

/// The relay's state.
pub struct RelayServer {
    config: Config,
    apps: Apps,
    clients: Clients,
}

pub struct RelayServerView {
    pub apps: AppsView,
    pub clients: Map<ClientId, ClientState>,
}

impl View for RelayServer {
    type V = RelayServerView;

    closed spec fn view(&self) -> RelayServerView {
        RelayServerView { apps: self.apps@, clients: self.clients@ }
    }
}

/// The reply to a packet the client's state does not allow.
pub open spec fn unexpected_packet() -> Seq<char> {
    "Unexpected packet"@
}

/// What the relay does with `packet` from `c`.
pub open spec fn packet_ok(
    config: Config,
    v: RelayServerView,
    c: ClientId,
    packet: Option<PacketView>,
    channel: TransferChannel,
    v2: RelayServerView,
    outs: Seq<RelayActionView>,
) -> bool {
    let unchanged = v2 == v;
    let rejected = v2 == v && outs == seq![refusal(c, unexpected_packet())];
    if !v.clients.contains_key(c) || packet is None {
        unchanged && outs.len() == 0
    } else {
        let p = packet->0;
        match v.clients[c] {
            ClientState::Connected => match p {
                PacketView::Authenticate { app_id, version } => authenticate_ok(
                    v.apps,
                    v.clients,
                    config,
                    c,
                    app_id,
                    version,
                    v2.apps,
                    v2.clients,
                    outs,
                ),
                _ => rejected,
            },
            ClientState::Authenticated { app_id } => match p {
                PacketView::CreateRoom { is_public, metadata } => create_room_ok(
                    v.apps,
                    v.clients,
                    c,
                    app_id,
                    is_public,
                    metadata,
                    v2.apps,
                    v2.clients,
                    outs,
                ),
                PacketView::ReqJoin { room_id, metadata } => unchanged && join_request_ok(
                    v.apps,
                    c,
                    app_id,
                    room_id,
                    metadata,
                    outs,
                ),
                PacketView::ReqRooms => unchanged && send_rooms_ok(v.apps, c, app_id, outs),
                _ => rejected,
            },
            ClientState::InRoom { app_id, room_id } => match p {
                PacketView::UpdateRoom { metadata, .. } => v2.clients == v.clients && update_room_ok(
                    v.apps,
                    c,
                    app_id,
                    room_id,
                    metadata,
                    v2.apps,
                    outs,
                ),
                PacketView::JoinRes { target_id, allowed, .. } => join_response_ok(
                    v.apps,
                    v.clients,
                    app_id,
                    target_id,
                    room_id,
                    allowed,
                    v2.apps,
                    v2.clients,
                    outs,
                ),
                PacketView::GameData { from_peer, data } => unchanged && outs == game_data_spec(
                    v.apps,
                    c,
                    app_id,
                    room_id,
                    from_peer,
                    data,
                    channel,
                ),
                _ => rejected,
            },
        }
    }
}

/// What the relay does on `event`.
pub open spec fn relay_event_ok(
    config: Config,
    v: RelayServerView,
    event: RelayEventView,
    v2: RelayServerView,
    outs: Seq<RelayActionView>,
) -> bool {
    match event {
        RelayEventView::ClientConnected { client_id } => {
            &&& v2.apps == v.apps
            &&& v2.clients == v.clients.insert(client_id, ClientState::Connected)
            &&& outs.len() == 0
        },
        RelayEventView::ClientDisconnected { client_id } => disconnect_ok(
            v.apps,
            v.clients,
            client_id,
            v2.apps,
            v2.clients,
            outs,
        ),
        RelayEventView::PacketReceived { client_id, packet, channel } => packet_ok(
            config,
            v,
            client_id,
            packet,
            channel,
            v2,
            outs,
        ),
        RelayEventView::WhitelistChecked { client_id, app_token, answer } => admit_ok(
            v.apps,
            v.clients,
            client_id,
            app_token,
            remote_verdict(config, app_token, answer),
            v2.apps,
            v2.clients,
            outs,
        ),
    }
}

/// The events the relay cannot handle because a counter would run out: a
/// new application once application ids are exhausted, a new room once
/// join codes or room ids are, and a new peer once a room's peer
/// identifiers are.
pub open spec fn relay_event_handled(v: RelayServerView, event: RelayEventView) -> bool {
    match event {
        RelayEventView::WhitelistChecked { .. } => v.apps.next_id < u64::MAX,
        RelayEventView::PacketReceived { client_id, packet: Some(p), .. } => {
            v.clients.contains_key(client_id) ==> match (v.clients[client_id], p) {
                (ClientState::Connected, PacketView::Authenticate { .. }) => v.apps.next_id < u64::MAX,
                (ClientState::Authenticated { app_id }, PacketView::CreateRoom { .. }) => {
                    v.apps.apps.contains_key(app_id) ==> v.apps.apps[app_id].rooms.codes.len() < ID_SPACE
                        && v.apps.apps[app_id].rooms.next_id < u64::MAX
                },
                (ClientState::InRoom { app_id, room_id }, PacketView::JoinRes { .. }) => {
                    v.apps.apps.contains_key(app_id) && v.apps.apps[app_id].rooms.rooms.contains_key(room_id)
                        ==> v.apps.apps[app_id].rooms.rooms[room_id].peers.next < i32::MAX
                },
                _ => true,
            }
        },
        _ => true,
    }
}

impl RelayServer {
    pub open spec fn wf(&self) -> bool {
        crate::relay::apps::apps_wf(self@.apps)
    }

    pub closed spec fn config(&self) -> Config {
        self.config
    }

    /// A relay with the given configuration, no application and no client.
    pub fn new(config: Config) -> (s: Self)
        ensures
            s.wf(),
            s.config() == config,
            s@.apps.apps == Map::<crate::relay::ids::AppId, crate::relay::apps::AppView>::empty(),
            s@.apps.next_id == 1,
            s@.clients == Map::<ClientId, ClientState>::empty(),
    {
        Self { config, apps: Apps::new(), clients: Clients::new() }
    }

    /// The configuration the relay runs with.
    pub fn config_ref(&self) -> (r: &Config)
        ensures
            *r == self.config(),
    {
        &self.config
    }

    fn reject_unexpected_packet(&self, client_id: ClientId) -> (outs: Vec<RelayAction>)
        ensures
            relay_actions_view(outs@) == seq![refusal(client_id, unexpected_packet())],
    {
        let mut outs: Vec<RelayAction> = Vec::new();
        send_err(&mut outs, client_id, String::from_str("Unexpected packet"));
        proof {
            assert(relay_actions_view(outs@) =~= seq![refusal(client_id, unexpected_packet())]);
        }
        outs
    }

    fn handle_packet(&mut self, client_id: ClientId, packet: Option<Packet>, channel: TransferChannel) -> (outs:
        Vec<RelayAction>)
        requires
            old(self).wf(),
            relay_event_handled(
                old(self)@,
                RelayEventView::PacketReceived {
                    client_id,
                    packet: match packet {
                        Some(p) => Some(p@),
                        None => None,
                    },
                    channel,
                },
            ),
        ensures
            final(self).wf(),
            final(self).config() == old(self).config(),
            packet_ok(
                old(self).config(),
                old(self)@,
                client_id,
                match packet {
                    Some(p) => Some(p@),
                    None => None,
                },
                channel,
                final(self)@,
                relay_actions_view(outs@),
            ),
    {
        let state = match self.clients.get(client_id) {
            Some(client) => client.state,
            None => {
                let outs: Vec<RelayAction> = Vec::new();
                proof {
                    assert(relay_actions_view(outs@) =~= Seq::<RelayActionView>::empty());
                }
                return outs;
            },
        };
        let packet = match packet {
            Some(p) => p,
            None => {
                let outs: Vec<RelayAction> = Vec::new();
                proof {
                    assert(relay_actions_view(outs@) =~= Seq::<RelayActionView>::empty());
                }
                return outs;
            },
        };
        match state {
            ClientState::Connected => match packet {
                Packet::Authenticate { app_id, version } => authenticate_client(
                    &mut self.apps,
                    &mut self.clients,
                    &self.config,
                    client_id,
                    app_id,
                    version,
                ),
                _ => self.reject_unexpected_packet(client_id),
            },
            ClientState::Authenticated { app_id } => match packet {
                Packet::CreateRoom { is_public, metadata } => create_room(
                    &mut self.apps,
                    &mut self.clients,
                    client_id,
                    app_id,
                    is_public,
                    metadata,
                ),
                Packet::ReqJoin { room_id, metadata } => recv_join_req(
                    &self.apps,
                    client_id,
                    app_id,
                    room_id.as_str(),
                    metadata,
                ),
                Packet::ReqRooms => send_rooms(&self.apps, client_id, app_id),
                _ => self.reject_unexpected_packet(client_id),
            },
            ClientState::InRoom { app_id, room_id } => match packet {
                Packet::UpdateRoom { metadata, .. } => update_room(
                    &mut self.apps,
                    client_id,
                    app_id,
                    room_id,
                    metadata,
                ),
                Packet::JoinRes { target_id, allowed, .. } => recv_join_res(
                    &mut self.apps,
                    &mut self.clients,
                    app_id,
                    target_id,
                    room_id,
                    allowed,
                ),
                Packet::GameData { from_peer, data } => GameDataHandler::new(&self.apps).route_game_data(
                    client_id,
                    app_id,
                    room_id,
                    from_peer,
                    data,
                    channel,
                ),
                _ => self.reject_unexpected_packet(client_id),
            },
        }
    }

    /// Whether the relay can handle `event` (see [`relay_event_handled`]).
    pub fn handles(&self, event: &RelayEvent) -> (r: bool)
        requires
            self.wf(),
        ensures
            r == relay_event_handled(self@, event@),
    {
        match event {
            RelayEvent::WhitelistChecked { .. } => self.apps.can_create(),
            RelayEvent::PacketReceived { client_id, packet: Some(p), .. } => {
                let state = match self.clients.get(*client_id) {
                    Some(client) => client.state,
                    None => {
                        return true;
                    },
                };
                match (state, p) {
                    (ClientState::Connected, Packet::Authenticate { .. }) => self.apps.can_create(),
                    (ClientState::Authenticated { app_id }, Packet::CreateRoom { .. }) => {
                        match self.apps.get(app_id) {
                            None => true,
                            Some(_) => self.apps.can_create_room(app_id),
                        }
                    },
                    (ClientState::InRoom { app_id, room_id }, Packet::JoinRes { .. }) => {
                        match self.apps.get(app_id) {
                            None => true,
                            Some(app) => match app.rooms.get(room_id) {
                                None => true,
                                Some(room) => room.has_peer_ids_left(),
                            },
                        }
                    },
                    _ => true,
                }
            },
            _ => true,
        }
    }

    /// Handles `event` as [`relay_event_ok`] describes.
    pub fn handle_event(&mut self, event: RelayEvent) -> (outs: Vec<RelayAction>)
        requires
            old(self).wf(),
            relay_event_handled(old(self)@, event@),
        ensures
            final(self).wf(),
            final(self).config() == old(self).config(),
            relay_event_ok(old(self).config(), old(self)@, event@, final(self)@, relay_actions_view(outs@)),
    {
        match event {
            RelayEvent::ClientConnected { client_id } => {
                self.clients.create(client_id);
                let outs: Vec<RelayAction> = Vec::new();
                proof {
                    assert(relay_actions_view(outs@) =~= Seq::<RelayActionView>::empty());
                }
                outs
            },
            RelayEvent::ClientDisconnected { client_id } => handle_disconnect(
                &mut self.apps,
                &mut self.clients,
                client_id,
            ),
            RelayEvent::PacketReceived { client_id, packet, channel } => self.handle_packet(
                client_id,
                packet,
                channel,
            ),
            RelayEvent::WhitelistChecked { client_id, app_token, answer } => {
                let allowed = whitelist_verdict(&self.config, app_token.as_str(), answer);
                admit_client(&mut self.apps, &mut self.clients, client_id, app_token, allowed)
            },
        }
    }

    /// Shuts the relay's rooms down: every member of every room is told to
    /// disconnect (once for each room it is in), then every room closes.
    pub fn cleanup(&mut self) -> (outs: Vec<RelayAction>)
        requires
            old(self).wf(),
        ensures
            final(self).wf(),
            final(self).config() == old(self).config(),
            final(self)@.clients == old(self)@.clients,
            final(self)@.apps == without_rooms(old(self)@.apps),
            exists|ts: Seq<ClientId>|
                #![trigger notify_all(ts, PacketView::ForceDisconnect)]
                ts.to_set() == app_members(old(self)@.apps.apps) && relay_actions_view(outs@) == notify_all(
                    ts,
                    PacketView::ForceDisconnect,
                ),
    {
        let disconnects = self.apps.member_list();
        let mut outs: Vec<RelayAction> = Vec::new();
        let mut k: usize = 0;
        proof {
            assert(relay_actions_view(outs@) =~= notify_all(disconnects@.take(0), PacketView::ForceDisconnect));
        }
        while k < disconnects.len()
            invariant
                k <= disconnects@.len(),
                relay_actions_view(outs@) == notify_all(disconnects@.take(k as int), PacketView::ForceDisconnect),
            decreases disconnects.len() - k,
        {
            send_packet(&mut outs, disconnects[k], Packet::ForceDisconnect, TransferChannel::Reliable);
            proof {
                assert(disconnects@.take(k + 1) =~= disconnects@.take(k as int).push(disconnects@[k as int]));
                assert(relay_actions_view(outs@) =~= notify_all(
                    disconnects@.take(k + 1),
                    PacketView::ForceDisconnect,
                ));
            }
            k += 1;
        }
        proof {
            assert(disconnects@.take(disconnects@.len() as int) =~= disconnects@);
        }
        self.apps.clear_rooms();
        outs
    }
}

/// Which packets each state accepts: authentication when connected; room
/// creation, join requests and room lists when authenticated; game data,
/// metadata updates and answers to join requests in a room.
pub open spec fn accepted_in(state: ClientState, p: PacketView) -> bool {
    match state {
        ClientState::Connected => p is Authenticate,
        ClientState::Authenticated { .. } => p is CreateRoom || p is ReqJoin || p is ReqRooms,
        ClientState::InRoom { .. } => p is UpdateRoom || p is JoinRes || p is GameData,
    }
}

/// A packet that the sender's state does not accept is answered with an
/// error reply, and nothing changes.
pub proof fn law_unexpected_packets_are_refused(
    config: Config,
    v: RelayServerView,
    c: ClientId,
    p: PacketView,
    channel: TransferChannel,
    v2: RelayServerView,
    outs: Seq<RelayActionView>,
)
    requires
        v.clients.contains_key(c),
        !accepted_in(v.clients[c], p),
        packet_ok(config, v, c, Some(p), channel, v2, outs),
    ensures
        v2 == v,
        outs == seq![refusal(c, unexpected_packet())],
{
}

/// A packet from a client the relay does not know, or one that could not
/// be decoded, changes nothing and is not answered.
pub proof fn law_unknown_senders_are_ignored(
    config: Config,
    v: RelayServerView,
    c: ClientId,
    p: Option<PacketView>,
    channel: TransferChannel,
    v2: RelayServerView,
    outs: Seq<RelayActionView>,
)
    requires
        !v.clients.contains_key(c) || p is None,
        packet_ok(config, v, c, p, channel, v2, outs),
    ensures
        v2 == v,
        outs.len() == 0,
{
}

/// A connected client becomes authenticated only by an authentication that
/// passed: its own request with an allowed version and a token the local
/// whitelist lets in, or the remote whitelist's verdict on its token.
pub proof fn law_authentication_requires_passing_checks(
    config: Config,
    v: RelayServerView,
    event: RelayEventView,
    v2: RelayServerView,
    outs: Seq<RelayActionView>,
    c: ClientId,
)
    requires
        v.clients.contains_key(c),
        v.clients[c] == ClientState::Connected,
        relay_event_ok(config, v, event, v2, outs),
        v2.clients.contains_key(c),
        v2.clients[c] is Authenticated,
    ensures
        match event {
            RelayEventView::PacketReceived { client_id, packet: Some(p), .. } => {
                &&& client_id == c
                &&& p matches PacketView::Authenticate { app_id, version } && version_allowed(config, version)
                    && !remote_whitelist_configured(config) && locally_allowed(config, app_id)
            },
            RelayEventView::WhitelistChecked { client_id, app_token, answer } => {
                client_id == c && remote_verdict(config, app_token, answer)
            },
            _ => false,
        },
{
    match event {
        RelayEventView::ClientConnected { client_id } => {},
        RelayEventView::ClientDisconnected { client_id } => {
            if v.clients.contains_key(client_id) {
                match v.clients[client_id] {
                    ClientState::InRoom { app_id, room_id } => {
                        let rs = v.apps.apps[app_id].rooms;
                        if v.apps.apps.contains_key(app_id) && rs.rooms.contains_key(room_id)
                            && rs.rooms[room_id].peers.clients.contains_key(client_id)
                            && rs.rooms[room_id].host == client_id {
                            let others = rs.rooms[room_id].peers.clients.dom().remove(client_id);
                            assert(v2.clients == v.clients.remove(client_id).remove_keys(others));
                        }
                    },
                    _ => {},
                }
            }
        },
        RelayEventView::PacketReceived { client_id, packet, channel } => {
            if v.clients.contains_key(client_id) && packet is Some {
                let p = packet->0;
                match v.clients[client_id] {
                    ClientState::Connected => {
                        if let PacketView::Authenticate { app_id, version } = p {
                            if client_id != c {
                                if version_allowed(config, version) && !remote_whitelist_configured(config)
                                    && locally_allowed(config, app_id) && v.clients.contains_key(client_id) {
                                    assert(v2.clients[c] == v.clients[c]);
                                }
                            }
                        }
                    },
                    ClientState::Authenticated { app_id } => {
                        if let PacketView::CreateRoom { is_public, metadata } = p {
                            if v.apps.apps.contains_key(app_id) && v.clients.contains_key(client_id) {
                                assert(client_id != c);
                            }
                        }
                    },
                    ClientState::InRoom { app_id, room_id } => {
                        if let PacketView::JoinRes { target_id, allowed, .. } = p {
                            if allowed && v.clients.contains_key(target_id) && v.apps.apps.contains_key(app_id)
                                && v.apps.apps[app_id].rooms.rooms.contains_key(room_id) {
                                if target_id == c {
                                    assert(v2.clients[c] is InRoom);
                                }
                            }
                        }
                    },
                }
            }
        },
        RelayEventView::WhitelistChecked { client_id, app_token, answer } => {},
    }
}

} // verus!
