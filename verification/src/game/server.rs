//! The game server's decisions. Clients authenticate with
//! an application id and a protocol version, create rooms, join rooms by
//! name, announce that they are ready, and exchange game data with the
//! peers of their room. Each event the transport reports becomes a change of
//! state and a list of actions (messages to send, clients to drop, rooms to
//! register with or remove from the room registry) that the program around
//! the server carries out.
use vstd::prelude::*;
use std::collections::HashMap;
use std::time::Instant;
use crate::game::app::App;
use crate::game::room::{Room, RoomView};
use crate::peers::{lemma_members_step, lemma_take_one_more, ClientId, PeerTableView};
use crate::text::{decimal_nat, push_decimal_u64, str_eq};
use crate::transport::common::TransferChannels;
use crate::transport::reliability::instant_now;

verus! {

broadcast use {vstd::std_specs::hash::group_hash_axioms, crate::game::app::lemma_app_view};

// ---------------------------------------------------------------------
// Messages, events and actions
// ---------------------------------------------------------------------

/// The messages of the game protocol that this server reads and writes.
#[derive(Debug, Clone)]
pub enum GameMessage {
    Authenticate { app_id: String, version: String },
    ClientAuthenticated,
    CreateRoom,
    JoinRoom { room_id: String },
    ConnectedToRoom { room_id: String, peer_id: i32, existing_peers: Vec<i32> },
    PeerReady,
    PeerJoinedRoom { peer_id: i32 },
    PeerLeftRoom { peer_id: i32 },
    GameData { from_peer: i32, data: Vec<u8> },
    ForceDisconnect,
    Error { error_code: i32, error_message: String },
}

/// The content of a [`GameMessage`].
pub enum GameMessageView {
    Authenticate { app_id: Seq<char>, version: Seq<char> },
    ClientAuthenticated,
    CreateRoom,
    JoinRoom { room_id: Seq<char> },
    ConnectedToRoom { room_id: Seq<char>, peer_id: i32, existing_peers: Seq<i32> },
    PeerReady,
    PeerJoinedRoom { peer_id: i32 },
    PeerLeftRoom { peer_id: i32 },
    GameData { from_peer: i32, data: Seq<u8> },
    ForceDisconnect,
    Error { error_code: i32, error_message: Seq<char> },
}

impl View for GameMessage {
    type V = GameMessageView;

    open spec fn view(&self) -> GameMessageView {
        match self {
            GameMessage::Authenticate { app_id, version } => GameMessageView::Authenticate {
                app_id: app_id@,
                version: version@,
            },
            GameMessage::ClientAuthenticated => GameMessageView::ClientAuthenticated,
            GameMessage::CreateRoom => GameMessageView::CreateRoom,
            GameMessage::JoinRoom { room_id } => GameMessageView::JoinRoom { room_id: room_id@ },
            GameMessage::ConnectedToRoom { room_id, peer_id, existing_peers } => {
                GameMessageView::ConnectedToRoom {
                    room_id: room_id@,
                    peer_id: *peer_id,
                    existing_peers: existing_peers@,
                }
            },
            GameMessage::PeerReady => GameMessageView::PeerReady,
            GameMessage::PeerJoinedRoom { peer_id } => GameMessageView::PeerJoinedRoom {
                peer_id: *peer_id,
            },
            GameMessage::PeerLeftRoom { peer_id } => GameMessageView::PeerLeftRoom {
                peer_id: *peer_id,
            },
            GameMessage::GameData { from_peer, data } => GameMessageView::GameData {
                from_peer: *from_peer,
                data: data@,
            },
            GameMessage::ForceDisconnect => GameMessageView::ForceDisconnect,
            GameMessage::Error { error_code, error_message } => GameMessageView::Error {
                error_code: *error_code,
                error_message: error_message@,
            },
        }
    }
}

/// What the transport reports, with each payload already decoded (`None`
/// for one that could not be).
pub enum GameEvent {
    ClientConnected { client_id: ClientId },
    ClientDisconnected { client_id: ClientId },
    MessageReceived {
        client_id: ClientId,
        message: Option<GameMessage>,
        channel: TransferChannels,
    },
}

pub enum GameEventView {
    ClientConnected { client_id: ClientId },
    ClientDisconnected { client_id: ClientId },
    MessageReceived {
        client_id: ClientId,
        message: Option<GameMessageView>,
        channel: TransferChannels,
    },
}

impl View for GameEvent {
    type V = GameEventView;

    open spec fn view(&self) -> GameEventView {
        match self {
            GameEvent::ClientConnected { client_id } => GameEventView::ClientConnected {
                client_id: *client_id,
            },
            GameEvent::ClientDisconnected { client_id } => GameEventView::ClientDisconnected {
                client_id: *client_id,
            },
            GameEvent::MessageReceived { client_id, message, channel } => {
                GameEventView::MessageReceived {
                    client_id: *client_id,
                    message: match message {
                        Some(m) => Some(m@),
                        None => None,
                    },
                    channel: *channel,
                }
            },
        }
    }
}

/// What the server asks the program around it to do.
pub enum GameAction {
    /// Send `message` to `target`.
    Send { target: ClientId, message: GameMessage, channel: TransferChannels },
    /// Drop `target`'s connection.
    Disconnect { target: ClientId },
    /// Record in the room registry that `room_id` belongs to `app_id`.
    RegisterRoom { room_id: String, app_id: String },
    /// Remove `room_id` from the room registry.
    DeregisterRoom { room_id: String },
}

pub enum GameActionView {
    Send { target: ClientId, message: GameMessageView, channel: TransferChannels },
    Disconnect { target: ClientId },
    RegisterRoom { room_id: Seq<char>, app_id: Seq<char> },
    DeregisterRoom { room_id: Seq<char> },
}

impl View for GameAction {
    type V = GameActionView;

    open spec fn view(&self) -> GameActionView {
        match self {
            GameAction::Send { target, message, channel } => GameActionView::Send {
                target: *target,
                message: message@,
                channel: *channel,
            },
            GameAction::Disconnect { target } => GameActionView::Disconnect { target: *target },
            GameAction::RegisterRoom { room_id, app_id } => GameActionView::RegisterRoom {
                room_id: room_id@,
                app_id: app_id@,
            },
            GameAction::DeregisterRoom { room_id } => GameActionView::DeregisterRoom {
                room_id: room_id@,
            },
        }
    }
}

pub open spec fn actions_view(s: Seq<GameAction>) -> Seq<GameActionView> {
    s.map_values(|a: GameAction| a@)
}

/// `message` sent to `target` on the reliable channel.
pub open spec fn reliable_send(target: ClientId, message: GameMessageView) -> GameActionView {
    GameActionView::Send { target, message, channel: TransferChannels::Reliable }
}

/// `message` sent reliably to each of `targets`, in that order.
pub open spec fn notices(targets: Seq<ClientId>, message: GameMessageView) -> Seq<GameActionView> {
    targets.map_values(|t: ClientId| reliable_send(t, message))
}

/// `outs` sends `message` reliably to each client of `targets` once, in
/// some order, and does nothing else.
pub open spec fn notices_ok(outs: Seq<GameActionView>, targets: Set<ClientId>, message: GameMessageView) -> bool {
    exists|ts: Seq<ClientId>|
        #![trigger notices(ts, message)]
        ts.no_duplicates() && ts.to_set() == targets && outs == notices(ts, message)
}

// ---------------------------------------------------------------------
// Configuration and state
// ---------------------------------------------------------------------

/// The settings the server runs with.
pub struct GameServerConfig {
    /// Application ids allowed in; empty allows every id.
    pub app_whitelist: Vec<String>,
    /// Protocol versions allowed in; empty allows every version.
    pub allowed_versions: Vec<String>,
    /// Prefix of the names of the rooms this relay creates.
    pub relay_id: Option<String>,
    /// Where the room registry lives.
    pub registry_url: Option<String>,
    /// The key this relay presents to the room registry.
    pub relay_api_key: Option<String>,
}

/// An authenticated client.
pub struct ClientSession {
    pub app_id: String,
    pub connected_at: Instant,
}

/// The server's state.
pub struct GameServer {
    config: GameServerConfig,
    registry: bool,
    apps: Vec<App>,
    sessions: HashMap<ClientId, ClientSession>,
    client_to_room: HashMap<ClientId, (String, String)>,
}

/// An application as the server sees it: its id and its rooms.
pub struct GameAppView {
    pub id: Seq<char>,
    pub rooms: Seq<RoomView>,
}

/// The content of a [`GameServer`].
pub struct GameServerView {
    /// The applications, in order of first authentication.
    pub apps: Seq<GameAppView>,
    /// Each authenticated client's application id.
    pub sessions: Map<ClientId, Seq<char>>,
    /// The application id and room id of the room each client last entered.
    pub rooms_of: Map<ClientId, (Seq<char>, Seq<char>)>,
    /// Application ids allowed in; empty allows every id.
    pub whitelist: Seq<Seq<char>>,
    /// Protocol versions allowed in; empty allows every version.
    pub versions: Seq<Seq<char>>,
    /// Prefix of room names.
    pub relay_id: Option<Seq<char>>,
    /// Whether rooms are recorded in the room registry.
    pub registry: bool,
}

pub open spec fn game_app_view(a: App) -> GameAppView {
    GameAppView { id: a@.id, rooms: a@.rooms.map_values(|r: Room| r@) }
}

pub open spec fn strings_view(s: Seq<String>) -> Seq<Seq<char>> {
    s.map_values(|w: String| w@)
}

pub open spec fn option_string_view(o: Option<String>) -> Option<Seq<char>> {
    match o {
        Some(s) => Some(s@),
        None => None,
    }
}

impl View for GameServer {
    type V = GameServerView;

    closed spec fn view(&self) -> GameServerView {
        GameServerView {
            apps: self.apps@.map_values(|a: App| game_app_view(a)),
            sessions: self.sessions@.map_values(|s: ClientSession| s.app_id@),
            rooms_of: self.client_to_room@.map_values(|e: (String, String)| (e.0@, e.1@)),
            whitelist: strings_view(self.config.app_whitelist@),
            versions: strings_view(self.config.allowed_versions@),
            relay_id: option_string_view(self.config.relay_id),
            registry: self.registry,
        }
    }
}

// ---------------------------------------------------------------------
// Model of the server
// ---------------------------------------------------------------------

pub open spec fn has_game_app(apps: Seq<GameAppView>, id: Seq<char>) -> bool {
    exists|i: int| 0 <= i < apps.len() && (#[trigger] apps[i]).id == id
}

pub open spec fn game_app_index(apps: Seq<GameAppView>, id: Seq<char>) -> int {
    choose|i: int| 0 <= i < apps.len() && (#[trigger] apps[i]).id == id
}

pub open spec fn has_game_room(rooms: Seq<RoomView>, id: Seq<char>) -> bool {
    exists|i: int| 0 <= i < rooms.len() && (#[trigger] rooms[i]).id == id
}

pub open spec fn game_room_index(rooms: Seq<RoomView>, id: Seq<char>) -> int {
    choose|i: int| 0 <= i < rooms.len() && (#[trigger] rooms[i]).id == id
}

/// Room ids are distinct and every peer table is sound.
pub open spec fn game_rooms_wf(rooms: Seq<RoomView>) -> bool {
    &&& forall|a: int, b: int|
        0 <= a < rooms.len() && 0 <= b < rooms.len() && a != b ==> (#[trigger] rooms[a]).id != (
        #[trigger] rooms[b]).id
    &&& forall|a: int| 0 <= a < rooms.len() ==> crate::peers::peer_table_wf((#[trigger] rooms[a]).peers)
}

/// The server's invariant: application ids are distinct, and so are the
/// room ids of each application.
pub open spec fn game_server_wf(v: GameServerView) -> bool {
    &&& forall|i: int, j: int|
        0 <= i < v.apps.len() && 0 <= j < v.apps.len() && i != j ==> (#[trigger] v.apps[i]).id != (
        #[trigger] v.apps[j]).id
    &&& forall|i: int| 0 <= i < v.apps.len() ==> game_rooms_wf(#[trigger] v.apps[i].rooms)
}

/// Whether `x` passes `list`, where an empty list lets everything pass.
pub open spec fn allowed_by(list: Seq<Seq<char>>, x: Seq<char>) -> bool {
    list.len() == 0 || list.contains(x)
}

/// The items of `list` with `sep` between each two.
pub open spec fn joined(list: Seq<Seq<char>>, sep: Seq<char>) -> Seq<char>
    decreases list.len(),
{
    if list.len() == 0 {
        Seq::empty()
    } else if list.len() == 1 {
        list[0]
    } else {
        joined(list.drop_last(), sep) + sep + list.last()
    }
}

/// The text of the refusal of a protocol version.
pub open spec fn version_refusal(version: Seq<char>, allowed: Seq<Seq<char>>) -> Seq<char> {
    "Version "@ + version + " is not allowed"@ + "\nAllowed versions: "@ + joined(allowed, ", "@)
}

/// The name of the room that `c` creates.
pub open spec fn room_name(v: GameServerView, c: ClientId) -> Seq<char> {
    match v.relay_id {
        Some(r) => r + "_"@ + decimal_nat(c as nat),
        None => decimal_nat(c as nat),
    }
}

pub open spec fn with_app_rooms(v: GameServerView, i: int, rooms: Seq<RoomView>) -> GameServerView {
    GameServerView { apps: v.apps.update(i, GameAppView { id: v.apps[i].id, rooms }), ..v }
}

/// A room after `c` joined it.
pub open spec fn with_peer(r: RoomView, c: ClientId) -> RoomView {
    RoomView {
        peers: PeerTableView {
            clients: r.peers.clients.insert(c, r.peers.next),
            godots: r.peers.godots.insert(r.peers.next, c),
            next: (r.peers.next + 1) as i32,
        },
        ..r
    }
}

/// A room after `c` left it.
pub open spec fn without_peer(r: RoomView, c: ClientId) -> RoomView {
    RoomView {
        peers: PeerTableView {
            clients: r.peers.clients.remove(c),
            godots: if r.peers.clients.contains_key(c) {
                r.peers.godots.remove(r.peers.clients[c])
            } else {
                r.peers.godots
            },
            next: r.peers.next,
        },
        ..r
    }
}

/// The room `c` creates under `name`: `c` hosts it and is its first peer.
pub open spec fn fresh_room(name: Seq<char>, c: ClientId) -> RoomView {
    with_peer(
        RoomView {
            id: name,
            host: c,
            peers: PeerTableView { clients: Map::empty(), godots: Map::empty(), next: 1 },
            pending: Set::empty(),
        },
        c,
    )
}

/// The rooms after `room` is stored under its id.
pub open spec fn store_game_room(rooms: Seq<RoomView>, room: RoomView) -> Seq<RoomView> {
    if has_game_room(rooms, room.id) {
        rooms.update(game_room_index(rooms, room.id), room)
    } else {
        rooms.push(room)
    }
}

pub open spec fn increasing(s: Seq<i32>) -> bool {
    forall|a: int, b: int| 0 <= a < b < s.len() ==> s[a] < s[b]
}

pub open spec fn error_message(code: i32, text: Seq<char>) -> GameMessageView {
    GameMessageView::Error { error_code: code, error_message: text }
}

pub open spec fn authenticate_spec(v: GameServerView, c: ClientId, app_id: Seq<char>, version: Seq<char>) -> (
    GameServerView,
    Seq<GameActionView>,
) {
    if !allowed_by(v.whitelist, app_id) {
        (
            v,
            seq![
                reliable_send(c, error_message(401, "Unauthorized"@)),
                GameActionView::Disconnect { target: c },
            ],
        )
    } else if !allowed_by(v.versions, version) {
        (
            v,
            seq![
                reliable_send(c, error_message(401, version_refusal(version, v.versions))),
                GameActionView::Disconnect { target: c },
            ],
        )
    } else {
        (
            GameServerView {
                sessions: v.sessions.insert(c, app_id),
                apps: if has_game_app(v.apps, app_id) {
                    v.apps
                } else {
                    v.apps.push(GameAppView { id: app_id, rooms: Seq::empty() })
                },
                ..v
            },
            seq![reliable_send(c, GameMessageView::ClientAuthenticated)],
        )
    }
}

/// `c`, whose application is known, creates a room.
pub open spec fn create_room_spec(v: GameServerView, c: ClientId) -> (GameServerView, Seq<GameActionView>) {
    let a = v.sessions[c];
    let i = game_app_index(v.apps, a);
    let name = room_name(v, c);
    let connected = reliable_send(
        c,
        GameMessageView::ConnectedToRoom { room_id: name, peer_id: 1, existing_peers: Seq::empty() },
    );
    (
        GameServerView {
            rooms_of: v.rooms_of.insert(c, (a, name)),
            ..with_app_rooms(v, i, store_game_room(v.apps[i].rooms, fresh_room(name, c)))
        },
        if v.registry {
            seq![GameActionView::RegisterRoom { room_id: name, app_id: a }, connected]
        } else {
            seq![connected]
        },
    )
}

/// `c`, whose application is known, asks to join `room_id`: it becomes a
/// pending peer and learns the peers already there, in increasing order.
pub open spec fn join_room_ok(
    v: GameServerView,
    c: ClientId,
    room_id: Seq<char>,
    v2: GameServerView,
    outs: Seq<GameActionView>,
) -> bool {
    let a = v.sessions[c];
    let i = game_app_index(v.apps, a);
    let rooms = v.apps[i].rooms;
    if !has_game_room(rooms, room_id) {
        &&& v2 == v
        &&& outs == seq![reliable_send(c, error_message(404, "Room not found"@))]
    } else {
        let j = game_room_index(rooms, room_id);
        let r = rooms[j];
        &&& v2 == GameServerView {
            rooms_of: v.rooms_of.insert(c, (a, room_id)),
            ..with_app_rooms(
                v,
                i,
                rooms.update(j, RoomView { pending: r.pending.insert(c), ..with_peer(r, c) }),
            )
        }
        &&& outs.len() == 1
        &&& outs[0] matches GameActionView::Send {
            target,
            message: GameMessageView::ConnectedToRoom { room_id: rid, peer_id, existing_peers },
            channel,
        } && target == c && rid == room_id && peer_id == r.peers.next && channel
            == TransferChannels::Reliable && increasing(existing_peers) && existing_peers.to_set()
            == r.peers.godots.dom()
    }
}

/// `c` says it is ready: if it was pending in its room, the other members
/// learn that it joined.
pub open spec fn announce_ok(v: GameServerView, c: ClientId, v2: GameServerView, outs: Seq<GameActionView>) -> bool {
    if !v.rooms_of.contains_key(c) {
        v2 == v && outs.len() == 0
    } else {
        let i = game_app_index(v.apps, v.rooms_of[c].0);
        let rooms = v.apps[i].rooms;
        let rid = v.rooms_of[c].1;
        if !has_game_room(rooms, rid) {
            v2 == v && outs.len() == 0
        } else {
            let j = game_room_index(rooms, rid);
            let r = rooms[j];
            if !r.peers.clients.contains_key(c) {
                v2 == v && outs.len() == 0
            } else {
                &&& v2 == with_app_rooms(v, i, rooms.update(j, RoomView { pending: r.pending.remove(c), ..r }))
                &&& if r.pending.contains(c) {
                    notices_ok(
                        outs,
                        r.peers.clients.dom().remove(c),
                        GameMessageView::PeerJoinedRoom { peer_id: r.peers.clients[c] },
                    )
                } else {
                    outs.len() == 0
                }
            }
        }
    }
}

/// Game data from `c` for the peer `target` of the room it last entered.
pub open spec fn game_data_spec(
    v: GameServerView,
    c: ClientId,
    target: i32,
    data: Seq<u8>,
    channel: TransferChannels,
) -> Seq<GameActionView> {
    if !v.rooms_of.contains_key(c) || !has_game_app(v.apps, v.rooms_of[c].0) {
        Seq::empty()
    } else {
        let rooms = v.apps[game_app_index(v.apps, v.rooms_of[c].0)].rooms;
        let rid = v.rooms_of[c].1;
        if !has_game_room(rooms, rid) {
            Seq::empty()
        } else {
            let r = rooms[game_room_index(rooms, rid)];
            if r.peers.clients.contains_key(c) && r.peers.godots.contains_key(target) {
                seq![
                    GameActionView::Send {
                        target: r.peers.godots[target],
                        message: GameMessageView::GameData { from_peer: r.peers.clients[c], data },
                        channel,
                    },
                ]
            } else {
                Seq::empty()
            }
        }
    }
}

/// The applications after the rooms of application `i` became `rooms`: an
/// application left with no room is forgotten.
pub open spec fn apps_after(apps: Seq<GameAppView>, i: int, rooms: Seq<RoomView>) -> Seq<GameAppView> {
    if rooms.len() == 0 {
        apps.remove(i)
    } else {
        apps.update(i, GameAppView { id: apps[i].id, rooms })
    }
}

/// `c` disconnected. Its session ends. If it was in a room: a host's room
/// closes, its other members' sessions end and each is told to disconnect
/// (and the room leaves the registry); a member leaves the room, which
/// closes if no one is left, and otherwise the other members learn that it
/// left. An application left with no room is forgotten.
pub open spec fn disconnect_ok(v: GameServerView, c: ClientId, v2: GameServerView, outs: Seq<GameActionView>) -> bool {
    let s1 = GameServerView { sessions: v.sessions.remove(c), ..v };
    if !v.rooms_of.contains_key(c) {
        v2 == s1 && outs.len() == 0
    } else {
        let a = v.rooms_of[c].0;
        let rid = v.rooms_of[c].1;
        let s2 = GameServerView { rooms_of: v.rooms_of.remove(c), ..s1 };
        if !has_game_app(v.apps, a) {
            v2 == s2 && outs.len() == 0
        } else {
            let i = game_app_index(v.apps, a);
            let rooms = v.apps[i].rooms;
            if !has_game_room(rooms, rid) {
                v2 == s2 && outs.len() == 0
            } else {
                let j = game_room_index(rooms, rid);
                let r = rooms[j];
                let others = r.peers.clients.dom().remove(c);
                if !r.peers.clients.contains_key(c) {
                    v2 == s2 && outs.len() == 0
                } else if r.host == c {
                    &&& v2 == GameServerView {
                        sessions: s2.sessions.remove_keys(others),
                        rooms_of: s2.rooms_of.remove_keys(others),
                        apps: apps_after(v.apps, i, rooms.remove(j)),
                        ..s2
                    }
                    &&& if v.registry {
                        &&& outs.len() >= 1
                        &&& outs.last() == GameActionView::DeregisterRoom { room_id: rid }
                        &&& notices_ok(outs.drop_last(), others, GameMessageView::ForceDisconnect)
                    } else {
                        notices_ok(outs, others, GameMessageView::ForceDisconnect)
                    }
                } else {
                    let left = without_peer(r, c);
                    if left.peers.clients.is_empty() {
                        v2 == GameServerView { apps: apps_after(v.apps, i, rooms.remove(j)), ..s2 }
                            && outs.len() == 0
                    } else {
                        &&& v2 == GameServerView {
                            apps: apps_after(v.apps, i, rooms.update(j, left)),
                            ..s2
                        }
                        &&& notices_ok(
                            outs,
                            others,
                            GameMessageView::PeerLeftRoom { peer_id: r.peers.clients[c] },
                        )
                    }
                }
            }
        }
    }
}

/// What the server does with `message` (already decoded, `None` when it
/// could not be) from `c` on `channel`.
pub open spec fn message_ok(
    v: GameServerView,
    c: ClientId,
    message: Option<GameMessageView>,
    channel: TransferChannels,
    v2: GameServerView,
    outs: Seq<GameActionView>,
) -> bool {
    match message {
        None => v2 == v && outs.len() == 0,
        Some(m) => match m {
            GameMessageView::Authenticate { app_id, version } => (v2, outs) == authenticate_spec(
                v,
                c,
                app_id,
                version,
            ),
            _ => if !v.sessions.contains_key(c) {
                v2 == v && outs == seq![reliable_send(c, error_message(0, "Unauthorized"@))]
            } else {
                match m {
                    GameMessageView::CreateRoom => (v2, outs) == create_room_spec(v, c),
                    GameMessageView::JoinRoom { room_id } => join_room_ok(v, c, room_id, v2, outs),
                    GameMessageView::PeerReady => announce_ok(v, c, v2, outs),
                    GameMessageView::GameData { from_peer, data } => v2 == v && outs == game_data_spec(
                        v,
                        c,
                        from_peer,
                        data,
                        channel,
                    ),
                    _ => v2 == v && outs.len() == 0,
                }
            },
        },
    }
}

/// What the server does on `event`.
pub open spec fn event_ok(v: GameServerView, event: GameEventView, v2: GameServerView, outs: Seq<GameActionView>) -> bool {
    match event {
        GameEventView::ClientConnected { .. } => v2 == v && outs.len() == 0,
        GameEventView::ClientDisconnected { client_id } => disconnect_ok(v, client_id, v2, outs),
        GameEventView::MessageReceived { client_id, message, channel } => message_ok(
            v,
            client_id,
            message,
            channel,
            v2,
            outs,
        ),
    }
}

/// The inputs on which the server stops: a room request from a client
/// whose application has been forgotten, a readiness announcement for a
/// room of a forgotten application, and a join to a room that has handed
/// out every peer identifier.
pub open spec fn message_stops_server(v: GameServerView, c: ClientId, m: GameMessageView) -> bool {
    match m {
        GameMessageView::Authenticate { .. } => false,
        _ => v.sessions.contains_key(c) && match m {
            GameMessageView::CreateRoom => !has_game_app(v.apps, v.sessions[c]),
            GameMessageView::JoinRoom { room_id } => !has_game_app(v.apps, v.sessions[c]) || {
                let rooms = v.apps[game_app_index(v.apps, v.sessions[c])].rooms;
                has_game_room(rooms, room_id) && rooms[game_room_index(rooms, room_id)].peers.next
                    == i32::MAX
            },
            GameMessageView::PeerReady => v.rooms_of.contains_key(c) && !has_game_app(
                v.apps,
                v.rooms_of[c].0,
            ),
            _ => false,
        },
    }
}

/// Whether the server handles `event` without stopping.
pub open spec fn event_handled(v: GameServerView, event: GameEventView) -> bool {
    match event {
        GameEventView::MessageReceived { client_id, message: Some(m), .. } => !message_stops_server(
            v,
            client_id,
            m,
        ),
        _ => true,
    }
}

// ---------------------------------------------------------------------
// Lookups
// ---------------------------------------------------------------------

/// An application's rooms are sound exactly when their contents are.
proof fn lemma_app_wf(a: App)
    ensures
        a.wf() <==> game_rooms_wf(game_app_view(a).rooms),
{
    let rs = a@.rooms;
    let rv = game_app_view(a).rooms;
    assert forall|k: int| 0 <= k < rs.len() implies rv[k] == (#[trigger] rs[k])@ by {}
    if a.wf() {
        assert forall|x: int, y: int|
            0 <= x < rv.len() && 0 <= y < rv.len() && x != y implies (#[trigger] rv[x]).id != (
            #[trigger] rv[y]).id by {
            assert(rv[x] == rs[x]@);
            assert(rv[y] == rs[y]@);
        }
        assert forall|x: int| 0 <= x < rv.len() implies crate::peers::peer_table_wf(
            (#[trigger] rv[x]).peers,
        ) by {
            assert(rs[x].wf());
        }
    }
    if game_rooms_wf(rv) {
        assert forall|x: int, y: int|
            0 <= x < rs.len() && 0 <= y < rs.len() && x != y implies (#[trigger] rs[x])@.id != (
            #[trigger] rs[y])@.id by {
            assert(rv[x] == rs[x]@);
            assert(rv[y] == rs[y]@);
        }
        assert forall|x: int| 0 <= x < rs.len() implies (#[trigger] rs[x]).wf() by {
            assert(rv[x] == rs[x]@);
        }
    }
}

/// Looking a room up in an application agrees with looking it up in its
/// contents.
proof fn lemma_room_lookup(a: App, id: Seq<char>)
    requires
        a.wf(),
    ensures
        crate::game::app::has_room(a@.rooms, id) == has_game_room(game_app_view(a).rooms, id),
        crate::game::app::has_room(a@.rooms, id) ==> crate::game::app::room_index(a@.rooms, id)
            == game_room_index(game_app_view(a).rooms, id),
{
    let rs = a@.rooms;
    let rv = game_app_view(a).rooms;
    lemma_app_wf(a);
    if crate::game::app::has_room(rs, id) {
        let k = crate::game::app::room_index(rs, id);
        assert(rv[k].id == id);
        let k2 = game_room_index(rv, id);
        assert(rv[k2] == rs[k2]@);
    }
    if has_game_room(rv, id) {
        let k = game_room_index(rv, id);
        assert(rv[k] == rs[k]@);
        assert(rs[k]@.id == id);
    }
}

/// Whether `x` passes `list`, where an empty list lets everything pass.
fn passes(list: &Vec<String>, x: &str) -> (r: bool)
    ensures
        r == allowed_by(strings_view(list@), x@),
{
    if list.len() == 0 {
        return true;
    }
    let mut i: usize = 0;
    while i < list.len()
        invariant
            i <= list@.len(),
            forall|j: int| 0 <= j < i ==> (#[trigger] list@[j])@ != x@,
        decreases list.len() - i,
    {
        if str_eq(list[i].as_str(), x) {
            proof {
                assert(strings_view(list@)[i as int] == x@);
            }
            return true;
        }
        i += 1;
    }
    proof {
        let l = strings_view(list@);
        assert forall|j: int| 0 <= j < l.len() implies l[j] != x@ by {
            assert(l[j] == list@[j]@);
        }
    }
    false
}

/// The refusal of protocol `version` when only `allowed` are accepted.
fn version_refusal_text(version: &str, allowed: &Vec<String>) -> (r: String)
    ensures
        r@ == version_refusal(version@, strings_view(allowed@)),
{
    let ghost l = strings_view(allowed@);
    let mut msg = String::new();
    msg.append("Version ");
    msg.append(version);
    msg.append(" is not allowed");
    msg.append("\nAllowed versions: ");
    let ghost prefix = msg@;
    let mut k: usize = 0;
    while k < allowed.len()
        invariant
            k <= allowed@.len(),
            l == strings_view(allowed@),
            msg@ == prefix + joined(l.take(k as int), ", "@),
        decreases allowed.len() - k,
    {
        let ghost before = msg@;
        if k > 0 {
            msg.append(", ");
        }
        msg.append(allowed[k].as_str());
        proof {
            let t1 = l.take(k + 1);
            assert(t1.drop_last() =~= l.take(k as int));
            assert(t1.last() == allowed@[k as int]@);
            if k == 0 {
                assert(l.take(0) =~= Seq::<Seq<char>>::empty());
                assert(msg@ =~= prefix + joined(t1, ", "@));
            } else {
                assert(msg@ =~= prefix + joined(t1, ", "@));
            }
        }
        k += 1;
    }
    proof {
        assert(l.take(allowed@.len() as int) =~= l);
        assert(msg@ =~= version_refusal(version@, l));
    }
    msg
}

/// The values of `v` in increasing order.
fn sort_increasing(v: &Vec<i32>) -> (r: Vec<i32>)
    requires
        v@.no_duplicates(),
    ensures
        increasing(r@),
        r@.to_set() == v@.to_set(),
{
    let mut r: Vec<i32> = Vec::new();
    let mut k: usize = 0;
    while k < v.len()
        invariant
            k <= v@.len(),
            v@.no_duplicates(),
            increasing(r@),
            r@.to_set() == v@.take(k as int).to_set(),
        decreases v.len() - k,
    {
        let x = v[k];
        let mut p: usize = 0;
        while p < r.len() && r[p] < x
            invariant
                p <= r@.len(),
                increasing(r@),
                forall|a: int| 0 <= a < p ==> r@[a] < x,
            decreases r.len() - p,
        {
            p += 1;
        }
        let ghost old_r = r@;
        proof {
            assert(!v@.take(k as int).contains(x)) by {
                if v@.take(k as int).contains(x) {
                    let y = choose|y: int| 0 <= y < k && v@.take(k as int)[y] == x;
                    assert(v@[y] == v@[k as int]);
                }
            }
            assert(!old_r.contains(x)) by {
                if old_r.contains(x) {
                    let y = choose|y: int| 0 <= y < old_r.len() && old_r[y] == x;
                    assert(old_r.to_set().contains(x));
                    assert(v@.take(k as int).to_set().contains(x));
                }
            }
            assert forall|b: int| p <= b < old_r.len() implies old_r[b] > x by {
                assert(old_r[p as int] >= x);
                assert(old_r[p as int] != x);
                if b > p {
                    assert(old_r[p as int] < old_r[b]);
                }
            }
        }
        r.insert(p, x);
        proof {
            let nr = r@;
            assert(nr =~= old_r.insert(p as int, x));
            assert forall|a: int, b: int| 0 <= a < b < nr.len() implies nr[a] < nr[b] by {
                if b < p {
                } else if b == p {
                } else if a < p {
                    assert(nr[b] == old_r[b - 1]);
                } else if a == p {
                    assert(nr[b] == old_r[b - 1]);
                } else {
                    assert(nr[a] == old_r[a - 1]);
                    assert(nr[b] == old_r[b - 1]);
                }
            }
            let t1 = v@.take(k + 1);
            assert(t1 =~= v@.take(k as int).push(x));
            assert forall|y: i32| nr.to_set().contains(y) <==> t1.to_set().contains(y) by {
                if nr.to_set().contains(y) {
                    let z = choose|z: int| 0 <= z < nr.len() && nr[z] == y;
                    if z < p {
                        assert(old_r[z] == y);
                        assert(old_r.to_set().contains(y));
                    } else if z > p {
                        assert(old_r[z - 1] == y);
                        assert(old_r.to_set().contains(y));
                    }
                    if y != x {
                        assert(v@.take(k as int).to_set().contains(y));
                        let w = choose|w: int| 0 <= w < k && v@.take(k as int)[w] == y;
                        assert(t1[w] == y);
                    } else {
                        assert(t1[k as int] == x);
                    }
                }
                if t1.to_set().contains(y) {
                    let w = choose|w: int| 0 <= w < t1.len() && t1[w] == y;
                    if w < k {
                        assert(v@.take(k as int)[w] == y);
                        assert(v@.take(k as int).to_set().contains(y));
                        assert(old_r.to_set().contains(y));
                        let z = choose|z: int| 0 <= z < old_r.len() && old_r[z] == y;
                        if z < p {
                            assert(nr[z] == y);
                        } else {
                            assert(nr[z + 1] == y);
                        }
                    } else {
                        assert(nr[p as int] == y);
                    }
                }
            }
            assert(nr.to_set() =~= t1.to_set());
        }
        k += 1;
    }
    proof {
        assert(v@.take(v@.len() as int) =~= v@);
    }
    r
}

/// A message sent to several members of a room.
#[derive(Clone, Copy)]
enum Notice {
    ForceDisconnect,
    PeerJoined(i32),
    PeerLeft(i32),
}

spec fn notice_message(n: Notice) -> GameMessageView {
    match n {
        Notice::ForceDisconnect => GameMessageView::ForceDisconnect,
        Notice::PeerJoined(p) => GameMessageView::PeerJoinedRoom { peer_id: p },
        Notice::PeerLeft(p) => GameMessageView::PeerLeftRoom { peer_id: p },
    }
}

fn notice_to_message(n: Notice) -> (m: GameMessage)
    ensures
        m@ == notice_message(n),
{
    match n {
        Notice::ForceDisconnect => GameMessage::ForceDisconnect,
        Notice::PeerJoined(p) => GameMessage::PeerJoinedRoom { peer_id: p },
        Notice::PeerLeft(p) => GameMessage::PeerLeftRoom { peer_id: p },
    }
}

/// Appends `notice`, sent reliably, for each of `members` but `except`.
fn push_notices(outs: &mut Vec<GameAction>, members: &Vec<ClientId>, except: ClientId, notice: Notice)
    requires
        members@.no_duplicates(),
    ensures
        exists|ts: Seq<ClientId>|
            #![trigger notices(ts, notice_message(notice))]
            ts.no_duplicates() && ts.to_set() == members@.to_set().remove(except) && actions_view(
                final(outs)@,
            ) == actions_view(old(outs)@) + notices(ts, notice_message(notice)),
{
    let ghost start = actions_view(outs@);
    let ghost m = notice_message(notice);
    let ghost mut ts: Seq<ClientId> = Seq::empty();
    let mut k: usize = 0;
    proof {
        assert(members@.take(0).to_set() =~= Set::<ClientId>::empty());
        assert(ts.to_set() =~= Set::<ClientId>::empty());
        assert(actions_view(outs@) =~= start + notices(ts, m));
    }
    while k < members.len()
        invariant
            k <= members@.len(),
            members@.no_duplicates(),
            m == notice_message(notice),
            ts.no_duplicates(),
            ts.to_set() == members@.take(k as int).to_set().remove(except),
            actions_view(outs@) == start + notices(ts, m),
        decreases members.len() - k,
    {
        let id = members[k];
        proof {
            lemma_members_step(members@, k as int, except, ts);
        }
        if id != except {
            let ghost before = outs@;
            outs.push(
                GameAction::Send {
                    target: id,
                    message: notice_to_message(notice),
                    channel: TransferChannels::Reliable,
                },
            );
            proof {
                assert(actions_view(outs@) =~= actions_view(before).push(reliable_send(id, m)));
                assert(notices(ts.push(id), m) =~= notices(ts, m).push(reliable_send(id, m)));
                ts = ts.push(id);
                assert(actions_view(outs@) =~= start + notices(ts, m));
            }
        }
        k += 1;
    }
    proof {
        assert(members@.take(members@.len() as int) =~= members@);
    }
}

// ---------------------------------------------------------------------
// The server
// ---------------------------------------------------------------------

impl GameServer {
    pub open spec fn wf(&self) -> bool {
        game_server_wf(self@)
    }

    /// A server with no application and no client. Rooms go to the room
    /// registry when its address, the relay id and the relay's key are all
    /// configured.
    pub fn new(config: GameServerConfig) -> (s: Self)
        ensures
            s.wf(),
            s@.apps == Seq::<GameAppView>::empty(),
            s@.sessions == Map::<ClientId, Seq<char>>::empty(),
            s@.rooms_of == Map::<ClientId, (Seq<char>, Seq<char>)>::empty(),
            s@.whitelist == strings_view(config.app_whitelist@),
            s@.versions == strings_view(config.allowed_versions@),
            s@.relay_id == option_string_view(config.relay_id),
            s@.registry == (config.registry_url is Some && config.relay_id is Some
                && config.relay_api_key is Some),
    {
        let registry = config.registry_url.is_some() && config.relay_id.is_some()
            && config.relay_api_key.is_some();
        let s = Self {
            config,
            registry,
            apps: Vec::new(),
            sessions: HashMap::new(),
            client_to_room: HashMap::new(),
        };
        proof {
            assert(s@.apps =~= Seq::<GameAppView>::empty());
            assert(s@.sessions =~= Map::<ClientId, Seq<char>>::empty());
            assert(s@.rooms_of =~= Map::<ClientId, (Seq<char>, Seq<char>)>::empty());
        }
        s
    }

    fn find_app(&self, app_id: &str) -> (r: Option<usize>)
        requires
            self.wf(),
        ensures
            match r {
                Some(i) => {
                    &&& i < self@.apps.len()
                    &&& self@.apps[i as int].id == app_id@
                    &&& has_game_app(self@.apps, app_id@)
                    &&& game_app_index(self@.apps, app_id@) == i
                },
                None => !has_game_app(self@.apps, app_id@),
            },
    {
        let mut i: usize = 0;
        while i < self.apps.len()
            invariant
                i <= self.apps@.len(),
                self.wf(),
                forall|j: int| 0 <= j < i ==> (#[trigger] self@.apps[j]).id != app_id@,
            decreases self.apps.len() - i,
        {
            proof {
                assert(self@.apps[i as int] == game_app_view(self.apps@[i as int]));
            }
            if str_eq(self.apps[i].id.as_str(), app_id) {
                proof {
                    assert(self@.apps[i as int].id == app_id@);
                    let k = game_app_index(self@.apps, app_id@);
                    assert(self@.apps[k].id == app_id@);
                }
                return Some(i);
            }
            i += 1;
        }
        None
    }

    fn authenticate_client(&mut self, sender_id: ClientId, app_id: String, version: String) -> (outs:
        Vec<GameAction>)
        requires
            old(self).wf(),
        ensures
            final(self).wf(),
            (final(self)@, actions_view(outs@)) == authenticate_spec(
                old(self)@,
                sender_id,
                app_id@,
                version@,
            ),
    {
        let mut outs: Vec<GameAction> = Vec::new();
        if !passes(&self.config.app_whitelist, app_id.as_str()) {
            outs.push(
                GameAction::Send {
                    target: sender_id,
                    message: GameMessage::Error {
                        error_code: 401,
                        error_message: String::from_str("Unauthorized"),
                    },
                    channel: TransferChannels::Reliable,
                },
            );
            outs.push(GameAction::Disconnect { target: sender_id });
            proof {
                assert(actions_view(outs@) =~= authenticate_spec(self@, sender_id, app_id@, version@).1);
            }
            return outs;
        }
        if !passes(&self.config.allowed_versions, version.as_str()) {
            let msg = version_refusal_text(version.as_str(), &self.config.allowed_versions);
            outs.push(
                GameAction::Send {
                    target: sender_id,
                    message: GameMessage::Error { error_code: 401, error_message: msg },
                    channel: TransferChannels::Reliable,
                },
            );
            outs.push(GameAction::Disconnect { target: sender_id });
            proof {
                assert(actions_view(outs@) =~= authenticate_spec(self@, sender_id, app_id@, version@).1);
            }
            return outs;
        }
        let ghost v0 = self@;
        let connected_at = instant_now();
        self.sessions.insert(sender_id, ClientSession { app_id: app_id.clone(), connected_at });
        if self.find_app(app_id.as_str()).is_none() {
            self.apps.push(App::new(app_id));
            proof {
                let a = self.apps@.last();
                assert(game_app_view(a).rooms =~= Seq::<RoomView>::empty());
                assert(self@.apps =~= v0.apps.push(GameAppView { id: app_id@, rooms: Seq::empty() }));
            }
        }
        outs.push(
            GameAction::Send {
                target: sender_id,
                message: GameMessage::ClientAuthenticated,
                channel: TransferChannels::Reliable,
            },
        );
        proof {
            let spec = authenticate_spec(v0, sender_id, app_id@, version@);
            assert(self@.sessions =~= spec.0.sessions);
            assert(self@.apps =~= spec.0.apps);
            assert(actions_view(outs@) =~= spec.1);
        }
        outs
    }

    /// The name of the room `c` creates.
    fn room_name_text(&self, c: ClientId) -> (r: String)
        ensures
            r@ == room_name(self@, c),
    {
        let mut name = String::new();
        match &self.config.relay_id {
            Some(relay_id) => {
                name.append(relay_id.as_str());
                name.append("_");
            },
            None => {},
        }
        push_decimal_u64(&mut name, c);
        proof {
            assert(name@ =~= room_name(self@, c));
        }
        name
    }

    fn create_room(&mut self, sender_id: ClientId, app_id: String) -> (outs: Vec<GameAction>)
        requires
            old(self).wf(),
            old(self)@.sessions.contains_key(sender_id),
            old(self)@.sessions[sender_id] == app_id@,
            has_game_app(old(self)@.apps, app_id@),
        ensures
            final(self).wf(),
            (final(self)@, actions_view(outs@)) == create_room_spec(old(self)@, sender_id),
    {
        let ghost v0 = self@;
        let i = match self.find_app(app_id.as_str()) {
            Some(i) => i,
            None => {
                proof {
                    assert(false);
                }
                return Vec::new();
            },
        };
        let room_id = self.room_name_text(sender_id);
        let mut room = Room::new(room_id.clone(), sender_id);
        let peer_id = room.add_peer(sender_id);
        proof {
            assert(room@.peers.clients =~= fresh_room(room_id@, sender_id).peers.clients);
            assert(room@.peers.godots =~= fresh_room(room_id@, sender_id).peers.godots);
            assert(room@ == fresh_room(room_id@, sender_id));
            lemma_app_wf(self.apps@[i as int]);
            lemma_room_lookup(self.apps@[i as int], room_id@);
        }
        let ghost a0 = self.apps@[i as int];
        self.apps[i].add_room(room);
        proof {
            let a1 = self.apps@[i as int];
            lemma_app_wf(a1);
            let rv0 = game_app_view(a0).rooms;
            assert(game_app_view(a1).rooms =~= store_game_room(rv0, fresh_room(room_id@, sender_id)));
            assert(self@.apps =~= v0.apps.update(
                i as int,
                GameAppView { id: v0.apps[i as int].id, rooms: store_game_room(rv0, fresh_room(room_id@, sender_id)) },
            ));
        }
        self.client_to_room.insert(sender_id, (app_id.clone(), room_id.clone()));
        let mut outs: Vec<GameAction> = Vec::new();
        if self.registry {
            outs.push(GameAction::RegisterRoom { room_id: room_id.clone(), app_id });
        }
        outs.push(
            GameAction::Send {
                target: sender_id,
                message: GameMessage::ConnectedToRoom { room_id, peer_id, existing_peers: Vec::new() },
                channel: TransferChannels::Reliable,
            },
        );
        proof {
            let spec = create_room_spec(v0, sender_id);
            assert(self@.rooms_of =~= spec.0.rooms_of);
            assert(self@.apps =~= spec.0.apps);
            assert(actions_view(outs@) =~= spec.1);
            assert forall|a: int| 0 <= a < self@.apps.len() implies game_rooms_wf(
                #[trigger] self@.apps[a].rooms,
            ) by {
                if a != i {
                    assert(self@.apps[a] == v0.apps[a]);
                }
            }
        }
        outs
    }

    fn join_room(&mut self, sender_id: ClientId, app_id: String, room_id: String) -> (outs: Vec<
        GameAction,
    >)
        requires
            old(self).wf(),
            old(self)@.sessions.contains_key(sender_id),
            old(self)@.sessions[sender_id] == app_id@,
            !message_stops_server(
                old(self)@,
                sender_id,
                GameMessageView::JoinRoom { room_id: room_id@ },
            ),
        ensures
            final(self).wf(),
            join_room_ok(old(self)@, sender_id, room_id@, final(self)@, actions_view(outs@)),
    {
        let ghost v0 = self@;
        let mut outs: Vec<GameAction> = Vec::new();
        let i = match self.find_app(app_id.as_str()) {
            Some(i) => i,
            None => {
                proof {
                    assert(false);
                }
                return outs;
            },
        };
        let ghost a0 = self.apps@[i as int];
        let ghost rv0 = game_app_view(a0).rooms;
        proof {
            lemma_app_wf(a0);
            lemma_room_lookup(a0, room_id@);
        }
        let j = match self.apps[i].position(room_id.as_str()) {
            Some(j) => j,
            None => {
                outs.push(
                    GameAction::Send {
                        target: sender_id,
                        message: GameMessage::Error {
                            error_code: 404,
                            error_message: String::from_str("Room not found"),
                        },
                        channel: TransferChannels::Reliable,
                    },
                );
                proof {
                    assert(actions_view(outs@) =~= seq![
                        reliable_send(sender_id, error_message(404, "Room not found"@)),
                    ]);
                }
                return outs;
            },
        };
        proof {
            assert(rv0[j as int] == a0@.rooms[j as int]@);
            assert(game_room_index(rv0, room_id@) == j);
        }
        let existing = self.apps[i].rooms[j].get_godot_ids();
        let existing_peers = sort_increasing(&existing);
        let peer_id = self.apps[i].rooms[j].add_peer(sender_id);
        self.apps[i].rooms[j].mark_pending(sender_id);
        proof {
            let r = rv0[j as int];
            let nr = self.apps@[i as int].rooms@[j as int]@;
            assert(nr.peers.clients =~= with_peer(r, sender_id).peers.clients);
            assert(nr.peers.godots =~= with_peer(r, sender_id).peers.godots);
            assert(nr.pending =~= r.pending.insert(sender_id));
            let a1 = self.apps@[i as int];
            assert(game_app_view(a1).rooms =~= rv0.update(
                j as int,
                RoomView { pending: r.pending.insert(sender_id), ..with_peer(r, sender_id) },
            ));
            assert(self@.apps =~= v0.apps.update(i as int, GameAppView { id: v0.apps[i as int].id, rooms: game_app_view(a1).rooms }));
            let nv = game_app_view(a1).rooms;
            assert(game_rooms_wf(nv)) by {
                assert forall|x: int| 0 <= x < nv.len() implies crate::peers::peer_table_wf(
                    (#[trigger] nv[x]).peers,
                ) by {
                    if x != j {
                        assert(nv[x] == rv0[x]);
                    }
                }
                assert forall|x: int, y: int|
                    0 <= x < nv.len() && 0 <= y < nv.len() && x != y implies (#[trigger] nv[x]).id != (
                    #[trigger] nv[y]).id by {
                    assert(nv[x].id == rv0[x].id);
                    assert(nv[y].id == rv0[y].id);
                }
            }
            assert forall|a: int| 0 <= a < self@.apps.len() implies game_rooms_wf(
                #[trigger] self@.apps[a].rooms,
            ) by {
                if a != i {
                    assert(self@.apps[a] == v0.apps[a]);
                }
            }
        }
        self.client_to_room.insert(sender_id, (app_id, room_id.clone()));
        outs.push(
            GameAction::Send {
                target: sender_id,
                message: GameMessage::ConnectedToRoom { room_id, peer_id, existing_peers },
                channel: TransferChannels::Reliable,
            },
        );
        proof {
            assert(self@.rooms_of =~= v0.rooms_of.insert(sender_id, (v0.sessions[sender_id], room_id@)));
        }
        outs
    }

    /// Where `c` last entered a room: the application index and the room
    /// index, when both are still there.
    fn locate(&self, c: ClientId) -> (r: Option<(usize, usize)>)
        requires
            self.wf(),
        ensures
            match r {
                Some((i, j)) => {
                    &&& self@.rooms_of.contains_key(c)
                    &&& has_game_app(self@.apps, self@.rooms_of[c].0)
                    &&& i == game_app_index(self@.apps, self@.rooms_of[c].0)
                    &&& i < self@.apps.len()
                    &&& has_game_room(self@.apps[i as int].rooms, self@.rooms_of[c].1)
                    &&& j == game_room_index(self@.apps[i as int].rooms, self@.rooms_of[c].1)
                    &&& j < self@.apps[i as int].rooms.len()
                    &&& self@.apps[i as int].rooms[j as int] == self.apps@[i as int].rooms@[j as int]@
                },
                None => {
                    ||| !self@.rooms_of.contains_key(c)
                    ||| !has_game_app(self@.apps, self@.rooms_of[c].0)
                    ||| !has_game_room(
                        self@.apps[game_app_index(self@.apps, self@.rooms_of[c].0)].rooms,
                        self@.rooms_of[c].1,
                    )
                },
            },
    {
        let entry = match self.client_to_room.get(&c) {
            Some(e) => e,
            None => {
                return None;
            },
        };
        let i = match self.find_app(entry.0.as_str()) {
            Some(i) => i,
            None => {
                return None;
            },
        };
        let ghost a0 = self.apps@[i as int];
        proof {
            lemma_app_wf(a0);
            lemma_room_lookup(a0, entry.1@);
        }
        match self.apps[i].position(entry.1.as_str()) {
            Some(j) => {
                proof {
                    let rv0 = game_app_view(a0).rooms;
                    assert(rv0[j as int] == a0@.rooms[j as int]@);
                }
                Some((i, j))
            },
            None => None,
        }
    }

    fn announce_presence(&mut self, sender_id: ClientId) -> (outs: Vec<GameAction>)
        requires
            old(self).wf(),
            !(old(self)@.rooms_of.contains_key(sender_id) && !has_game_app(
                old(self)@.apps,
                old(self)@.rooms_of[sender_id].0,
            )),
        ensures
            final(self).wf(),
            announce_ok(old(self)@, sender_id, final(self)@, actions_view(outs@)),
    {
        let ghost v0 = self@;
        let mut outs: Vec<GameAction> = Vec::new();
        let (i, j) = match self.locate(sender_id) {
            Some(p) => p,
            None => {
                proof {
                    assert(actions_view(outs@) =~= Seq::<GameActionView>::empty());
                }
                return outs;
            },
        };
        let peer_id = match self.apps[i].rooms[j].get_godot_id(sender_id) {
            Some(p) => p,
            None => {
                proof {
                    assert(actions_view(outs@) =~= Seq::<GameActionView>::empty());
                }
                return outs;
            },
        };
        let existing_clients = self.apps[i].rooms[j].get_renet_ids();
        let ghost rv0 = v0.apps[i as int].rooms;
        let was_pending = self.apps[i].rooms[j].mark_ready(sender_id);
        proof {
            let r = rv0[j as int];
            let a1 = self.apps@[i as int];
            let nr = a1.rooms@[j as int]@;
            assert(nr.pending =~= r.pending.remove(sender_id));
            assert(game_app_view(a1).rooms =~= rv0.update(j as int, RoomView { pending: r.pending.remove(sender_id), ..r }));
            assert(self@.apps =~= v0.apps.update(i as int, GameAppView { id: v0.apps[i as int].id, rooms: game_app_view(a1).rooms }));
            assert forall|a: int| 0 <= a < self@.apps.len() implies game_rooms_wf(
                #[trigger] self@.apps[a].rooms,
            ) by {
                if a != i {
                    assert(self@.apps[a] == v0.apps[a]);
                } else {
                    let nv = self@.apps[a].rooms;
                    assert forall|x: int| 0 <= x < nv.len() implies crate::peers::peer_table_wf(
                        (#[trigger] nv[x]).peers,
                    ) by {
                        if x != j {
                            assert(nv[x] == rv0[x]);
                        }
                    }
                    assert forall|x: int, y: int|
                        0 <= x < nv.len() && 0 <= y < nv.len() && x != y implies (#[trigger] nv[x]).id != (
                        #[trigger] nv[y]).id by {
                        assert(nv[x].id == rv0[x].id);
                        assert(nv[y].id == rv0[y].id);
                    }
                }
            }
        }
        if was_pending {
            push_notices(&mut outs, &existing_clients, sender_id, Notice::PeerJoined(peer_id));
            proof {
                assert(actions_view(Seq::<GameAction>::empty()) =~= Seq::<GameActionView>::empty());
                let m = notice_message(Notice::PeerJoined(peer_id));
                let ts = choose|ts: Seq<ClientId>|
                    #![trigger notices(ts, m)]
                    ts.no_duplicates() && ts.to_set() == existing_clients@.to_set().remove(sender_id)
                        && actions_view(outs@) == Seq::<GameActionView>::empty() + notices(ts, m);
                assert(actions_view(outs@) =~= notices(ts, m));
            }
        } else {
            proof {
                assert(actions_view(outs@) =~= Seq::<GameActionView>::empty());
            }
        }
        outs
    }

    fn route_game_data(&self, sender_id: ClientId, target_peer: i32, data: Vec<u8>, channel: TransferChannels) -> (outs:
        Vec<GameAction>)
        requires
            self.wf(),
        ensures
            actions_view(outs@) == game_data_spec(self@, sender_id, target_peer, data@, channel),
    {
        let mut outs: Vec<GameAction> = Vec::new();
        let (i, j) = match self.locate(sender_id) {
            Some(p) => p,
            None => {
                proof {
                    assert(actions_view(outs@) =~= Seq::<GameActionView>::empty());
                }
                return outs;
            },
        };
        let room = &self.apps[i].rooms[j];
        if let Some(sender_godot_id) = room.get_godot_id(sender_id) {
            if let Some(target_client_id) = room.get_renet_id(target_peer) {
                outs.push(
                    GameAction::Send {
                        target: target_client_id,
                        message: GameMessage::GameData { from_peer: sender_godot_id, data },
                        channel,
                    },
                );
            }
        }
        proof {
            assert(actions_view(outs@) =~= game_data_spec(self@, sender_id, target_peer, data@, channel));
        }
        outs
    }

    /// Ends the sessions of `members` but `except` and forgets the rooms
    /// they entered.
    fn forget_clients(&mut self, members: &Vec<ClientId>, except: ClientId)
        ensures
            final(self)@ == (GameServerView {
                sessions: old(self)@.sessions.remove_keys(members@.to_set().remove(except)),
                rooms_of: old(self)@.rooms_of.remove_keys(members@.to_set().remove(except)),
                ..old(self)@
            }),
    {
        let ghost v0 = self@;
        let mut k: usize = 0;
        proof {
            assert(members@.take(0).to_set().remove(except) =~= Set::<ClientId>::empty());
            assert(v0.sessions.remove_keys(Set::<ClientId>::empty()) =~= v0.sessions);
            assert(v0.rooms_of.remove_keys(Set::<ClientId>::empty()) =~= v0.rooms_of);
        }
        while k < members.len()
            invariant
                k <= members@.len(),
                self@ == (GameServerView {
                    sessions: v0.sessions.remove_keys(members@.take(k as int).to_set().remove(except)),
                    rooms_of: v0.rooms_of.remove_keys(members@.take(k as int).to_set().remove(except)),
                    ..v0
                }),
            decreases members.len() - k,
        {
            let id = members[k];
            let ghost before = members@.take(k as int).to_set().remove(except);
            let ghost after = members@.take(k + 1).to_set().remove(except);
            proof {
                lemma_take_one_more(members@, k as int);
            }
            if id != except {
                let ghost prev = self@;
                self.sessions.remove(&id);
                self.client_to_room.remove(&id);
                proof {
                    assert(after =~= before.insert(id));
                    assert(self@.sessions =~= prev.sessions.remove(id));
                    assert(self@.rooms_of =~= prev.rooms_of.remove(id));
                    assert(self@.sessions =~= v0.sessions.remove_keys(after));
                    assert(self@.rooms_of =~= v0.rooms_of.remove_keys(after));
                }
            } else {
                proof {
                    assert(after =~= before);
                }
            }
            k += 1;
        }
        proof {
            assert(members@.take(members@.len() as int) =~= members@);
        }
    }

    fn handle_disconnect(&mut self, client_id: ClientId) -> (outs: Vec<GameAction>)
        requires
            old(self).wf(),
        ensures
            final(self).wf(),
            disconnect_ok(old(self)@, client_id, final(self)@, actions_view(outs@)),
    {
        let ghost v0 = self@;
        let mut outs: Vec<GameAction> = Vec::new();
        proof {
            assert(actions_view(outs@) =~= Seq::<GameActionView>::empty());
        }
        self.sessions.remove(&client_id);
        proof {
            assert(self@.sessions =~= v0.sessions.remove(client_id));
            assert(self@.apps == v0.apps);
        }
        let (app_id, room_id) = match self.client_to_room.remove(&client_id) {
            Some(e) => e,
            None => {
                proof {
                    assert(self@.rooms_of =~= v0.rooms_of);
                    assert(self@ == (GameServerView { sessions: v0.sessions.remove(client_id), ..v0 }));
                }
                return outs;
            },
        };
        let ghost s2 = self@;
        proof {
            assert(self@.rooms_of =~= v0.rooms_of.remove(client_id));
            assert(self@ == (GameServerView {
                rooms_of: v0.rooms_of.remove(client_id),
                sessions: v0.sessions.remove(client_id),
                ..v0
            }));
        }
        let i = match self.find_app(app_id.as_str()) {
            Some(i) => i,
            None => {
                return outs;
            },
        };
        let ghost a0 = self.apps@[i as int];
        let ghost rv0 = game_app_view(a0).rooms;
        proof {
            lemma_app_wf(a0);
            lemma_room_lookup(a0, room_id@);
        }
        let j = match self.apps[i].position(room_id.as_str()) {
            Some(j) => j,
            None => {
                return outs;
            },
        };
        let ghost r = rv0[j as int];
        proof {
            assert(r == a0@.rooms[j as int]@);
            assert(game_room_index(rv0, room_id@) == j);
        }
        let godot_id = match self.apps[i].rooms[j].get_godot_id(client_id) {
            Some(g) => g,
            None => {
                return outs;
            },
        };
        let is_host = self.apps[i].rooms[j].get_host() == client_id;
        let members = self.apps[i].rooms[j].get_renet_ids();
        let ghost others = r.peers.clients.dom().remove(client_id);
        let ghost new_rooms: Seq<RoomView>;
        if is_host {
            let _ = self.apps[i].remove_room(room_id.as_str());
            proof {
                new_rooms = rv0.remove(j as int);
                let a1 = self.apps@[i as int];
                lemma_app_wf(a1);
                assert(game_app_view(a1).rooms =~= new_rooms);
            }
            let ghost s3 = self@;
            self.forget_clients(&members, client_id);
            push_notices(&mut outs, &members, client_id, Notice::ForceDisconnect);
            let ghost kicks = actions_view(outs@);
            if self.registry {
                outs.push(GameAction::DeregisterRoom { room_id });
                proof {
                    assert(actions_view(outs@) =~= kicks.push(GameActionView::DeregisterRoom { room_id: room_id@ }));
                    assert(actions_view(outs@).drop_last() =~= kicks);
                }
            }
            proof {
                let m = notice_message(Notice::ForceDisconnect);
                let ts = choose|ts: Seq<ClientId>|
                    #![trigger notices(ts, m)]
                    ts.no_duplicates() && ts.to_set() == members@.to_set().remove(client_id)
                        && kicks == Seq::<GameActionView>::empty() + notices(ts, m);
                assert(kicks =~= notices(ts, m));
                assert(members@.to_set().remove(client_id) =~= others);
            }
        } else {
            self.apps[i].rooms[j].remove_peer(client_id);
            proof {
                let a1 = self.apps@[i as int];
                let left = without_peer(r, client_id);
                let nr = a1.rooms@[j as int]@;
                assert(nr.peers.clients =~= left.peers.clients);
                assert(nr.peers.godots =~= left.peers.godots);
                assert(nr == left);
                assert(game_app_view(a1).rooms =~= rv0.update(j as int, left));
                let nv = game_app_view(a1).rooms;
                assert(game_rooms_wf(nv)) by {
                    assert forall|x: int| 0 <= x < nv.len() implies crate::peers::peer_table_wf(
                        (#[trigger] nv[x]).peers,
                    ) by {
                        if x != j {
                            assert(nv[x] == rv0[x]);
                        }
                    }
                    assert forall|x: int, y: int|
                        0 <= x < nv.len() && 0 <= y < nv.len() && x != y implies (#[trigger] nv[x]).id != (
                        #[trigger] nv[y]).id by {
                        assert(nv[x].id == rv0[x].id);
                        assert(nv[y].id == rv0[y].id);
                    }
                }
                lemma_app_wf(a1);
                lemma_room_lookup(a1, room_id@);
                assert(nv[j as int].id == room_id@);
                assert(game_room_index(nv, room_id@) == j);
            }
            if self.apps[i].rooms[j].is_empty() {
                let _ = self.apps[i].remove_room(room_id.as_str());
                proof {
                    new_rooms = rv0.remove(j as int);
                    let a2 = self.apps@[i as int];
                    lemma_app_wf(a2);
                    assert(game_app_view(a2).rooms =~= new_rooms);
                    assert(actions_view(outs@) =~= Seq::<GameActionView>::empty());
                }
            } else {
                push_notices(&mut outs, &members, client_id, Notice::PeerLeft(godot_id));
                proof {
                    new_rooms = rv0.update(j as int, without_peer(r, client_id));
                    let m = notice_message(Notice::PeerLeft(godot_id));
                    let ts = choose|ts: Seq<ClientId>|
                        #![trigger notices(ts, m)]
                        ts.no_duplicates() && ts.to_set() == members@.to_set().remove(client_id)
                            && actions_view(outs@) == Seq::<GameActionView>::empty() + notices(ts, m);
                    assert(actions_view(outs@) =~= notices(ts, m));
                    assert(members@.to_set().remove(client_id) =~= others);
                }
            }
        }
        let ghost s4 = self@;
        proof {
            assert(self@.apps =~= s2.apps.update(i as int, GameAppView { id: s2.apps[i as int].id, rooms: new_rooms }));
            assert(game_rooms_wf(new_rooms));
        }
        proof {
            assert(self@.apps[i as int] == game_app_view(self.apps@[i as int]));
            assert(self@.apps[i as int].rooms == new_rooms);
            assert(game_app_view(self.apps@[i as int]).rooms.len() == self.apps@[i as int].rooms@.len());
        }
        if self.apps[i].rooms.len() == 0 {
            let ghost pre = self@.apps;
            self.apps.remove(i);
            proof {
                assert(self@.apps =~= pre.remove(i as int));
                assert(pre.remove(i as int) =~= s2.apps.remove(i as int));
                assert(new_rooms.len() == 0);
                assert(self@.apps =~= s2.apps.remove(i as int));
            }
        } else {
            proof {
                assert(new_rooms.len() != 0);
            }
        }
        proof {
            assert(self@.apps =~= apps_after(s2.apps, i as int, new_rooms));
            let na = self@.apps;
            assert forall|x: int, y: int|
                0 <= x < na.len() && 0 <= y < na.len() && x != y implies (#[trigger] na[x]).id != (
                #[trigger] na[y]).id by {
                if new_rooms.len() == 0 {
                    let ox = if x < i { x } else { x + 1 };
                    let oy = if y < i { y } else { y + 1 };
                    assert(na[x] == s2.apps[ox]);
                    assert(na[y] == s2.apps[oy]);
                } else {
                    assert(na[x].id == s2.apps[x].id);
                    assert(na[y].id == s2.apps[y].id);
                }
            }
            assert forall|x: int| 0 <= x < na.len() implies game_rooms_wf(#[trigger] na[x].rooms) by {
                if new_rooms.len() == 0 {
                    let ox = if x < i { x } else { x + 1 };
                    assert(na[x] == s2.apps[ox]);
                } else if x != i {
                    assert(na[x] == s2.apps[x]);
                }
            }
        }
        outs
    }

    fn handle_packet(&mut self, client_id: ClientId, message: Option<GameMessage>, channel: TransferChannels) -> (outs:
        Vec<GameAction>)
        requires
            old(self).wf(),
            match message {
                Some(m) => !message_stops_server(old(self)@, client_id, m@),
                None => true,
            },
        ensures
            final(self).wf(),
            message_ok(
                old(self)@,
                client_id,
                match message {
                    Some(m) => Some(m@),
                    None => None,
                },
                channel,
                final(self)@,
                actions_view(outs@),
            ),
    {
        let mut outs: Vec<GameAction> = Vec::new();
        proof {
            assert(actions_view(outs@) =~= Seq::<GameActionView>::empty());
        }
        let m = match message {
            None => {
                return outs;
            },
            Some(m) => m,
        };
        if let GameMessage::Authenticate { app_id, version } = m {
            return self.authenticate_client(client_id, app_id, version);
        }
        let app_id = match self.sessions.get(&client_id) {
            Some(session) => session.app_id.clone(),
            None => {
                outs.push(
                    GameAction::Send {
                        target: client_id,
                        message: GameMessage::Error {
                            error_code: 0,
                            error_message: String::from_str("Unauthorized"),
                        },
                        channel: TransferChannels::Reliable,
                    },
                );
                proof {
                    assert(actions_view(outs@) =~= seq![
                        reliable_send(client_id, error_message(0, "Unauthorized"@)),
                    ]);
                }
                return outs;
            },
        };
        match m {
            GameMessage::CreateRoom => self.create_room(client_id, app_id),
            GameMessage::JoinRoom { room_id } => self.join_room(client_id, app_id, room_id),
            GameMessage::PeerReady => self.announce_presence(client_id),
            GameMessage::GameData { from_peer, data } => self.route_game_data(
                client_id,
                from_peer,
                data,
                channel,
            ),
            _ => outs,
        }
    }

    /// Whether the server handles `event` without stopping (see
    /// [`message_stops_server`]).
    pub fn handles(&self, event: &GameEvent) -> (r: bool)
        requires
            self.wf(),
        ensures
            r == event_handled(self@, event@),
    {
        let (client_id, m) = match event {
            GameEvent::MessageReceived { client_id, message: Some(m), .. } => (*client_id, m),
            _ => {
                return true;
            },
        };
        if let GameMessage::Authenticate { .. } = m {
            return true;
        }
        let app_id = match self.sessions.get(&client_id) {
            Some(session) => session.app_id.as_str(),
            None => {
                return true;
            },
        };
        match m {
            GameMessage::CreateRoom => self.find_app(app_id).is_some(),
            GameMessage::JoinRoom { room_id } => match self.find_app(app_id) {
                None => false,
                Some(i) => {
                    proof {
                        lemma_app_wf(self.apps@[i as int]);
                        lemma_room_lookup(self.apps@[i as int], room_id@);
                    }
                    match self.apps[i].position(room_id.as_str()) {
                        None => true,
                        Some(j) => {
                            proof {
                                let rv = game_app_view(self.apps@[i as int]).rooms;
                                assert(rv[j as int] == self.apps@[i as int]@.rooms[j as int]@);
                            }
                            self.apps[i].rooms[j].has_peer_ids_left()
                        },
                    }
                },
            },
            GameMessage::PeerReady => match self.client_to_room.get(&client_id) {
                None => true,
                Some(entry) => self.find_app(entry.0.as_str()).is_some(),
            },
            _ => true,
        }
    }

    /// Handles an event: a disconnection ends the client's session and
    /// takes it out of its room; a message is answered as
    /// [`message_ok`] describes.
    pub fn handle_event(&mut self, event: GameEvent) -> (outs: Vec<GameAction>)
        requires
            old(self).wf(),
            event_handled(old(self)@, event@),
        ensures
            final(self).wf(),
            event_ok(old(self)@, event@, final(self)@, actions_view(outs@)),
    {
        match event {
            GameEvent::ClientConnected { .. } => {
                let outs: Vec<GameAction> = Vec::new();
                proof {
                    assert(actions_view(outs@) =~= Seq::<GameActionView>::empty());
                }
                outs
            },
            GameEvent::ClientDisconnected { client_id } => self.handle_disconnect(client_id),
            GameEvent::MessageReceived { client_id, message, channel } => self.handle_packet(
                client_id,
                message,
                channel,
            ),
        }
    }
}

/// A client that has not authenticated gets an "Unauthorized" error for
/// anything but an authentication, and nothing changes.
pub proof fn law_unauthenticated_requests_change_nothing(
    v: GameServerView,
    c: ClientId,
    m: GameMessageView,
    channel: TransferChannels,
    v2: GameServerView,
    outs: Seq<GameActionView>,
)
    requires
        !v.sessions.contains_key(c),
        !(m is Authenticate),
        message_ok(v, c, Some(m), channel, v2, outs),
    ensures
        v2 == v,
        outs == seq![reliable_send(c, error_message(0, "Unauthorized"@))],
{
}

/// A client that joins a room gets a peer identifier that no peer of the
/// room holds, and is told every identifier already held.
pub proof fn law_joined_peer_id_is_fresh(
    v: GameServerView,
    c: ClientId,
    room_id: Seq<char>,
    v2: GameServerView,
    outs: Seq<GameActionView>,
)
    requires
        game_server_wf(v),
        v.sessions.contains_key(c),
        has_game_app(v.apps, v.sessions[c]),
        join_room_ok(v, c, room_id, v2, outs),
        has_game_room(v.apps[game_app_index(v.apps, v.sessions[c])].rooms, room_id),
    ensures
        outs[0] matches GameActionView::Send {
            message: GameMessageView::ConnectedToRoom { peer_id, existing_peers, .. },
            ..
        } && !existing_peers.contains(peer_id) && existing_peers.len() == v.apps[game_app_index(
            v.apps,
            v.sessions[c],
        )].rooms[game_room_index(
            v.apps[game_app_index(v.apps, v.sessions[c])].rooms,
            room_id,
        )].peers.godots.dom().len(),
{
    let i = game_app_index(v.apps, v.sessions[c]);
    let rooms = v.apps[i].rooms;
    let j = game_room_index(rooms, room_id);
    let r = rooms[j];
    assert(game_rooms_wf(rooms));
    assert(crate::peers::peer_table_wf(r.peers));
    if let GameActionView::Send {
        message: GameMessageView::ConnectedToRoom { peer_id, existing_peers, .. },
        ..
    } = outs[0] {
        if existing_peers.contains(peer_id) {
            assert(existing_peers.to_set().contains(peer_id));
            assert(r.peers.godots.contains_key(peer_id));
        }
        assert(existing_peers.no_duplicates()) by {
            assert forall|a: int, b: int|
                0 <= a < existing_peers.len() && 0 <= b < existing_peers.len() && a != b implies existing_peers[a]
                != existing_peers[b] by {
                if a < b {
                    assert(existing_peers[a] < existing_peers[b]);
                } else {
                    assert(existing_peers[b] < existing_peers[a]);
                }
            }
        }
        existing_peers.unique_seq_to_set();
    }
}

/// A client gets a session only by authenticating with an application the
/// whitelist lets in and a version that is allowed.
pub proof fn law_sessions_come_from_passing_authentication(
    v: GameServerView,
    event: GameEventView,
    v2: GameServerView,
    outs: Seq<GameActionView>,
    c: ClientId,
)
    requires
        !v.sessions.contains_key(c),
        event_ok(v, event, v2, outs),
        v2.sessions.contains_key(c),
    ensures
        match event {
            GameEventView::MessageReceived { client_id, message: Some(m), .. } => {
                &&& client_id == c
                &&& m matches GameMessageView::Authenticate { app_id, version } && allowed_by(
                    v.whitelist,
                    app_id,
                ) && allowed_by(v.versions, version)
            },
            _ => false,
        },
{
    match event {
        GameEventView::ClientConnected { .. } => {},
        GameEventView::ClientDisconnected { client_id } => {
            assert(!v2.sessions.contains_key(c));
        },
        GameEventView::MessageReceived { client_id, message, channel } => {
            if let Some(m) = message {
                if client_id != c {
                    if let GameMessageView::Authenticate { app_id, version } = m {
                        assert(!v2.sessions.contains_key(c));
                    }
                }
            }
        },
    }
}

} // verus!
